use crate::lines::{lemma_unlines_concat, unlines};
use crate::object::{Object, ObjectView};
use crate::search::{
    distinct, lemma_position, lemma_position_first, lemma_position_none, position,
};
use crate::text::same_text;
use crate::value::ValueParseError;
use vstd::prelude::*;
use vstd::string::StringExecFns;

verus! {

/// `std::io::Error` of the standard library: the library hands such an error on and
/// never looks into it.
#[verifier::external_type_specification]
#[verifier::external_body]
pub struct ExIoError(std::io::Error);

/// Why a database could not be loaded.
#[derive(Debug)]
pub enum DatabaseLoadError {
    /// The backing file could not be read.
    IO(std::io::Error),
    /// The value of a field could not be decoded.
    ValueError(ValueParseError),
}

/// Named objects, and the path of the file that persists them.
#[derive(Debug)]
pub struct Database {
    objects: Vec<Object>,
    path: String,
}

/// A database as the contracts speak of it: the path of its backing file and its
/// objects, in the order in which they are written out.
pub ghost struct DatabaseView {
    pub path: Seq<char>,
    pub objects: Seq<ObjectView>,
}

/// The first line of a backing file.
pub open spec fn header_line() -> Seq<char> {
    seq!['s', 'o', 's', 'd', 'b']
}

/// The lines of the blocks of `objects`, each block followed by an empty line.
pub open spec fn block_lines(objects: Seq<ObjectView>) -> Seq<Seq<char>>
    decreases objects.len(),
{
    if objects.len() == 0 {
        Seq::empty()
    } else {
        block_lines(objects.drop_last()) + objects.last().lines() + seq![Seq::empty()]
    }
}

impl DatabaseView {
    /// The database on that path without objects.
    pub open spec fn new(path: Seq<char>) -> DatabaseView {
        DatabaseView { path, objects: Seq::empty() }
    }

    /// The names of the objects, in order.
    pub open spec fn names(self) -> Seq<Seq<char>> {
        Seq::new(self.objects.len(), |i: int| self.objects[i].name)
    }

    /// No two objects have the same name, and no object has two fields of the same
    /// name.
    pub open spec fn wf(self) -> bool {
        &&& distinct(self.names())
        &&& forall|i: int| 0 <= i < self.objects.len() ==> (#[trigger] self.objects[i]).wf()
    }

    /// The object named `name`, if the database has one.
    pub open spec fn get_object(self, name: Seq<char>) -> Option<ObjectView> {
        match position(self.names(), name) {
            Some(i) => Some(self.objects[i]),
            None => None,
        }
    }

    /// The objects as a mapping from names to objects: what lookups see of the
    /// database, whatever the order of its objects.
    pub open spec fn objects_by_name(self) -> Map<Seq<char>, ObjectView> {
        Map::new(
            |name: Seq<char>| self.get_object(name) is Some,
            |name: Seq<char>|
                match self.get_object(name) {
                    Some(object) => object,
                    None => arbitrary(),
                },
        )
    }

    /// The database with `object` in it: in the place of the object of the same name
    /// where it has one, as a new last object where it has none.
    pub open spec fn add_object(self, object: ObjectView) -> DatabaseView {
        match position(self.names(), object.name) {
            Some(i) => DatabaseView { objects: self.objects.update(i, object), ..self },
            None => DatabaseView { objects: self.objects.push(object), ..self },
        }
    }

    /// The database without the object named `name`.
    pub open spec fn remove_object(self, name: Seq<char>) -> DatabaseView {
        match position(self.names(), name) {
            Some(i) => DatabaseView { objects: self.objects.remove(i), ..self },
            None => self,
        }
    }

    /// The lines of the backing file: the header line, then the block of each object
    /// in order, each block followed by an empty line.
    pub open spec fn lines(self) -> Seq<Seq<char>> {
        seq![header_line()] + block_lines(self.objects)
    }

    /// The text of the backing file: its lines, each followed by a line feed.
    pub open spec fn render(self) -> Seq<char> {
        unlines(self.lines())
    }
}

/// `database` after `objects` were added to it in order.
pub open spec fn add_objects(database: DatabaseView, objects: Seq<ObjectView>) -> DatabaseView
    decreases objects.len(),
{
    if objects.len() == 0 {
        database
    } else {
        add_objects(database, objects.drop_last()).add_object(objects.last())
    }
}

/// An object that was added is the object of its name, and the objects of other names
/// stay as they were.
pub proof fn lemma_add_then_get_object(
    database: DatabaseView,
    object: ObjectView,
    other: Seq<char>,
)
    ensures
        database.add_object(object).get_object(object.name) == Some(object),
        other != object.name ==> database.add_object(object).get_object(other)
            == database.get_object(other),
        database.wf() && object.wf() ==> database.add_object(object).wf(),
        distinct(database.names()) ==> distinct(database.add_object(object).names()),
        database.add_object(object).path == database.path,
{
    let names = database.names();
    let after = database.add_object(object);
    lemma_position(names, object.name);
    lemma_position(names, other);
    match position(names, object.name) {
        Some(i) => {
            assert(after.names() =~= names);
        },
        None => {
            assert(after.names() =~= names.push(object.name));
            lemma_position_first(after.names(), object.name, names.len() as int);
            if other != object.name {
                match position(names, other) {
                    Some(j) => {
                        lemma_position_first(after.names(), other, j);
                    },
                    None => {
                        lemma_position_none(after.names(), other);
                    },
                }
            }
        },
    }
}

/// Of two objects of one name that are added one after the other, the database keeps
/// the second only: it is as if the first had never been added.
pub proof fn lemma_add_object_twice(database: DatabaseView, first: ObjectView, second: ObjectView)
    requires
        first.name == second.name,
    ensures
        database.add_object(first).add_object(second) == database.add_object(second),
        database.add_object(first).add_object(second).get_object(second.name) == Some(second),
{
    let names = database.names();
    let once = database.add_object(first);
    lemma_position(names, first.name);
    match position(names, first.name) {
        Some(i) => {
            assert(once.names() =~= names);
            assert(once.objects.update(i, second) =~= database.objects.update(i, second));
        },
        None => {
            assert(once.names() =~= names.push(first.name));
            lemma_position_first(once.names(), first.name, names.len() as int);
            assert(once.objects.update(names.len() as int, second) =~= database.objects.push(
                second,
            ));
        },
    }
    lemma_add_then_get_object(database, second, second.name);
}

/// An object that was removed is no longer there, and the objects of other names stay
/// as they were.
pub proof fn lemma_remove_then_get_object(
    database: DatabaseView,
    name: Seq<char>,
    other: Seq<char>,
)
    requires
        database.wf(),
    ensures
        database.remove_object(name).get_object(name) is None,
        other != name ==> database.remove_object(name).get_object(other) == database.get_object(
            other,
        ),
        database.remove_object(name).wf(),
        database.remove_object(name).path == database.path,
{
    let names = database.names();
    let after = database.remove_object(name);
    lemma_position(names, name);
    lemma_position(names, other);
    match position(names, name) {
        Some(i) => {
            assert(after.names() =~= names.remove(i));
            lemma_position_none(after.names(), name);
            if other != name {
                match position(names, other) {
                    Some(j) => {
                        let moved = if j < i {
                            j
                        } else {
                            j - 1
                        };
                        lemma_position_first(after.names(), other, moved);
                    },
                    None => {
                        lemma_position_none(after.names(), other);
                    },
                }
            }
            assert forall|k: int| 0 <= k < after.objects.len() implies (
            #[trigger] after.objects[k]).wf() by {
                let k0 = if k < i {
                    k
                } else {
                    k + 1
                };
                assert(after.objects[k] == database.objects[k0]);
            }
        },
        None => {},
    }
}

/// Adding an object maps its name to it and changes nothing else of the mapping;
/// removing an object takes its name out of the mapping and changes nothing else.
pub proof fn lemma_objects_by_name(database: DatabaseView, object: ObjectView, name: Seq<char>)
    requires
        database.wf(),
    ensures
        database.add_object(object).objects_by_name() == database.objects_by_name().insert(
            object.name,
            object,
        ),
        database.remove_object(name).objects_by_name() == database.objects_by_name().remove(name),
{
    let before = database.objects_by_name();
    let added = database.add_object(object).objects_by_name();
    let removed = database.remove_object(name).objects_by_name();
    let inserted = before.insert(object.name, object);
    assert forall|other: Seq<char>| #[trigger]
        added.dom().contains(other) == inserted.dom().contains(other) && (added.dom().contains(
            other,
        ) ==> added[other] == inserted[other]) by {
        lemma_add_then_get_object(database, object, other);
    }
    assert(added =~= inserted);
    assert forall|other: Seq<char>| #[trigger]
        removed.dom().contains(other) == before.remove(name).dom().contains(other) && (
        removed.dom().contains(other) ==> removed[other] == before.remove(name)[other]) by {
        lemma_remove_then_get_object(database, name, other);
    }
    assert(removed =~= before.remove(name));
}

/// The objects that a list of stored objects stands for.
pub open spec fn object_views(objects: Seq<Object>) -> Seq<ObjectView> {
    Seq::new(objects.len(), |i: int| objects[i]@)
}

/// The object that a lookup found, as the contracts speak of it.
pub open spec fn found_object_view(found: Option<&Object>) -> Option<ObjectView> {
    match found {
        Some(object) => Some(object@),
        None => None,
    }
}

/// The object that a removal took out, as the contracts speak of it.
pub open spec fn taken_object_view(taken: Option<Object>) -> Option<ObjectView> {
    match taken {
        Some(object) => Some(object@),
        None => None,
    }
}

impl View for Database {
    type V = DatabaseView;

    closed spec fn view(&self) -> DatabaseView {
        DatabaseView { path: self.path@, objects: object_views(self.objects@) }
    }
}

impl Database {
    /// No two objects of the database have the same name.
    #[verifier::type_invariant]
    pub open spec fn well_formed(self) -> bool {
        self@.wf()
    }

    /// The index of the object named `name`.
    fn index_of(&self, name: &str) -> (index: Option<usize>)
        ensures
            match index {
                Some(i) => position(self@.names(), name@) == Some(i as int) && i
                    < self.objects.len(),
                None => position(self@.names(), name@) is None,
            },
    {
        let ghost names = self@.names();
        let mut i: usize = 0;
        while i < self.objects.len()
            invariant
                i <= self.objects.len(),
                names == self@.names(),
                names.len() == self.objects.len(),
                forall|j: int| 0 <= j < i ==> names[j] != name@,
            decreases self.objects.len() - i,
        {
            if same_text(self.objects[i].name(), name) {
                proof {
                    assert(names[i as int] == name@);
                    lemma_position_first(names, name@, i as int);
                }
                return Some(i);
            }
            i += 1;
        }
        proof {
            lemma_position(names, name@);
        }
        None
    }

    /// Takes the stored objects out, which leaves the database without objects.
    fn take_objects(&mut self) -> (objects: Vec<Object>)
        ensures
            object_views(objects@) == old(self)@.objects,
            final(self)@ == DatabaseView::new(old(self)@.path),
    {
        let mut objects: Vec<Object> = Vec::new();
        assert(object_views(objects@) =~= Seq::empty());
        core::mem::swap(&mut self.objects, &mut objects);
        objects
    }

    /// Puts stored objects in the place of those that the database has.
    fn put_objects(&mut self, objects: Vec<Object>)
        requires
            (DatabaseView { path: old(self)@.path, objects: object_views(objects@) }).wf(),
        ensures
            final(self)@ == (DatabaseView {
                path: old(self)@.path,
                objects: object_views(objects@),
            }),
    {
        let mut objects = objects;
        core::mem::swap(&mut self.objects, &mut objects);
    }

    /// A database on that path without objects.
    pub fn new(path: String) -> (database: Database)
        ensures
            database@ == DatabaseView::new(path@),
            database@.wf(),
    {
        let database = Database { objects: Vec::new(), path };
        assert(database@.objects =~= Seq::empty());
        database
    }

    /// The path of the backing file.
    pub fn path(&self) -> (path: &str)
        ensures
            path@ == self@.path,
    {
        self.path.as_str()
    }

    /// Puts `object` into the database, in the place of the object of the same name
    /// if there is one.
    pub fn add_object(&mut self, object: Object)
        ensures
            final(self)@ == old(self)@.add_object(object@),
            final(self)@.wf(),
    {
        proof {
            use_type_invariant(&*self);
            use_type_invariant(&object);
        }
        let ghost before = self@;
        let found = self.index_of(object.name());
        let mut objects = self.take_objects();
        match found {
            Some(i) => {
                objects[i] = object;
            },
            None => {
                objects.push(object);
            },
        }
        proof {
            let after = DatabaseView { path: before.path, objects: object_views(objects@) };
            assert(after.objects =~= before.add_object(object@).objects);
            lemma_add_then_get_object(before, object@, object@.name);
        }
        self.put_objects(objects);
    }

    /// Takes the object named `name` out of the database and returns it.
    pub fn remove_object(&mut self, name: &str) -> (taken: Option<Object>)
        ensures
            final(self)@ == old(self)@.remove_object(name@),
            taken_object_view(taken) == old(self)@.get_object(name@),
            final(self)@.wf(),
    {
        proof {
            use_type_invariant(&*self);
        }
        let ghost before = self@;
        match self.index_of(name) {
            Some(i) => {
                let mut objects = self.take_objects();
                let object = objects.remove(i);
                proof {
                    let after = DatabaseView { path: before.path, objects: object_views(objects@) };
                    assert(after.objects =~= before.remove_object(name@).objects);
                    lemma_remove_then_get_object(before, name@, name@);
                }
                self.put_objects(objects);
                Some(object)
            },
            None => None,
        }
    }

    /// The object named `name`, if the database has one.
    pub fn get_object(&self, name: &str) -> (found: Option<&Object>)
        ensures
            found_object_view(found) == self@.get_object(name@),
    {
        match self.index_of(name) {
            Some(i) => Some(&self.objects[i]),
            None => None,
        }
    }

    /// The text of the backing file: the header line, then the block of each object,
    /// each block followed by an empty line.
    pub fn to_string(&self) -> (text: String)
        ensures
            text@ == self@.render(),
    {
        let ghost objects = self@.objects;
        let ghost first = seq![header_line()];
        let mut text = String::from_str("sosdb");
        text.push('\n');
        proof {
            reveal_strlit("sosdb");
            assert("sosdb"@ =~= header_line());
            assert(first.drop_last() == Seq::<Seq<char>>::empty());
            assert(unlines(first.drop_last()) == Seq::<char>::empty());
            assert(text@ =~= unlines(first));
            assert(objects.take(0) == Seq::<ObjectView>::empty());
        }
        let mut i: usize = 0;
        while i < self.objects.len()
            invariant
                i <= self.objects.len(),
                objects == self@.objects,
                objects.len() == self.objects.len(),
                first == seq![header_line()],
                text@ == unlines(first + block_lines(objects.take(i as int))),
            decreases self.objects.len() - i,
        {
            let ghost done = first + block_lines(objects.take(i as int));
            self.objects[i].render_into(&mut text);
            text.push('\n');
            proof {
                let object = objects[i as int];
                let blank = seq![Seq::<char>::empty()];
                assert(objects.take(i + 1).drop_last() == objects.take(i as int));
                assert(objects.take(i + 1).last() == object);
                let next = first + block_lines(objects.take(i + 1));
                assert(next == done + object.lines() + blank);
                lemma_unlines_concat(done + object.lines(), blank);
                lemma_unlines_concat(done, object.lines());
                assert(blank.drop_last() == Seq::<Seq<char>>::empty());
                assert(unlines(blank.drop_last()) == Seq::<char>::empty());
                assert(unlines(blank) =~= seq!['\n']);
                assert(text@ =~= unlines(next));
            }
            i += 1;
        }
        assert(objects.take(i as int) == objects);
        text
    }

    /// The text to write to the backing file so that it persists the database.
    pub fn save(&self) -> (text: String)
        ensures
            text@ == self@.render(),
    {
        self.to_string()
    }
}

} // verus!
