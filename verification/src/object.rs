use crate::lines::unlines;
use crate::search::{
    distinct, lemma_position, lemma_position_first, lemma_position_none, position,
};
use crate::text::same_text;
use crate::value::{Value, ValueView};
use vstd::prelude::*;
use vstd::string::StringExecFns;

verus! {

/// A named set of typed fields.
#[derive(Debug)]
pub struct Object {
    name: String,
    values: Vec<(String, Value)>,
}

/// An object as the contracts speak of it: its name and its fields, in the order in
/// which they are written out.
pub ghost struct ObjectView {
    pub name: Seq<char>,
    pub entries: Seq<(Seq<char>, ValueView)>,
}

/// The word that ends the block of an object.
pub open spec fn end_line() -> Seq<char> {
    seq!['e', 'n', 'd']
}

/// The line that starts the block of the object `name`: the word `object`, a space,
/// and the name.
pub open spec fn object_line(name: Seq<char>) -> Seq<char> {
    seq!['o', 'b', 'j', 'e', 'c', 't', ' '] + name
}

/// The line of a field: two spaces, the field's name, an equals sign, and the encoded
/// value.
pub open spec fn field_line(entry: (Seq<char>, ValueView)) -> Seq<char> {
    seq![' ', ' '] + entry.0 + seq!['='] + entry.1.encode()
}

/// The lines of the fields `entries`, in order.
pub open spec fn field_lines(entries: Seq<(Seq<char>, ValueView)>) -> Seq<Seq<char>> {
    Seq::new(entries.len(), |i: int| field_line(entries[i]))
}

impl ObjectView {
    /// The lines of the object's block: the line that starts it, one line for each
    /// field in order, and the line that ends it.
    pub open spec fn lines(self) -> Seq<Seq<char>> {
        seq![object_line(self.name)] + field_lines(self.entries) + seq![end_line()]
    }

    /// The object written out: its lines, each followed by a line feed.
    pub open spec fn render(self) -> Seq<char> {
        unlines(self.lines())
    }

    /// The object of that name without fields.
    pub open spec fn new(name: Seq<char>) -> ObjectView {
        ObjectView { name, entries: Seq::empty() }
    }

    /// The names of the fields, in order.
    pub open spec fn keys(self) -> Seq<Seq<char>> {
        Seq::new(self.entries.len(), |i: int| self.entries[i].0)
    }

    /// No two fields have the same name.
    pub open spec fn wf(self) -> bool {
        distinct(self.keys())
    }

    /// The value of the field `field`, if the object has that field.
    pub open spec fn get(self, field: Seq<char>) -> Option<ValueView> {
        match position(self.keys(), field) {
            Some(i) => Some(self.entries[i].1),
            None => None,
        }
    }

    /// The fields as a mapping from names to values: what lookups see of the object,
    /// whatever the order of its fields.
    pub open spec fn fields(self) -> Map<Seq<char>, ValueView> {
        Map::new(
            |field: Seq<char>| self.get(field) is Some,
            |field: Seq<char>|
                match self.get(field) {
                    Some(value) => value,
                    None => arbitrary(),
                },
        )
    }

    /// The object with `field` set to `value`: in place where it has that field, as a
    /// new last field where it has not.
    pub open spec fn add(self, field: Seq<char>, value: ValueView) -> ObjectView {
        match position(self.keys(), field) {
            Some(i) => ObjectView { entries: self.entries.update(i, (field, value)), ..self },
            None => ObjectView { entries: self.entries.push((field, value)), ..self },
        }
    }

    /// The object without the field `field`.
    pub open spec fn delete(self, field: Seq<char>) -> ObjectView {
        match position(self.keys(), field) {
            Some(i) => ObjectView { entries: self.entries.remove(i), ..self },
            None => self,
        }
    }
}

/// A field that was set has the value it was set to, and the other fields keep
/// what they had.
pub proof fn lemma_add_then_get(
    object: ObjectView,
    field: Seq<char>,
    value: ValueView,
    other: Seq<char>,
)
    ensures
        object.add(field, value).get(field) == Some(value),
        other != field ==> object.add(field, value).get(other) == object.get(other),
        object.wf() ==> object.add(field, value).wf(),
        object.add(field, value).name == object.name,
{
    let keys = object.keys();
    let after = object.add(field, value);
    lemma_position(keys, field);
    lemma_position(keys, other);
    match position(keys, field) {
        Some(i) => {
            assert(after.keys() =~= keys);
        },
        None => {
            assert(after.keys() =~= keys.push(field));
            lemma_position_first(after.keys(), field, keys.len() as int);
            if other != field {
                match position(keys, other) {
                    Some(j) => {
                        lemma_position_first(after.keys(), other, j);
                    },
                    None => {
                        lemma_position_none(after.keys(), other);
                    },
                }
            }
        },
    }
}

/// A field that was deleted is no longer there, and the other fields keep what they
/// had.
pub proof fn lemma_delete_then_get(object: ObjectView, field: Seq<char>, other: Seq<char>)
    requires
        object.wf(),
    ensures
        object.delete(field).get(field) is None,
        other != field ==> object.delete(field).get(other) == object.get(other),
        object.delete(field).wf(),
        object.delete(field).name == object.name,
{
    let keys = object.keys();
    let after = object.delete(field);
    lemma_position(keys, field);
    lemma_position(keys, other);
    match position(keys, field) {
        Some(i) => {
            assert(after.keys() =~= keys.remove(i));
            lemma_position_none(after.keys(), field);
            if other != field {
                match position(keys, other) {
                    Some(j) => {
                        let moved = if j < i {
                            j
                        } else {
                            j - 1
                        };
                        lemma_position_first(after.keys(), other, moved);
                    },
                    None => {
                        lemma_position_none(after.keys(), other);
                    },
                }
            }
        },
        None => {},
    }
}

/// Setting a field maps its name to the value and changes nothing else of the
/// mapping; deleting a field takes its name out of the mapping and changes nothing
/// else.
pub proof fn lemma_fields(object: ObjectView, field: Seq<char>, value: ValueView)
    requires
        object.wf(),
    ensures
        object.add(field, value).fields() == object.fields().insert(field, value),
        object.delete(field).fields() == object.fields().remove(field),
{
    let before = object.fields();
    let added = object.add(field, value).fields();
    let deleted = object.delete(field).fields();
    assert forall|other: Seq<char>| #[trigger]
        added.dom().contains(other) == before.insert(field, value).dom().contains(other) && (
        added.dom().contains(other) ==> added[other] == before.insert(field, value)[other]) by {
        lemma_add_then_get(object, field, value, other);
    }
    assert(added =~= before.insert(field, value));
    assert forall|other: Seq<char>| #[trigger]
        deleted.dom().contains(other) == before.remove(field).dom().contains(other) && (
        deleted.dom().contains(other) ==> deleted[other] == before.remove(field)[other]) by {
        lemma_delete_then_get(object, field, other);
    }
    assert(deleted =~= before.remove(field));
}

/// The value that a lookup found, as the contracts speak of it.
pub open spec fn found_view(found: Option<&Value>) -> Option<ValueView> {
    match found {
        Some(value) => Some(value@),
        None => None,
    }
}

/// The value that a removal took out, as the contracts speak of it.
pub open spec fn taken_view(taken: Option<Value>) -> Option<ValueView> {
    match taken {
        Some(value) => Some(value@),
        None => None,
    }
}

/// The fields that a list of stored fields stands for.
pub open spec fn entries_of(values: Seq<(String, Value)>) -> Seq<(Seq<char>, ValueView)> {
    Seq::new(values.len(), |i: int| (values[i].0@, values[i].1@))
}

impl View for Object {
    type V = ObjectView;

    closed spec fn view(&self) -> ObjectView {
        ObjectView { name: self.name@, entries: entries_of(self.values@) }
    }
}

impl Object {
    /// No two fields of the object have the same name.
    #[verifier::type_invariant]
    pub open spec fn well_formed(self) -> bool {
        self@.wf()
    }

    /// The index of the field `name`.
    fn index_of(&self, name: &str) -> (index: Option<usize>)
        ensures
            match index {
                Some(i) => position(self@.keys(), name@) == Some(i as int) && i < self.values.len(),
                None => position(self@.keys(), name@) is None,
            },
    {
        let ghost keys = self@.keys();
        let mut i: usize = 0;
        while i < self.values.len()
            invariant
                i <= self.values.len(),
                keys == self@.keys(),
                keys.len() == self.values.len(),
                forall|j: int| 0 <= j < i ==> keys[j] != name@,
            decreases self.values.len() - i,
        {
            if same_text(self.values[i].0.as_str(), name) {
                proof {
                    assert(keys[i as int] == name@);
                    lemma_position_first(keys, name@, i as int);
                }
                return Some(i);
            }
            i += 1;
        }
        proof {
            lemma_position(keys, name@);
        }
        None
    }

    /// An object of that name without fields.
    pub fn new(name: String) -> (object: Object)
        ensures
            object@ == ObjectView::new(name@),
            object@.wf(),
    {
        let object = Object { name, values: Vec::new() };
        assert(object@.entries =~= Seq::empty());
        object
    }

    /// The name of the object.
    pub fn name(&self) -> (name: &str)
        ensures
            name@ == self@.name,
    {
        self.name.as_str()
    }

    /// The value of the field `name`, if the object has that field.
    pub fn get(&self, name: &str) -> (found: Option<&Value>)
        ensures
            found_view(found) == self@.get(name@),
    {
        match self.index_of(name) {
            Some(i) => Some(&self.values[i].1),
            None => None,
        }
    }

    /// Takes the stored fields out, which leaves the object without fields.
    fn take_values(&mut self) -> (values: Vec<(String, Value)>)
        ensures
            entries_of(values@) == old(self)@.entries,
            final(self)@ == ObjectView::new(old(self)@.name),
    {
        let mut values: Vec<(String, Value)> = Vec::new();
        assert(entries_of(values@) =~= Seq::empty());
        core::mem::swap(&mut self.values, &mut values);
        values
    }

    /// Puts stored fields in the place of those that the object has.
    fn put_values(&mut self, values: Vec<(String, Value)>)
        requires
            (ObjectView { name: old(self)@.name, entries: entries_of(values@) }).wf(),
        ensures
            final(self)@ == (ObjectView { name: old(self)@.name, entries: entries_of(values@) }),
    {
        let mut values = values;
        core::mem::swap(&mut self.values, &mut values);
    }

    /// Sets the field `name` to `value`, whether or not the object has that field.
    pub fn add(&mut self, name: &str, value: Value)
        ensures
            final(self)@ == old(self)@.add(name@, value@),
            final(self)@.wf(),
    {
        proof {
            use_type_invariant(&*self);
        }
        let ghost before = self@;
        let key = String::from_str(name);
        let found = self.index_of(name);
        let mut values = self.take_values();
        match found {
            Some(i) => {
                values[i] = (key, value);
                proof {
                    let after = ObjectView { name: before.name, entries: entries_of(values@) };
                    assert(after.entries =~= before.entries.update(i as int, (name@, value@)));
                    lemma_position(before.keys(), name@);
                    assert(after.keys() =~= before.keys());
                }
            },
            None => {
                values.push((key, value));
                proof {
                    let after = ObjectView { name: before.name, entries: entries_of(values@) };
                    assert(after.entries =~= before.entries.push((name@, value@)));
                    lemma_position(before.keys(), name@);
                    assert forall|a: int, b: int| 0 <= a < b < after.keys().len() implies after.keys()[a]
                        != after.keys()[b] by {
                        assert(after.keys()[a] == before.keys()[a]);
                        if b < before.keys().len() {
                            assert(after.keys()[b] == before.keys()[b]);
                        }
                    }
                }
            },
        }
        self.put_values(values);
    }

    /// Takes the field `name` out of the object and returns the value it had.
    pub fn delete(&mut self, name: &str) -> (taken: Option<Value>)
        ensures
            final(self)@ == old(self)@.delete(name@),
            taken_view(taken) == old(self)@.get(name@),
            final(self)@.wf(),
    {
        proof {
            use_type_invariant(&*self);
        }
        let ghost before = self@;
        match self.index_of(name) {
            Some(i) => {
                let mut values = self.take_values();
                let entry = values.remove(i);
                proof {
                    let after = ObjectView { name: before.name, entries: entries_of(values@) };
                    assert(after.entries =~= before.entries.remove(i as int));
                    assert forall|a: int, b: int| 0 <= a < b < after.keys().len() implies after.keys()[a]
                        != after.keys()[b] by {
                        let a0 = if a < i { a } else { a + 1 };
                        let b0 = if b < i { b } else { b + 1 };
                        assert(after.keys()[a] == before.keys()[a0]);
                        assert(after.keys()[b] == before.keys()[b0]);
                    }
                }
                self.put_values(values);
                Some(entry.1)
            },
            None => None,
        }
    }

    /// Appends the object written out to `out`.
    pub fn render_into(&self, out: &mut String)
        ensures
            final(out)@ == old(out)@ + self@.render(),
    {
        let ghost before = out@;
        let ghost entries = self@.entries;
        let ghost first = seq![object_line(self@.name)];
        proof {
            reveal_strlit("object ");
            assert(first.drop_last() == Seq::<Seq<char>>::empty());
            assert(unlines(first.drop_last()) == Seq::<char>::empty());
        }
        out.append("object ");
        out.append(self.name.as_str());
        out.push('\n');
        assert(out@ == before + unlines(first)) by {
            assert("object "@ + self@.name =~= object_line(self@.name));
            assert(out@ =~= before + (Seq::<char>::empty() + object_line(self@.name) + seq![
                '\n',
            ]));
        }
        assert(first + field_lines(entries.take(0)) == first);
        let mut i: usize = 0;
        while i < self.values.len()
            invariant
                i <= self.values.len(),
                entries == self@.entries,
                entries.len() == self.values.len(),
                first == seq![object_line(self@.name)],
                out@ == before + unlines(first + field_lines(entries.take(i as int))),
            decreases self.values.len() - i,
        {
            let ghost done = first + field_lines(entries.take(i as int));
            let ghost now = out@;
            out.append("  ");
            out.append(self.values[i].0.as_str());
            out.push('=');
            self.values[i].1.encode_into(out);
            out.push('\n');
            proof {
                let next = first + field_lines(entries.take(i + 1));
                assert(entries[i as int] == (self.values[i as int].0@, self.values[i as int].1@));
                assert(next.drop_last() == done);
                assert(next.last() == field_line(entries[i as int]));
                reveal_strlit("  ");
                assert("  "@ =~= seq![' ', ' ']);
                assert(out@ =~= now + field_line(entries[i as int]) + seq!['\n']);
                assert(out@ =~= before + unlines(next));
            }
            i += 1;
        }
        let ghost done = first + field_lines(entries.take(i as int));
        assert(entries.take(i as int) == entries);
        out.append("end");
        out.push('\n');
        proof {
            let all = self@.lines();
            assert(all.drop_last() == done);
            assert(all.last() == end_line());
            reveal_strlit("end");
            assert("end"@ =~= end_line());
            assert(out@ =~= before + unlines(all));
        }
    }

    /// The object written out: the line that starts its block, one line for each
    /// field, and the line that ends the block.
    pub fn to_string(&self) -> (text: String)
        ensures
            text@ == self@.render(),
    {
        let mut text = String::new();
        self.render_into(&mut text);
        assert(Seq::<char>::empty() + self@.render() == self@.render());
        text
    }

    /// The object with the field `name` set to `value`.
    pub fn with_value(self, name: &str, value: Value) -> (object: Object)
        ensures
            object@ == self@.add(name@, value@),
            object@.wf(),
    {
        let mut object = self;
        object.add(name, value);
        object
    }
}

} // verus!
