use crate::database::{add_objects, lemma_add_then_get_object, DatabaseView};
use crate::object::{end_line, ObjectView};
use crate::reader::{
    block_body, block_rest, body_lines, load_text, read_blocks, with_fields, Loaded,
};
use crate::search::{distinct, lemma_position, lemma_position_first, position};
use crate::text::split_once;
use crate::value::ValueParseError;
use vstd::prelude::*;

verus! {

/// The objects of the blocks in `lines`, in order and up to the first error, and that
/// error if there is one.
pub open spec fn read_objects(lines: Seq<Seq<char>>) -> (Seq<ObjectView>, Option<ValueParseError>)
    decreases lines.len(),
{
    if lines.len() == 0 {
        (Seq::empty(), None)
    } else {
        let rest = lines.drop_first();
        match split_once(lines[0], ' ') {
            Some((_, name)) => match with_fields(ObjectView::new(name), block_body(rest)) {
                Ok(object) => {
                    proof {
                        lemma_position(rest, end_line());
                    }
                    let (objects, error) = read_objects(block_rest(rest));
                    (seq![object] + objects, error)
                },
                Err(error) => (Seq::empty(), Some(error)),
            },
            None => read_objects(rest),
        }
    }
}

/// The last object named `name` among `objects`.
pub open spec fn last_named(objects: Seq<ObjectView>, name: Seq<char>) -> Option<ObjectView>
    decreases objects.len(),
{
    if objects.len() == 0 {
        None
    } else if objects.last().name == name {
        Some(objects.last())
    } else {
        last_named(objects.drop_last(), name)
    }
}

/// Adding an object and then others is adding them all.
pub proof fn lemma_add_objects_first(
    database: DatabaseView,
    object: ObjectView,
    objects: Seq<ObjectView>,
)
    ensures
        add_objects(database, seq![object] + objects) == add_objects(
            database.add_object(object),
            objects,
        ),
    decreases objects.len(),
{
    let all = seq![object] + objects;
    if objects.len() == 0 {
        assert(all.drop_last() == Seq::<ObjectView>::empty());
        assert(all.last() == object);
        assert(add_objects(database, all.drop_last()) == database);
    } else {
        lemma_add_objects_first(database, object, objects.drop_last());
        assert(all.drop_last() == seq![object] + objects.drop_last());
        assert(all.last() == objects.last());
    }
}

/// Reading blocks into a database adds the objects of the blocks to it, in order.
pub proof fn lemma_read_blocks_adds(database: DatabaseView, lines: Seq<Seq<char>>)
    ensures
        read_blocks(database, lines) == (Loaded {
            database: add_objects(database, read_objects(lines).0),
            error: read_objects(lines).1,
        }),
    decreases lines.len(),
{
    if lines.len() > 0 {
        let rest = lines.drop_first();
        match split_once(lines[0], ' ') {
            Some((_, name)) => match with_fields(ObjectView::new(name), block_body(rest)) {
                Ok(object) => {
                    lemma_position(rest, end_line());
                    lemma_read_blocks_adds(database.add_object(object), block_rest(rest));
                    lemma_add_objects_first(database, object, read_objects(block_rest(rest)).0);
                },
                Err(_) => {},
            },
            None => {
                lemma_read_blocks_adds(database, rest);
            },
        }
    }
}

/// After objects were added, a name finds the last of them that has it, or what it
/// found before where none of them has it.
pub proof fn lemma_add_objects_get(
    database: DatabaseView,
    objects: Seq<ObjectView>,
    name: Seq<char>,
)
    ensures
        add_objects(database, objects).get_object(name) == match last_named(objects, name) {
            Some(object) => Some(object),
            None => database.get_object(name),
        },
        distinct(database.names()) ==> distinct(add_objects(database, objects).names()),
    decreases objects.len(),
{
    if objects.len() > 0 {
        lemma_add_objects_get(database, objects.drop_last(), name);
        lemma_add_then_get_object(add_objects(database, objects.drop_last()), objects.last(), name);
    }
}

/// Adding objects again to a database that has objects of all their names keeps the
/// names in their places, and puts under each name the last of the objects that has it.
proof fn lemma_add_objects_again(database: DatabaseView, objects: Seq<ObjectView>)
    requires
        distinct(database.names()),
        forall|k: int|
            0 <= k < objects.len() ==> database.get_object((#[trigger] objects[k]).name) is Some,
    ensures
        add_objects(database, objects).names() == database.names(),
        add_objects(database, objects).path == database.path,
        add_objects(database, objects).objects.len() == database.objects.len(),
        forall|p: int|
            0 <= p < database.objects.len() ==> #[trigger] add_objects(
                database,
                objects,
            ).objects[p] == match last_named(objects, database.names()[p]) {
                Some(object) => object,
                None => database.objects[p],
            },
    decreases objects.len(),
{
    if objects.len() > 0 {
        let first = objects.drop_last();
        let last = objects.last();
        assert forall|k: int| 0 <= k < first.len() implies database.get_object(
            (#[trigger] first[k]).name,
        ) is Some by {
            assert(first[k] == objects[k]);
        }
        lemma_add_objects_again(database, first);
        let before = add_objects(database, first);
        let after = before.add_object(last);
        let names = database.names();
        lemma_position(names, last.name);
        let at = position(names, last.name)->0;
        assert(after.objects == before.objects.update(at, last));
        assert(after.names() =~= names);
        assert forall|p: int| 0 <= p < database.objects.len() implies #[trigger] after.objects[p]
            == match last_named(objects, names[p]) {
            Some(object) => object,
            None => database.objects[p],
        } by {
            if p != at {
                assert(names[p] != names[at]);
            }
        }
    }
}

/// Adding the same objects a second time changes nothing.
pub proof fn lemma_add_objects_twice(database: DatabaseView, objects: Seq<ObjectView>)
    requires
        distinct(database.names()),
    ensures
        add_objects(add_objects(database, objects), objects) == add_objects(database, objects),
{
    let once = add_objects(database, objects);
    let twice = add_objects(once, objects);
    lemma_add_objects_get(database, objects, Seq::empty());
    assert forall|k: int| 0 <= k < objects.len() implies once.get_object(
        (#[trigger] objects[k]).name,
    ) is Some by {
        lemma_add_objects_get(database, objects, objects[k].name);
        lemma_last_named_some(objects, k);
    }
    lemma_add_objects_again(once, objects);
    assert forall|p: int| 0 <= p < once.objects.len() implies twice.objects[p]
        == once.objects[p] by {
        let name = once.names()[p];
        lemma_add_objects_get(database, objects, name);
        lemma_position_first(once.names(), name, p);
    }
    assert(twice.objects =~= once.objects);
}

/// A name that one of the objects has is the name of the last object that has it.
proof fn lemma_last_named_some(objects: Seq<ObjectView>, k: int)
    requires
        0 <= k < objects.len(),
    ensures
        last_named(objects, objects[k].name) is Some,
    decreases objects.len(),
{
    if objects.last().name != objects[k].name {
        assert(objects.drop_last()[k] == objects[k]);
        lemma_last_named_some(objects.drop_last(), k);
    }
}

/// Loading the same text a second time changes nothing: the database and the error
/// are those of the first time.
pub proof fn lemma_load_twice(database: DatabaseView, text: Seq<char>)
    requires
        distinct(database.names()),
    ensures
        load_text(load_text(database, text).database, text) == load_text(database, text),
{
    let lines = body_lines(text);
    lemma_read_blocks_adds(database, lines);
    lemma_read_blocks_adds(load_text(database, text).database, lines);
    lemma_add_objects_twice(database, read_objects(lines).0);
}

} // verus!
