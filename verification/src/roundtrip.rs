use crate::database::{add_objects, block_lines, header_line, DatabaseView};
use crate::float_text::{
    is_exponent, is_float_text, is_mantissa, is_number, is_special, lower, lowered, unsigned,
};
use crate::integer::{
    all_digits, decimal_text, has_sign, integer_text, is_digit, lemma_decimal_text,
};
use crate::lines::{lemma_lines_of_unlines, plain};
use crate::object::{end_line, field_line, field_lines, object_line, ObjectView};
use crate::reader::{
    block_body, block_rest, body_lines, lemma_block_of_concat, load_text, read_blocks,
    strip_indent, with_field, with_fields, Loaded,
};
use crate::search::{distinct, lacks, lemma_position_first, lemma_position_none};
use crate::value::{bool_text, lemma_decode_encode, ValueParseError, ValueView};
use vstd::prelude::*;

verus! {

/// A character that ends no line: neither a line feed nor a carriage return.
pub open spec fn within_line(c: char) -> bool {
    c != '\n' && c != '\r'
}

/// Every character of `s` ends no line.
pub open spec fn all_within_line(s: Seq<char>) -> bool {
    forall|i: int| 0 <= i < s.len() ==> within_line(#[trigger] s[i])
}

/// The decimal text of an integer holds no character that ends a line.
pub proof fn lemma_integer_text_within_line(v: int)
    ensures
        all_within_line(integer_text(v)),
{
    let text = integer_text(v);
    if v < 0 {
        let digits = decimal_text((-v) as nat);
        lemma_decimal_text((-v) as nat);
        assert forall|i: int| 0 <= i < text.len() implies within_line(#[trigger] text[i]) by {
            if i > 0 {
                assert(text[i] == digits[i - 1]);
                assert(is_digit(digits[i - 1]));
            }
        }
    } else {
        lemma_decimal_text(v as nat);
        assert forall|i: int| 0 <= i < text.len() implies within_line(#[trigger] text[i]) by {
            assert(is_digit(text[i]));
        }
    }
}

/// One of the words for an infinity or for not-a-number holds no character that ends
/// a line.
proof fn lemma_special_within_line(s: Seq<char>)
    requires
        is_special(s),
    ensures
        all_within_line(s),
{
    let l = lowered(s);
    let inf = seq!['i', 'n', 'f'];
    let infinity = seq!['i', 'n', 'f', 'i', 'n', 'i', 't', 'y'];
    let nan = seq!['n', 'a', 'n'];
    assert(inf.len() == 3 && nan.len() == 3 && infinity.len() == 8);
    assert(l.len() == s.len());
    assert forall|i: int| 0 <= i < s.len() implies within_line(#[trigger] s[i]) by {
        assert(l[i] == lower(s[i]));
        if l == inf {
            assert(inf[0] == 'i' && inf[1] == 'n' && inf[2] == 'f');
        } else if l == nan {
            assert(nan[0] == 'n' && nan[1] == 'a' && nan[2] == 'n');
        } else {
            assert(infinity[0] == 'i' && infinity[1] == 'n' && infinity[2] == 'f' && infinity[3]
                == 'i');
            assert(infinity[4] == 'n' && infinity[5] == 'i' && infinity[6] == 't' && infinity[7]
                == 'y');
        }
    }
}

/// A number holds no character that ends a line.
proof fn lemma_number_within_line(s: Seq<char>)
    requires
        is_number(s),
    ensures
        all_within_line(s),
{
    let m = choose|m: int|
        0 <= m <= s.len() && is_mantissa(#[trigger] s.take(m)) && (m == s.len() || is_exponent(
            s.skip(m),
        ));
    let mantissa = s.take(m);
    let exponent = s.skip(m);
    assert forall|i: int| 0 <= i < s.len() implies within_line(#[trigger] s[i]) by {
        if i < m {
            assert(s[i] == mantissa[i]);
            if mantissa.len() > 0 && all_digits(mantissa) {
                assert(is_digit(mantissa[i]));
            } else {
                let dot = choose|dot: int|
                    0 <= dot < mantissa.len() && #[trigger] mantissa[dot] == '.' && mantissa.len()
                        > 1 && all_digits(mantissa.take(dot)) && all_digits(
                        mantissa.skip(dot + 1),
                    );
                if i < dot {
                    assert(is_digit(mantissa.take(dot)[i]));
                } else if i > dot {
                    assert(is_digit(mantissa.skip(dot + 1)[i - dot - 1]));
                }
            }
        } else {
            assert(s[i] == exponent[i - m]);
            let tail = exponent.drop_first();
            if i > m {
                assert(exponent[i - m] == tail[i - m - 1]);
                if has_sign(tail) {
                    if i > m + 1 {
                        assert(is_digit(unsigned(tail)[i - m - 2]));
                    }
                } else {
                    assert(is_digit(unsigned(tail)[i - m - 1]));
                }
            }
        }
    }
}

/// The text of a float holds no character that ends a line.
pub proof fn lemma_float_text_within_line(s: Seq<char>)
    requires
        is_float_text(s),
    ensures
        all_within_line(s),
{
    let body = unsigned(s);
    if is_special(body) {
        lemma_special_within_line(body);
    } else {
        lemma_number_within_line(body);
    }
    assert forall|i: int| 0 <= i < s.len() implies within_line(#[trigger] s[i]) by {
        if has_sign(s) {
            if i > 0 {
                assert(s[i] == body[i - 1]);
            }
        }
    }
}

/// A value that loads again as it was written: any integer, float or boolean, and a
/// string that is a plain line.
pub open spec fn storable_value(value: ValueView) -> bool {
    &&& value.valid()
    &&& value matches ValueView::Str(text) ==> plain(text)
}

/// The encoded value of a storable value is a plain line.
pub proof fn lemma_encoding_plain(value: ValueView)
    requires
        storable_value(value),
    ensures
        plain(value.encode()),
{
    let payload = value.payload();
    let encoded = value.encode();
    assert(encoded.len() == payload.len() + 2);
    assert(encoded[0] == value.tag() && encoded[1] == ':');
    assert forall|i: int| 2 <= i < encoded.len() implies encoded[i] == payload[i - 2] by {}
    match value {
        ValueView::Str(text) => {},
        ValueView::Int(number) => {
            lemma_integer_text_within_line(number as int);
            assert forall|i: int| 0 <= i < payload.len() implies within_line(payload[i]) by {}
        },
        ValueView::Float(text) => {
            lemma_float_text_within_line(text);
            assert forall|i: int| 0 <= i < payload.len() implies within_line(payload[i]) by {}
        },
        ValueView::Bool(truth) => {
            let yes = bool_text(true);
            let no = bool_text(false);
            assert(yes[0] == 't' && yes[1] == 'r' && yes[2] == 'u' && yes[3] == 'e');
            assert(no[0] == 'f' && no[1] == 'a' && no[2] == 'l' && no[3] == 's' && no[4] == 'e');
        },
    }
    assert forall|j: int| 0 <= j < encoded.len() implies encoded[j] != '\n' by {
        if j >= 2 {
            assert(encoded[j] == payload[j - 2]);
        }
    }
    if payload.len() > 0 {
        assert(encoded.last() == payload.last());
    }
}

/// A field that loads again as it was written: its name holds no line feed and no
/// equals sign, and its value is storable.
pub open spec fn storable_field(entry: (Seq<char>, ValueView)) -> bool {
    &&& lacks(entry.0, '\n')
    &&& lacks(entry.0, '=')
    &&& storable_value(entry.1)
}

/// An object that loads again as it was written: its name is a plain line, no two of
/// its fields have the same name, and each of its fields is storable.
pub open spec fn storable_object(object: ObjectView) -> bool {
    &&& object.wf()
    &&& plain(object.name)
    &&& forall|i: int| 0 <= i < object.entries.len() ==> storable_field(#[trigger] object.entries[i])
}

/// A database that loads again as it was written: no two of its objects have the
/// same name, and each of its objects is storable.
pub open spec fn storable(database: DatabaseView) -> bool {
    &&& distinct(database.names())
    &&& forall|i: int|
        0 <= i < database.objects.len() ==> storable_object(#[trigger] database.objects[i])
}

/// The line of a storable field reads as that field.
pub proof fn lemma_field_line_read(object: ObjectView, entry: (Seq<char>, ValueView))
    requires
        storable_field(entry),
    ensures
        with_field(object, field_line(entry)) == Ok::<ObjectView, ValueParseError>(
            object.add(entry.0, entry.1),
        ),
        plain(field_line(entry)),
        field_line(entry) != end_line(),
{
    let line = field_line(entry);
    let encoded = entry.1.encode();
    let text = entry.0 + seq!['='] + encoded;
    assert(line[0] == ' ');
    assert(end_line()[0] == 'e');
    assert(strip_indent(line) == text);
    let at = entry.0.len() as int;
    assert(text[at] == '=');
    assert forall|j: int| 0 <= j < at implies text[j] != '=' by {
        assert(text[j] == entry.0[j]);
    }
    lemma_position_first(text, '=', at);
    assert(text.take(at) == entry.0);
    assert(text.skip(at + 1) == encoded);
    lemma_decode_encode(entry.1);
    lemma_encoding_plain(entry.1);
    assert(encoded.len() >= 2);
    assert(line.last() == encoded.last());
    assert forall|j: int| 0 <= j < line.len() implies line[j] != '\n' by {
        if j < 2 {
        } else if j < 2 + at {
            assert(line[j] == entry.0[j - 2]);
        } else if j == 2 + at {
        } else {
            assert(line[j] == encoded[j - 3 - at]);
        }
    }
}

/// The lines of storable fields of different names read as those fields.
pub proof fn lemma_field_lines_read(name: Seq<char>, entries: Seq<(Seq<char>, ValueView)>)
    requires
        (ObjectView { name, entries }).wf(),
        forall|i: int| 0 <= i < entries.len() ==> storable_field(#[trigger] entries[i]),
    ensures
        with_fields(ObjectView::new(name), field_lines(entries)) == Ok::<
            ObjectView,
            ValueParseError,
        >(ObjectView { name, entries }),
        lacks(field_lines(entries), end_line()),
    decreases entries.len(),
{
    let lines = field_lines(entries);
    let whole = ObjectView { name, entries };
    if entries.len() == 0 {
        assert(entries == Seq::<(Seq<char>, ValueView)>::empty());
    } else {
        let first = entries.drop_last();
        let last = entries.last();
        let part = ObjectView { name, entries: first };
        assert forall|a: int, b: int| 0 <= a < b < part.keys().len() implies part.keys()[a]
            != part.keys()[b] by {
            assert(part.keys()[a] == whole.keys()[a]);
            assert(part.keys()[b] == whole.keys()[b]);
        }
        assert forall|i: int| 0 <= i < first.len() implies storable_field(#[trigger] first[i]) by {
            assert(first[i] == entries[i]);
        }
        lemma_field_lines_read(name, first);
        assert(lines.drop_last() == field_lines(first));
        assert(lines.last() == field_line(last));
        lemma_field_line_read(part, last);
        assert forall|j: int| 0 <= j < part.keys().len() implies part.keys()[j] != last.0 by {
            assert(part.keys()[j] == whole.keys()[j]);
            assert(last.0 == whole.keys()[entries.len() - 1]);
        }
        lemma_position_none(part.keys(), last.0);
        assert(first.push(last) == entries);
        assert forall|j: int| 0 <= j < lines.len() implies lines[j] != end_line() by {
            if j < first.len() {
                assert(lines[j] == field_lines(first)[j]);
            }
        }
    }
}

/// The block of a storable object, followed by an empty line, reads as that object.
pub proof fn lemma_block_read(database: DatabaseView, object: ObjectView, tail: Seq<Seq<char>>)
    requires
        storable_object(object),
    ensures
        read_blocks(database, object.lines() + seq![Seq::<char>::empty()] + tail) == read_blocks(
            database.add_object(object),
            tail,
        ),
{
    let blank = Seq::<char>::empty();
    let lines = object.lines() + seq![blank] + tail;
    let start = object_line(object.name);
    let fields = field_lines(object.entries);
    let rest = lines.drop_first();
    let after = seq![end_line()] + seq![blank] + tail;
    assert(lines[0] == start);
    assert(rest == fields + after);
    assert(start[6] == ' ');
    assert forall|j: int| 0 <= j < 6 implies start[j] != ' ' by {
        let label = seq!['o', 'b', 'j', 'e', 'c', 't', ' '];
        assert(start[j] == label[j]);
    }
    lemma_position_first(start, ' ', 6);
    assert(start.skip(7) == object.name);
    lemma_field_lines_read(object.name, object.entries);
    lemma_block_of_concat(fields, after);
    assert(after[0] == end_line());
    lemma_position_first(after, end_line(), 0);
    assert(after.take(0) == Seq::<Seq<char>>::empty());
    assert(fields + after.take(0) == fields);
    let next = seq![blank] + tail;
    assert(after.skip(1) == next);
    assert(block_body(rest) == fields);
    assert(block_rest(rest) == next);
    assert(next[0] == blank);
    assert(next.drop_first() == tail);
    lemma_position_none(blank, ' ');
    assert(read_blocks(database.add_object(object), next) == read_blocks(
        database.add_object(object),
        tail,
    ));
}

/// The blocks of storable objects read as those objects, added in order.
pub proof fn lemma_blocks_read(
    database: DatabaseView,
    objects: Seq<ObjectView>,
    tail: Seq<Seq<char>>,
)
    requires
        forall|i: int| 0 <= i < objects.len() ==> storable_object(#[trigger] objects[i]),
    ensures
        read_blocks(database, block_lines(objects) + tail) == read_blocks(
            add_objects(database, objects),
            tail,
        ),
    decreases objects.len(),
{
    if objects.len() == 0 {
        assert(block_lines(objects) + tail == tail);
    } else {
        let first = objects.drop_last();
        let last = objects.last();
        let blank = Seq::<char>::empty();
        let next = last.lines() + seq![blank] + tail;
        assert(block_lines(objects) + tail == block_lines(first) + next);
        assert forall|i: int| 0 <= i < first.len() implies storable_object(#[trigger] first[i]) by {
            assert(first[i] == objects[i]);
        }
        lemma_blocks_read(database, first, next);
        lemma_block_read(add_objects(database, first), last, tail);
    }
}

/// Objects of different names that are added to a database without objects are the
/// objects of that database, in order.
pub proof fn lemma_add_objects_to_none(path: Seq<char>, objects: Seq<ObjectView>)
    requires
        distinct((DatabaseView { path, objects }).names()),
    ensures
        add_objects(DatabaseView::new(path), objects) == (DatabaseView { path, objects }),
    decreases objects.len(),
{
    let whole = DatabaseView { path, objects };
    if objects.len() == 0 {
        assert(objects == Seq::<ObjectView>::empty());
    } else {
        let first = objects.drop_last();
        let last = objects.last();
        let part = DatabaseView { path, objects: first };
        assert forall|a: int, b: int| 0 <= a < b < part.names().len() implies part.names()[a]
            != part.names()[b] by {
            assert(part.names()[a] == whole.names()[a]);
            assert(part.names()[b] == whole.names()[b]);
        }
        lemma_add_objects_to_none(path, first);
        assert forall|j: int| 0 <= j < part.names().len() implies part.names()[j] != last.name by {
            assert(part.names()[j] == whole.names()[j]);
            assert(last.name == whole.names()[objects.len() - 1]);
        }
        lemma_position_none(part.names(), last.name);
        assert(first.push(last) == objects);
    }
}

/// Every line of the blocks of storable objects is a plain line.
pub proof fn lemma_block_lines_plain(objects: Seq<ObjectView>)
    requires
        forall|i: int| 0 <= i < objects.len() ==> storable_object(#[trigger] objects[i]),
    ensures
        forall|i: int|
            0 <= i < block_lines(objects).len() ==> plain(#[trigger] block_lines(objects)[i]),
    decreases objects.len(),
{
    if objects.len() > 0 {
        let first = objects.drop_last();
        let last = objects.last();
        let lines = block_lines(objects);
        assert forall|i: int| 0 <= i < first.len() implies storable_object(#[trigger] first[i]) by {
            assert(first[i] == objects[i]);
        }
        lemma_block_lines_plain(first);
        let before = block_lines(first).len() as int;
        let fields = field_lines(last.entries);
        let start = object_line(last.name);
        assert(plain(start)) by {
            assert forall|j: int| 0 <= j < start.len() implies start[j] != '\n' by {
                if j >= 7 {
                    assert(start[j] == last.name[j - 7]);
                }
            }
            if last.name.len() > 0 {
                assert(start.last() == last.name.last());
            } else {
                assert(start.last() == ' ');
            }
        }
        assert(plain(end_line()));
        assert(plain(Seq::<char>::empty()));
        assert forall|i: int| 0 <= i < lines.len() implies plain(#[trigger] lines[i]) by {
            if i < before {
                assert(lines[i] == block_lines(first)[i]);
            } else if i == before {
                assert(lines[i] == start);
            } else if i < before + 1 + fields.len() {
                let k = i - before - 1;
                assert(lines[i] == fields[k]);
                assert(storable_field(last.entries[k]));
                lemma_field_line_read(last, last.entries[k]);
            } else if i == before + 1 + fields.len() {
                assert(lines[i] == end_line());
            } else {
                assert(lines[i] == Seq::<char>::empty());
            }
        }
    }
}

/// A storable database that is written out and loaded comes back: loading the text
/// adds its objects, in order, and ends without an error.
pub proof fn lemma_load_render(base: DatabaseView, database: DatabaseView)
    requires
        storable(database),
    ensures
        load_text(base, database.render()) == (Loaded {
            database: add_objects(base, database.objects),
            error: None,
        }),
{
    let lines = database.lines();
    let blocks = block_lines(database.objects);
    lemma_block_lines_plain(database.objects);
    assert(plain(header_line()));
    assert forall|i: int| 0 <= i < lines.len() implies plain(#[trigger] lines[i]) by {
        if i > 0 {
            assert(lines[i] == blocks[i - 1]);
        }
    }
    lemma_lines_of_unlines(lines);
    assert(lines.drop_first() == blocks);
    assert(body_lines(database.render()) == blocks);
    lemma_blocks_read(base, database.objects, Seq::empty());
    assert(blocks + Seq::<Seq<char>>::empty() == blocks);
}

/// A storable database that is written out and loaded into a database without
/// objects comes back as it was: the same objects with the same fields, in the same
/// order.
pub proof fn lemma_load_render_into_none(path: Seq<char>, database: DatabaseView)
    requires
        storable(database),
    ensures
        load_text(DatabaseView::new(path), database.render()) == (Loaded {
            database: DatabaseView { path, objects: database.objects },
            error: None,
        }),
{
    lemma_load_render(DatabaseView::new(path), database);
    assert((DatabaseView { path, objects: database.objects }).names() == database.names());
    lemma_add_objects_to_none(path, database.objects);
}

} // verus!
