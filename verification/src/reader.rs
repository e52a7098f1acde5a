use crate::database::{Database, DatabaseLoadError, DatabaseView};
use crate::lines::{
    lemma_lines_of_first, lemma_lines_of_unlines, line_views, lines_of, plain, split_lines,
    strip_cr, unlines,
};
use crate::object::{end_line, Object, ObjectView};
use crate::search::{
    lacks, lemma_position, lemma_position_first, lemma_position_none, position,
};
use crate::text::{chars_of, find, split_once, string_of};
use crate::value::{Value, ValueParseError, ValueView};
use vstd::prelude::*;
use vstd::slice::slice_subrange;

verus! {

/// `line` without its first two characters, which are taken to be its indentation; a
/// line of fewer than two characters leaves nothing.
pub open spec fn strip_indent(line: Seq<char>) -> Seq<char> {
    if line.len() >= 2 {
        line.skip(2)
    } else {
        Seq::empty()
    }
}

/// `object` after one line of its block was read.
///
/// The line without its indentation is cut at its first equals sign into the name of
/// a field and an encoded value, and the field is set to the decoded value. A line
/// without an equals sign changes nothing. A value that cannot be decoded is an error.
pub open spec fn with_field(object: ObjectView, line: Seq<char>) -> Result<
    ObjectView,
    ValueParseError,
> {
    match split_once(strip_indent(line), '=') {
        Some((field, encoded)) => match ValueView::decode(encoded) {
            Ok(value) => Ok(object.add(field, value)),
            Err(error) => Err(error),
        },
        None => Ok(object),
    }
}

/// `object` after the lines of its block were read in order, or the first error.
pub open spec fn with_fields(object: ObjectView, lines: Seq<Seq<char>>) -> Result<
    ObjectView,
    ValueParseError,
>
    decreases lines.len(),
{
    if lines.len() == 0 {
        Ok(object)
    } else {
        match with_fields(object, lines.drop_last()) {
            Ok(read) => with_field(read, lines.last()),
            Err(error) => Err(error),
        }
    }
}

/// The lines of the block that starts before `rest`: those before the first line
/// that is the word `end`, or all of them where there is no such line.
pub open spec fn block_body(rest: Seq<Seq<char>>) -> Seq<Seq<char>> {
    match position(rest, end_line()) {
        Some(i) => rest.take(i),
        None => rest,
    }
}

/// The lines that follow the block that starts before `rest`.
pub open spec fn block_rest(rest: Seq<Seq<char>>) -> Seq<Seq<char>> {
    match position(rest, end_line()) {
        Some(i) => rest.skip(i + 1),
        None => Seq::empty(),
    }
}

/// What reading has come to: the database with the objects that were read, and the
/// error that ended the reading, if one did.
pub ghost struct Loaded {
    pub database: DatabaseView,
    pub error: Option<ValueParseError>,
}

/// `database` after the blocks in `lines` were read in order.
///
/// A line with a space in it starts a block, and what follows its first space is the
/// name of the object. The block goes on to the next line that is the word `end`, or
/// to the last line. The object is put into the database when its block was read. A
/// line without a space outside a block is passed over. The first value that cannot be
/// decoded ends the reading: the objects of the blocks before it are in the database,
/// the object of its own block is not.
pub open spec fn read_blocks(database: DatabaseView, lines: Seq<Seq<char>>) -> Loaded
    decreases lines.len(),
{
    if lines.len() == 0 {
        Loaded { database, error: None }
    } else {
        let rest = lines.drop_first();
        match split_once(lines[0], ' ') {
            Some((_, name)) => match with_fields(ObjectView::new(name), block_body(rest)) {
                Ok(object) => {
                    proof {
                        lemma_position(rest, end_line());
                    }
                    read_blocks(database.add_object(object), block_rest(rest))
                },
                Err(error) => Loaded { database, error: Some(error) },
            },
            None => read_blocks(database, rest),
        }
    }
}

/// The lines of a text after its first line.
pub open spec fn body_lines(text: Seq<char>) -> Seq<Seq<char>> {
    if lines_of(text).len() > 0 {
        lines_of(text).drop_first()
    } else {
        Seq::empty()
    }
}

/// `database` after the text of a backing file was loaded into it: the first line
/// is passed over, whatever it holds, and the blocks in the other lines are read.
pub open spec fn load_text(database: DatabaseView, text: Seq<char>) -> Loaded {
    read_blocks(database, body_lines(text))
}

/// An error among the first lines of a block is the error of the block.
pub proof fn lemma_with_fields_error(object: ObjectView, lines: Seq<Seq<char>>, m: int)
    requires
        0 <= m <= lines.len(),
        with_fields(object, lines.take(m)) is Err,
    ensures
        with_fields(object, lines) == with_fields(object, lines.take(m)),
    decreases lines.len(),
{
    if m == lines.len() {
        assert(lines.take(m) == lines);
    } else {
        assert(lines.drop_last().take(m) == lines.take(m));
        lemma_with_fields_error(object, lines.drop_last(), m);
    }
}

/// The first line of a backing file does not matter: the text loads as its other
/// lines say, whatever the first line holds.
pub proof fn lemma_first_line_is_passed_over(
    database: DatabaseView,
    first: Seq<char>,
    other: Seq<char>,
    rest: Seq<char>,
)
    requires
        lacks(first, '\n'),
        lacks(other, '\n'),
    ensures
        load_text(database, first + seq!['\n'] + rest) == read_blocks(database, lines_of(rest)),
        load_text(database, first + seq!['\n'] + rest) == load_text(
            database,
            other + seq!['\n'] + rest,
        ),
{
    lemma_lines_of_first(first, rest);
    lemma_lines_of_first(other, rest);
    assert((seq![strip_cr(first)] + lines_of(rest)).drop_first() == lines_of(rest));
    assert((seq![strip_cr(other)] + lines_of(rest)).drop_first() == lines_of(rest));
}

/// A line of a block that has no equals sign after its indentation sets no field and
/// is no error.
pub proof fn lemma_line_without_equals(object: ObjectView, line: Seq<char>)
    requires
        lacks(strip_indent(line), '='),
    ensures
        with_field(object, line) == Ok::<ObjectView, ValueParseError>(object),
{
    lemma_position_none(strip_indent(line), '=');
}

/// A block reads the same with and without a line that has no equals sign after its
/// indentation.
pub proof fn lemma_fields_without_equals(
    object: ObjectView,
    before: Seq<Seq<char>>,
    line: Seq<char>,
    after: Seq<Seq<char>>,
)
    requires
        lacks(strip_indent(line), '='),
    ensures
        with_fields(object, before + seq![line] + after) == with_fields(object, before + after),
    decreases after.len(),
{
    let with = before + seq![line] + after;
    let without = before + after;
    if after.len() == 0 {
        assert(with.drop_last() == before);
        assert(with.last() == line);
        assert(without == before);
        match with_fields(object, before) {
            Ok(read) => {
                lemma_line_without_equals(read, line);
            },
            Err(_) => {},
        }
    } else {
        lemma_fields_without_equals(object, before, line, after.drop_last());
        assert(with.drop_last() == before + seq![line] + after.drop_last());
        assert(without.drop_last() == before + after.drop_last());
        assert(with.last() == after.last());
        assert(without.last() == after.last());
    }
}

/// A block whose first lines are known takes them and goes on in the lines after
/// them.
pub proof fn lemma_block_of_concat(body: Seq<Seq<char>>, tail: Seq<Seq<char>>)
    requires
        lacks(body, end_line()),
    ensures
        block_body(body + tail) == body + block_body(tail),
        block_rest(body + tail) == block_rest(tail),
{
    let rest = body + tail;
    let n = body.len() as int;
    lemma_position(tail, end_line());
    match position(tail, end_line()) {
        Some(p) => {
            assert(rest[n + p] == tail[p]);
            assert forall|k: int| 0 <= k < n + p implies rest[k] != end_line() by {
                if k < n {
                    assert(rest[k] == body[k]);
                } else {
                    assert(rest[k] == tail[k - n]);
                }
            }
            lemma_position_first(rest, end_line(), n + p);
            assert(rest.take(n + p) == body + tail.take(p));
            assert(rest.skip(n + p + 1) == tail.skip(p + 1));
        },
        None => {
            assert forall|k: int| 0 <= k < rest.len() implies rest[k] != end_line() by {
                if k < n {
                    assert(rest[k] == body[k]);
                } else {
                    assert(rest[k] == tail[k - n]);
                }
            }
            lemma_position_none(rest, end_line());
        },
    }
}

/// Loading passes over a line of a block that has no equals sign after its
/// indentation: the lines load the same with and without it.
///
/// `start` is the line that starts the block, `before` are lines of the block, `line`
/// is the line without an equals sign, and `after` are the lines that follow it.
pub proof fn lemma_load_without_equals(
    database: DatabaseView,
    start: Seq<char>,
    before: Seq<Seq<char>>,
    line: Seq<char>,
    after: Seq<Seq<char>>,
)
    requires
        split_once(start, ' ') is Some,
        lacks(before, end_line()),
        line != end_line(),
        lacks(strip_indent(line), '='),
    ensures
        read_blocks(database, seq![start] + before + seq![line] + after) == read_blocks(
            database,
            seq![start] + before + after,
        ),
{
    let with = seq![start] + before + seq![line] + after;
    let without = seq![start] + before + after;
    let known = before + seq![line];
    assert(with.drop_first() == known + after);
    assert(without.drop_first() == before + after);
    assert(with[0] == start && without[0] == start);
    let empty = match split_once(start, ' ') {
        Some((_, name)) => ObjectView::new(name),
        None => ObjectView::new(Seq::empty()),
    };
    assert forall|k: int| 0 <= k < known.len() implies known[k] != end_line() by {
        if k < before.len() {
            assert(known[k] == before[k]);
        }
    }
    lemma_block_of_concat(known, after);
    lemma_block_of_concat(before, after);
    assert(known + block_body(after) == before + seq![line] + block_body(after));
    lemma_fields_without_equals(empty, before, line, block_body(after));
}

/// A backing file loads the same with and without a line of a block that has no
/// equals sign after its indentation.
///
/// `header` is the first line of the file, `start` the line that starts the block,
/// `before` are lines of the block, `line` is the line without an equals sign, and
/// `after` are the lines that follow it.
pub proof fn lemma_load_text_without_equals(
    database: DatabaseView,
    header: Seq<char>,
    start: Seq<char>,
    before: Seq<Seq<char>>,
    line: Seq<char>,
    after: Seq<Seq<char>>,
)
    requires
        plain(header),
        plain(start),
        plain(line),
        forall|i: int| 0 <= i < before.len() ==> plain(#[trigger] before[i]),
        forall|i: int| 0 <= i < after.len() ==> plain(#[trigger] after[i]),
        split_once(start, ' ') is Some,
        lacks(before, end_line()),
        line != end_line(),
        lacks(strip_indent(line), '='),
    ensures
        load_text(database, unlines(seq![header, start] + before + seq![line] + after))
            == load_text(database, unlines(seq![header, start] + before + after)),
{
    let with = seq![header, start] + before + seq![line] + after;
    let without = seq![header, start] + before + after;
    assert forall|i: int| 0 <= i < with.len() implies plain(#[trigger] with[i]) by {
        if 2 <= i < 2 + before.len() {
            assert(with[i] == before[i - 2]);
        } else if i > 2 + before.len() {
            assert(with[i] == after[i - 3 - before.len()]);
        }
    }
    assert forall|i: int| 0 <= i < without.len() implies plain(#[trigger] without[i]) by {
        if 2 <= i < 2 + before.len() {
            assert(without[i] == before[i - 2]);
        } else if i >= 2 + before.len() {
            assert(without[i] == after[i - 2 - before.len()]);
        }
    }
    lemma_lines_of_unlines(with);
    lemma_lines_of_unlines(without);
    assert(with.drop_first() == seq![start] + before + seq![line] + after);
    assert(without.drop_first() == seq![start] + before + after);
    lemma_load_without_equals(database, start, before, line, after);
}

fn is_end_line(line: &[char]) -> (b: bool)
    ensures
        b == (line@ == end_line()),
{
    let ghost word = end_line();
    assert(word.len() == 3 && word[0] == 'e' && word[1] == 'n' && word[2] == 'd');
    if line.len() == 3 && line[0] == 'e' && line[1] == 'n' && line[2] == 'd' {
        assert(line@ =~= word);
        true
    } else {
        false
    }
}

/// Reads one line of the block of `object`.
fn read_field(object: Object, line: &[char]) -> (outcome: Result<Object, ValueParseError>)
    ensures
        match outcome {
            Ok(read) => with_field(object@, line@) == Ok::<ObjectView, ValueParseError>(read@),
            Err(error) => with_field(object@, line@) == Err::<ObjectView, ValueParseError>(error),
        },
{
    let n = line.len();
    let from: usize = if n >= 2 {
        2
    } else {
        n
    };
    let text = slice_subrange(line, from, n);
    assert(text@ == strip_indent(line@));
    match find(text, '=') {
        Some(k) => {
            let name = string_of(slice_subrange(text, 0, k));
            let encoded = slice_subrange(text, k + 1, text.len());
            assert(name@ == text@.take(k as int));
            assert(encoded@ == text@.skip(k + 1));
            match Value::decode(encoded) {
                Ok(value) => {
                    let mut read = object;
                    read.add(name.as_str(), value);
                    Ok(read)
                },
                Err(error) => Err(error),
            }
        },
        None => Ok(object),
    }
}

impl Database {
    /// Loads the text of a backing file into the database.
    ///
    /// The objects that the text holds are put into the database beside those that it
    /// has; an object of the same name is replaced. Where the value of a field cannot
    /// be decoded, loading ends with that error, and the objects of the blocks before
    /// it stay in the database.
    #[verifier::loop_isolation(false)]
    #[verifier::rlimit(40)]
    pub fn load(&mut self, contents: &str) -> (outcome: Result<(), DatabaseLoadError>)
        ensures
            final(self)@ == load_text(old(self)@, contents@).database,
            final(self)@.path == old(self)@.path,
            final(self)@.wf(),
            match outcome {
                Ok(_) => load_text(old(self)@, contents@).error is None,
                Err(DatabaseLoadError::ValueError(error)) => load_text(old(self)@, contents@).error
                    == Some(error),
                Err(DatabaseLoadError::IO(_)) => false,
            },
    {
        proof {
            use_type_invariant(&*self);
        }
        let chars = chars_of(contents);
        let lines = split_lines(chars.as_slice());
        let n = lines.len();
        let ghost all = line_views(lines@);
        let ghost start = self@;
        let mut i: usize = if n > 0 {
            1
        } else {
            0
        };
        assert(all.skip(i as int) == body_lines(contents@));
        while i < n
            invariant
                i <= n,
                self@.wf(),
                self@.path == start.path,
                read_blocks(start, body_lines(contents@)) == read_blocks(self@, all.skip(i as int)),
            decreases n - i,
        {
            let line = lines[i].as_slice();
            let ghost rest = all.skip(i + 1);
            assert(all.skip(i as int)[0] == line@);
            assert(all.skip(i as int).drop_first() == rest);
            match find(line, ' ') {
                Some(k) => {
                    let width = line.len();
                    let name = string_of(slice_subrange(line, k + 1, width));
                    assert(name@ == line@.skip(k + 1));
                    let ghost empty = ObjectView::new(name@);
                    let mut object = Object::new(name);
                    let mut j: usize = i + 1;
                    assert(all.subrange(i + 1, j as int) == Seq::<Seq<char>>::empty());
                    while j < n && !is_end_line(lines[j].as_slice())
                        invariant
                            i < j <= n,
                            forall|k: int| i < k < j ==> all[k] != end_line(),
                            with_fields(empty, all.subrange(i + 1, j as int)) == Ok::<
                                ObjectView,
                                ValueParseError,
                            >(object@),
                        decreases n - j,
                    {
                        let ghost read = all.subrange(i + 1, j + 1);
                        assert(read.drop_last() == all.subrange(i + 1, j as int));
                        assert(read.last() == lines[j as int]@);
                        match read_field(object, lines[j].as_slice()) {
                            Ok(next) => {
                                object = next;
                            },
                            Err(error) => {
                                proof {
                                    lemma_position(rest, end_line());
                                    let body = block_body(rest);
                                    let m = j - i;
                                    assert(rest[m - 1] == all[j as int]);
                                    assert forall|k: int| 0 <= k < m implies rest[k]
                                        != end_line() by {
                                        assert(rest[k] == all[i + 1 + k]);
                                    }
                                    assert(body.len() >= m);
                                    assert(body.take(m) == read);
                                    lemma_with_fields_error(empty, body, m);
                                }
                                return Err(DatabaseLoadError::ValueError(error));
                            },
                        }
                        j += 1;
                    }
                    proof {
                        if j < n {
                            assert(rest[j - i - 1] == all[j as int]);
                            assert forall|k: int| 0 <= k < j - i - 1 implies rest[k]
                                != end_line() by {
                                assert(rest[k] == all[i + 1 + k]);
                            }
                            lemma_position_first(rest, end_line(), j - i - 1);
                            assert(block_body(rest) == all.subrange(i + 1, j as int));
                            assert(block_rest(rest) == all.skip(j + 1));
                        } else {
                            assert forall|k: int| 0 <= k < rest.len() implies rest[k]
                                != end_line() by {
                                assert(rest[k] == all[i + 1 + k]);
                            }
                            lemma_position_none(rest, end_line());
                            assert(block_body(rest) == all.subrange(i + 1, j as int));
                            assert(block_rest(rest) == all.skip(n as int));
                        }
                    }
                    self.add_object(object);
                    i = if j < n {
                        j + 1
                    } else {
                        n
                    };
                },
                None => {
                    i += 1;
                },
            }
        }
        assert(all.skip(n as int).len() == 0);
        Ok(())
    }
}

} // verus!
