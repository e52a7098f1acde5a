use crate::search::{lacks, lemma_position, lemma_position_first, position};
use crate::text::find;
use vstd::prelude::*;
use vstd::slice::{slice_subrange, slice_to_vec};

verus! {

/// `line` without its last character, if that is a carriage return.
pub open spec fn strip_cr(line: Seq<char>) -> Seq<char> {
    if line.len() > 0 && line.last() == '\r' {
        line.drop_last()
    } else {
        line
    }
}

/// The lines of a text.
///
/// A line ends at a line feed, which is no part of it; a carriage return just before
/// that line feed is no part of it either. What follows the last line feed is a line
/// of its own unless it is empty.
pub open spec fn lines_of(text: Seq<char>) -> Seq<Seq<char>>
    decreases text.len(),
{
    if text.len() == 0 {
        Seq::empty()
    } else {
        match position(text, '\n') {
            Some(i) => {
                proof {
                    lemma_position(text, '\n');
                }
                seq![strip_cr(text.take(i))] + lines_of(text.skip(i + 1))
            },
            None => seq![text],
        }
    }
}

/// The text made of `lines`, each followed by a line feed.
pub open spec fn unlines(lines: Seq<Seq<char>>) -> Seq<char>
    decreases lines.len(),
{
    if lines.len() == 0 {
        Seq::empty()
    } else {
        unlines(lines.drop_last()) + lines.last() + seq!['\n']
    }
}

/// A line that comes back as it is when it is written out and read again: it holds
/// no line feed and does not end in a carriage return.
pub open spec fn plain(line: Seq<char>) -> bool {
    lacks(line, '\n') && strip_cr(line) == line
}

/// The lines that a list of stored lines stands for.
pub open spec fn line_views(lines: Seq<Vec<char>>) -> Seq<Seq<char>> {
    Seq::new(lines.len(), |i: int| lines[i]@)
}

/// The text of two lists of lines, one after the other, is the text of the first
/// followed by the text of the second.
pub proof fn lemma_unlines_concat(a: Seq<Seq<char>>, b: Seq<Seq<char>>)
    ensures
        unlines(a + b) == unlines(a) + unlines(b),
    decreases b.len(),
{
    if b.len() == 0 {
        assert(a + b == a);
        assert(unlines(a) + unlines(b) == unlines(a));
    } else {
        lemma_unlines_concat(a, b.drop_last());
        assert((a + b).drop_last() == a + b.drop_last());
        assert((a + b).last() == b.last());
        assert(unlines(a + b) == unlines(a) + unlines(b));
    }
}

/// A text that starts with a line and its line feed has that line, without a carriage
/// return at its end, as its first line, and the lines of the rest after it.
pub proof fn lemma_lines_of_first(line: Seq<char>, rest: Seq<char>)
    requires
        lacks(line, '\n'),
    ensures
        lines_of(line + seq!['\n'] + rest) == seq![strip_cr(line)] + lines_of(rest),
{
    let text = line + seq!['\n'] + rest;
    let i = line.len() as int;
    assert(text[i] == '\n');
    assert forall|j: int| 0 <= j < i implies text[j] != '\n' by {
        assert(text[j] == line[j]);
    }
    lemma_position_first(text, '\n', i);
    assert(text.take(i) == line);
    assert(text.skip(i + 1) == rest);
}

/// Lines that are written out and read again come back as they were.
pub proof fn lemma_lines_of_unlines(lines: Seq<Seq<char>>)
    requires
        forall|i: int| 0 <= i < lines.len() ==> plain(#[trigger] lines[i]),
    ensures
        lines_of(unlines(lines)) == lines,
    decreases lines.len(),
{
    if lines.len() == 0 {
    } else {
        let first = lines[0];
        let rest = lines.drop_first();
        assert(lines == seq![first] + rest);
        lemma_unlines_concat(seq![first], rest);
        assert(seq![first].drop_last() == Seq::<Seq<char>>::empty());
        assert(unlines(seq![first]) == first + seq!['\n']) by {
            assert(unlines(seq![first].drop_last()) == Seq::<char>::empty());
            assert(Seq::<char>::empty() + first == first);
        }
        assert forall|i: int| 0 <= i < rest.len() implies plain(#[trigger] rest[i]) by {
            assert(rest[i] == lines[i + 1]);
        }
        lemma_lines_of_unlines(rest);
        lemma_lines_of_first(first, unlines(rest));
        assert(plain(first));
    }
}

/// Cuts a text into its lines.
pub fn split_lines(chars: &[char]) -> (lines: Vec<Vec<char>>)
    ensures
        line_views(lines@) == lines_of(chars@),
{
    let n = chars.len();
    let mut lines: Vec<Vec<char>> = Vec::new();
    let mut start: usize = 0;
    assert(chars@.skip(0) == chars@);
    assert(line_views(lines@) == Seq::<Seq<char>>::empty());
    while start < n
        invariant
            start <= n,
            n == chars@.len(),
            lines_of(chars@) == line_views(lines@) + lines_of(chars@.skip(start as int)),
        decreases n - start,
    {
        let ghost done = line_views(lines@);
        let rest = slice_subrange(chars, start, n);
        assert(rest@ == chars@.skip(start as int));
        match find(rest, '\n') {
            Some(k) => {
                proof {
                    lemma_position(rest@, '\n');
                }
                let end = if k > 0 && rest[k - 1] == '\r' {
                    k - 1
                } else {
                    k
                };
                let line = slice_to_vec(slice_subrange(rest, 0, end));
                assert(line@ == strip_cr(rest@.take(k as int)));
                lines.push(line);
                assert(line_views(lines@) == done.push(line@));
                assert(rest@.skip(k + 1) == chars@.skip(start + k + 1));
                start = start + k + 1;
            },
            None => {
                let line = slice_to_vec(rest);
                lines.push(line);
                assert(line_views(lines@) == done.push(line@));
                start = n;
                assert(chars@.skip(n as int).len() == 0);
            },
        }
    }
    assert(chars@.skip(n as int).len() == 0);
    lines
}

} // verus!
