use crate::integer::{all_digits, has_sign, is_digit};
use crate::text::{chars_of, string_of};
use vstd::prelude::*;
use vstd::slice::slice_subrange;

verus! {

/// An ASCII capital letter as its small letter; any other character unchanged.
pub open spec fn lower(c: char) -> char {
    if 'A' <= c && c <= 'Z' {
        (c as int + 32) as char
    } else {
        c
    }
}

/// `s` with each ASCII capital letter as its small letter.
pub open spec fn lowered(s: Seq<char>) -> Seq<char> {
    Seq::new(s.len(), |i: int| lower(s[i]))
}

/// `s` without its leading sign, if it has one.
pub open spec fn unsigned(s: Seq<char>) -> Seq<char> {
    if has_sign(s) {
        s.drop_first()
    } else {
        s
    }
}

/// One of the words `inf`, `infinity` and `nan`, in small or capital letters.
pub open spec fn is_special(s: Seq<char>) -> bool {
    ||| lowered(s) == seq!['i', 'n', 'f']
    ||| lowered(s) == seq!['i', 'n', 'f', 'i', 'n', 'i', 't', 'y']
    ||| lowered(s) == seq!['n', 'a', 'n']
}

/// Digits with at most one point among them, and at least one digit.
pub open spec fn is_mantissa(m: Seq<char>) -> bool {
    ||| m.len() > 0 && all_digits(m)
    ||| exists|dot: int|
        0 <= dot < m.len() && #[trigger] m[dot] == '.' && m.len() > 1 && all_digits(m.take(dot))
            && all_digits(m.skip(dot + 1))
}

/// The letter `e`, small or capital, an optional sign, and one or more digits.
pub open spec fn is_exponent(e: Seq<char>) -> bool {
    &&& e.len() > 0
    &&& lower(e[0]) == 'e'
    &&& unsigned(e.drop_first()).len() > 0
    &&& all_digits(unsigned(e.drop_first()))
}

/// A mantissa, followed by an exponent or by nothing.
pub open spec fn is_number(s: Seq<char>) -> bool {
    exists|m: int|
        0 <= m <= s.len() && is_mantissa(#[trigger] s.take(m)) && (m == s.len() || is_exponent(
            s.skip(m),
        ))
}

/// The decimal texts that denote a 32-bit float: an optional sign, then a number or
/// one of the words for an infinity or for not-a-number.
pub open spec fn is_float_text(s: Seq<char>) -> bool {
    is_special(unsigned(s)) || is_number(unsigned(s))
}

/// The text of a 32-bit float, as it stands in an encoded value.
///
/// The library checks that the text denotes a float and keeps it character for
/// character; it never computes with the number. Two texts are equal when they hold
/// the same characters.
#[derive(Debug, PartialEq, Eq)]
pub struct FloatText {
    text: String,
}

fn to_lower(c: char) -> (l: char)
    ensures
        l == lower(c),
{
    if c >= 'A' && c <= 'Z' {
        ((c as u8) + 32u8) as char
    } else {
        c
    }
}

fn is_digit_char(c: char) -> (b: bool)
    ensures
        b == is_digit(c),
{
    c >= '0' && c <= '9'
}

fn recognize_special(chars: &[char]) -> (b: bool)
    ensures
        b == is_special(chars@),
{
    let n = chars.len();
    let ghost l = lowered(chars@);
    let ghost inf_word = seq!['i', 'n', 'f'];
    let ghost nan_word = seq!['n', 'a', 'n'];
    let ghost infinity_word = seq!['i', 'n', 'f', 'i', 'n', 'i', 't', 'y'];
    assert(inf_word.len() == 3 && nan_word.len() == 3 && infinity_word.len() == 8);
    if n == 3 {
        let c0 = to_lower(chars[0]);
        let c1 = to_lower(chars[1]);
        let c2 = to_lower(chars[2]);
        assert(l[0] == c0 && l[1] == c1 && l[2] == c2);
        assert(inf_word[0] == 'i' && inf_word[1] == 'n' && inf_word[2] == 'f');
        assert(nan_word[0] == 'n' && nan_word[1] == 'a' && nan_word[2] == 'n');
        let inf = c0 == 'i' && c1 == 'n' && c2 == 'f';
        let nan = c0 == 'n' && c1 == 'a' && c2 == 'n';
        assert(inf ==> l =~= inf_word);
        assert(nan ==> l =~= nan_word);
        inf || nan
    } else if n == 8 {
        let c0 = to_lower(chars[0]);
        let c1 = to_lower(chars[1]);
        let c2 = to_lower(chars[2]);
        let c3 = to_lower(chars[3]);
        let c4 = to_lower(chars[4]);
        let c5 = to_lower(chars[5]);
        let c6 = to_lower(chars[6]);
        let c7 = to_lower(chars[7]);
        assert(l[0] == c0 && l[1] == c1 && l[2] == c2 && l[3] == c3);
        assert(l[4] == c4 && l[5] == c5 && l[6] == c6 && l[7] == c7);
        assert(infinity_word[0] == 'i' && infinity_word[1] == 'n' && infinity_word[2] == 'f'
            && infinity_word[3] == 'i');
        assert(infinity_word[4] == 'n' && infinity_word[5] == 'i' && infinity_word[6] == 't'
            && infinity_word[7] == 'y');
        let infinity = c0 == 'i' && c1 == 'n' && c2 == 'f' && c3 == 'i' && c4 == 'n' && c5 == 'i'
            && c6 == 't' && c7 == 'y';
        assert(infinity ==> l =~= infinity_word);
        infinity
    } else {
        false
    }
}

/// The end of the run of digits that starts at `from`.
fn scan_digits(chars: &[char], from: usize) -> (end: usize)
    requires
        from <= chars@.len(),
    ensures
        from <= end <= chars@.len(),
        all_digits(chars@.subrange(from as int, end as int)),
        end == chars@.len() || !is_digit(chars@[end as int]),
{
    let mut end = from;
    while end < chars.len() && is_digit_char(chars[end])
        invariant
            from <= end <= chars@.len(),
            all_digits(chars@.subrange(from as int, end as int)),
        decreases chars@.len() - end,
    {
        proof {
            let before = chars@.subrange(from as int, end as int);
            let after = chars@.subrange(from as int, end + 1);
            assert forall|k: int| 0 <= k < after.len() implies is_digit(#[trigger] after[k]) by {
                if k < before.len() {
                    assert(after[k] == before[k]);
                }
            }
        }
        end += 1;
    }
    end
}

fn recognize_exponent(chars: &[char]) -> (b: bool)
    ensures
        b == is_exponent(chars@),
{
    let n = chars.len();
    if n == 0 || to_lower(chars[0]) != 'e' {
        return false;
    }
    let ghost tail = chars@.drop_first();
    let start: usize = if n > 1 && (chars[1] == '+' || chars[1] == '-') {
        2
    } else {
        1
    };
    assert(has_sign(tail) == (start == 2));
    assert(unsigned(tail) == chars@.subrange(start as int, n as int));
    if start == n {
        return false;
    }
    let end = scan_digits(chars, start);
    if end < n {
        assert(unsigned(tail)[end - start] == chars@[end as int]);
    }
    end == n
}

fn recognize_number(chars: &[char]) -> (b: bool)
    ensures
        b == is_number(chars@),
{
    let n = chars.len();
    let ghost s = chars@;
    let whole = scan_digits(chars, 0);
    let pointed = whole < n && chars[whole] == '.';
    let end = if pointed {
        scan_digits(chars, whole + 1)
    } else {
        whole
    };
    let digits = if pointed {
        end - 1
    } else {
        end
    };
    let tail = slice_subrange(chars, end, n);
    let exponent = end == n || recognize_exponent(tail);
    let accepted = digits > 0 && exponent;
    proof {
        let mantissa = s.take(end as int);
        if pointed {
            assert(mantissa[whole as int] == '.');
            assert(mantissa.take(whole as int) == s.subrange(0, whole as int));
            assert(mantissa.skip(whole + 1) == s.subrange(whole + 1, end as int));
        } else {
            assert(mantissa == s.subrange(0, whole as int));
        }
        if accepted {
            assert(is_mantissa(mantissa));
            assert(s.skip(end as int) == s.subrange(end as int, n as int));
        }
        if is_number(s) {
            let m = choose|m: int|
                0 <= m <= s.len() && is_mantissa(#[trigger] s.take(m)) && (m == s.len()
                    || is_exponent(s.skip(m)));
            let taken = s.take(m);
            if m < s.len() {
                assert(s.skip(m)[0] == s[m]);
                assert(!is_digit(s[m]) && s[m] != '.');
            }
            if taken.len() > 0 && all_digits(taken) {
                lemma_run_end(s, 0, whole as int, m);
                assert(m == end);
            } else {
                let dot = choose|dot: int|
                    0 <= dot < taken.len() && #[trigger] taken[dot] == '.' && taken.len() > 1
                        && all_digits(taken.take(dot)) && all_digits(taken.skip(dot + 1));
                assert(taken.take(dot) == s.subrange(0, dot));
                assert(taken.skip(dot + 1) == s.subrange(dot + 1, m));
                assert(s[dot] == taken[dot]);
                lemma_run_end(s, 0, whole as int, dot);
                lemma_run_end(s, dot + 1, end as int, m);
                assert(m == end);
            }
            assert(s.skip(end as int) == s.subrange(end as int, n as int));
            assert(accepted);
        }
    }
    accepted
}

/// A run of digits that cannot go on has one end only.
proof fn lemma_run_end(s: Seq<char>, from: int, a: int, b: int)
    requires
        0 <= from <= a <= s.len(),
        from <= b <= s.len(),
        all_digits(s.subrange(from, a)),
        all_digits(s.subrange(from, b)),
        a == s.len() || !is_digit(s[a]),
        b == s.len() || !is_digit(s[b]),
    ensures
        a == b,
{
    if a < b {
        assert(s.subrange(from, b)[a - from] == s[a]);
    } else if b < a {
        assert(s.subrange(from, a)[b - from] == s[b]);
    }
}

fn recognize(chars: &[char]) -> (b: bool)
    ensures
        b == is_float_text(chars@),
{
    let n = chars.len();
    let start: usize = if n > 0 && (chars[0] == '+' || chars[0] == '-') {
        1
    } else {
        0
    };
    let body = slice_subrange(chars, start, n);
    assert(body@ == unsigned(chars@));
    recognize_special(body) || recognize_number(body)
}

impl Clone for FloatText {
    fn clone(&self) -> (copy: FloatText)
        ensures
            copy@ == self@,
    {
        proof {
            use_type_invariant(self);
        }
        FloatText { text: self.text.clone() }
    }
}

impl FloatText {
    #[verifier::type_invariant]
    spec fn well_formed(self) -> bool {
        is_float_text(self.text@)
    }

    /// The characters of the text.
    pub closed spec fn view(&self) -> Seq<char> {
        self.text@
    }

    /// Keeps `chars` if they denote a float.
    pub fn from_chars(chars: &[char]) -> (float: Option<FloatText>)
        ensures
            match float {
                Some(f) => f@ == chars@ && is_float_text(chars@),
                None => !is_float_text(chars@),
            },
    {
        if recognize(chars) {
            Some(FloatText { text: string_of(chars) })
        } else {
            None
        }
    }

    /// Keeps `text` if it denotes a float.
    pub fn parse(text: &str) -> (float: Option<FloatText>)
        ensures
            match float {
                Some(f) => f@ == text@ && is_float_text(text@),
                None => !is_float_text(text@),
            },
    {
        let chars = chars_of(text);
        FloatText::from_chars(chars.as_slice())
    }

    /// The text, which denotes a float.
    pub fn as_str(&self) -> (text: &str)
        ensures
            text@ == self@,
            is_float_text(text@),
    {
        proof {
            use_type_invariant(self);
        }
        self.text.as_str()
    }
}

} // verus!
