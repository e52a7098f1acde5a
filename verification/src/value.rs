use crate::float_text::{is_float_text, FloatText};
use crate::integer::{i32_value, integer_text, lemma_integer_text_value, parse_i32, push_i32};
use crate::text::{chars_of, string_of};
use vstd::prelude::*;
use vstd::slice::slice_subrange;
use vstd::std_specs::convert::TryFromSpecImpl;
use vstd::string::StringExecFns;

verus! {

/// Why an encoded value could not be decoded.
#[derive(Debug, Clone, Copy, PartialEq, Eq)]
pub enum ValueParseError {
    /// The tag is none of `s`, `i`, `f` and `b`.
    InvalidType,
    /// The colon after the tag is missing, or the payload does not denote a value of
    /// the tagged kind.
    InvalidValue,
    /// The encoded text is empty.
    ValueIsEmpty,
}

/// A typed scalar: a string, a 32-bit signed integer, a 32-bit float or a boolean.
#[derive(Debug, PartialEq)]
pub enum Value {
    Str(String),
    Int(i32),
    Float(FloatText),
    Bool(bool),
}

/// A value as the contracts speak of it: texts as sequences of characters.
pub ghost enum ValueView {
    Str(Seq<char>),
    Int(i32),
    Float(Seq<char>),
    Bool(bool),
}

impl View for Value {
    type V = ValueView;

    open spec fn view(&self) -> ValueView {
        match self {
            Value::Str(text) => ValueView::Str(text@),
            Value::Int(number) => ValueView::Int(*number),
            Value::Float(float) => ValueView::Float(float@),
            Value::Bool(truth) => ValueView::Bool(*truth),
        }
    }
}

/// The text of a boolean.
pub open spec fn bool_text(truth: bool) -> Seq<char> {
    if truth {
        seq!['t', 'r', 'u', 'e']
    } else {
        seq!['f', 'a', 'l', 's', 'e']
    }
}

/// The boolean that `s` denotes: exactly `true` or `false`.
pub open spec fn bool_value(s: Seq<char>) -> Option<bool> {
    if s == bool_text(true) {
        Some(true)
    } else if s == bool_text(false) {
        Some(false)
    } else {
        None
    }
}

impl ValueView {
    /// A float holds a text that denotes a float; the other kinds hold anything.
    pub open spec fn valid(self) -> bool {
        self matches ValueView::Float(text) ==> is_float_text(text)
    }

    /// The one-character tag of the value's kind.
    pub open spec fn tag(self) -> char {
        match self {
            ValueView::Str(_) => 's',
            ValueView::Int(_) => 'i',
            ValueView::Float(_) => 'f',
            ValueView::Bool(_) => 'b',
        }
    }

    /// The text of the value, without its tag.
    pub open spec fn payload(self) -> Seq<char> {
        match self {
            ValueView::Str(text) => text,
            ValueView::Int(number) => integer_text(number as int),
            ValueView::Float(text) => text,
            ValueView::Bool(truth) => bool_text(truth),
        }
    }

    /// The encoded value: its tag, a colon, its payload.
    pub open spec fn encode(self) -> Seq<char> {
        seq![self.tag(), ':'] + self.payload()
    }

    /// What an encoded text decodes to.
    ///
    /// The empty text is `ValueIsEmpty`. A text without a colon as its second character
    /// is `InvalidValue`. Otherwise the first character is the tag and what follows the
    /// colon is the payload: an unknown tag is `InvalidType`, and a payload that does
    /// not denote a value of the tagged kind is `InvalidValue`.
    pub open spec fn decode(text: Seq<char>) -> Result<ValueView, ValueParseError> {
        if text.len() == 0 {
            Err(ValueParseError::ValueIsEmpty)
        } else if text.len() < 2 || text[1] != ':' {
            Err(ValueParseError::InvalidValue)
        } else if text[0] == 's' {
            Ok(ValueView::Str(text.skip(2)))
        } else if text[0] == 'i' {
            match i32_value(text.skip(2)) {
                Some(number) => Ok(ValueView::Int(number)),
                None => Err(ValueParseError::InvalidValue),
            }
        } else if text[0] == 'f' {
            if is_float_text(text.skip(2)) {
                Ok(ValueView::Float(text.skip(2)))
            } else {
                Err(ValueParseError::InvalidValue)
            }
        } else if text[0] == 'b' {
            match bool_value(text.skip(2)) {
                Some(truth) => Ok(ValueView::Bool(truth)),
                None => Err(ValueParseError::InvalidValue),
            }
        } else {
            Err(ValueParseError::InvalidType)
        }
    }
}

/// The outcome of decoding, as the contracts speak of it.
pub open spec fn outcome_view(outcome: Result<Value, ValueParseError>) -> Result<
    ValueView,
    ValueParseError,
> {
    match outcome {
        Ok(value) => Ok(value@),
        Err(error) => Err(error),
    }
}

/// Decoding the encoding of a value gives the value back.
pub proof fn lemma_decode_encode(value: ValueView)
    requires
        value.valid(),
    ensures
        ValueView::decode(value.encode()) == Ok::<ValueView, ValueParseError>(value),
{
    let text = value.encode();
    assert(text.skip(2) == value.payload());
    assert(text[0] == value.tag() && text[1] == ':');
    match value {
        ValueView::Int(number) => {
            lemma_integer_text_value(number as int);
        },
        ValueView::Bool(truth) => {
            assert(bool_text(true).len() != bool_text(false).len());
        },
        _ => {},
    }
}

fn parse_bool(chars: &[char]) -> (truth: Option<bool>)
    ensures
        truth == bool_value(chars@),
{
    let n = chars.len();
    let ghost yes = bool_text(true);
    let ghost no = bool_text(false);
    assert(yes.len() == 4 && no.len() == 5);
    assert(yes[0] == 't' && yes[1] == 'r' && yes[2] == 'u' && yes[3] == 'e');
    assert(no[0] == 'f' && no[1] == 'a' && no[2] == 'l' && no[3] == 's' && no[4] == 'e');
    if n == 4 && chars[0] == 't' && chars[1] == 'r' && chars[2] == 'u' && chars[3] == 'e' {
        assert(chars@ =~= yes);
        Some(true)
    } else if n == 5 && chars[0] == 'f' && chars[1] == 'a' && chars[2] == 'l' && chars[3] == 's'
        && chars[4] == 'e' {
        assert(chars@ =~= no);
        Some(false)
    } else {
        None
    }
}

impl Value {
    /// Decodes the characters of an encoded value.
    pub fn decode(chars: &[char]) -> (outcome: Result<Value, ValueParseError>)
        ensures
            outcome_view(outcome) == ValueView::decode(chars@),
    {
        let n = chars.len();
        if n == 0 {
            return Err(ValueParseError::ValueIsEmpty);
        }
        if n < 2 || chars[1] != ':' {
            return Err(ValueParseError::InvalidValue);
        }
        let tag = chars[0];
        let payload = slice_subrange(chars, 2, n);
        assert(payload@ == chars@.skip(2));
        if tag == 's' {
            Ok(Value::Str(string_of(payload)))
        } else if tag == 'i' {
            match parse_i32(payload) {
                Some(number) => Ok(Value::Int(number)),
                None => Err(ValueParseError::InvalidValue),
            }
        } else if tag == 'f' {
            match FloatText::from_chars(payload) {
                Some(float) => Ok(Value::Float(float)),
                None => Err(ValueParseError::InvalidValue),
            }
        } else if tag == 'b' {
            match parse_bool(payload) {
                Some(truth) => Ok(Value::Bool(truth)),
                None => Err(ValueParseError::InvalidValue),
            }
        } else {
            Err(ValueParseError::InvalidType)
        }
    }

    /// Decodes an encoded value.
    pub fn parse(text: &str) -> (outcome: Result<Value, ValueParseError>)
        ensures
            outcome_view(outcome) == ValueView::decode(text@),
    {
        let chars = chars_of(text);
        Value::decode(chars.as_slice())
    }

    /// Appends the encoded value to `out`.
    pub fn encode_into(&self, out: &mut String)
        ensures
            final(out)@ == old(out)@ + self@.encode(),
    {
        let ghost before = out@;
        match self {
            Value::Str(text) => {
                out.push('s');
                out.push(':');
                out.append(text.as_str());
            },
            Value::Int(number) => {
                out.push('i');
                out.push(':');
                push_i32(out, *number);
            },
            Value::Float(float) => {
                out.push('f');
                out.push(':');
                out.append(float.as_str());
            },
            Value::Bool(truth) => {
                out.push('b');
                out.push(':');
                if *truth {
                    proof {
                        reveal_strlit("true");
                    }
                    out.append("true");
                    assert("true"@ =~= bool_text(true));
                } else {
                    proof {
                        reveal_strlit("false");
                    }
                    out.append("false");
                    assert("false"@ =~= bool_text(false));
                }
            },
        }
        assert(out@ =~= before + self@.encode());
    }

    /// The encoded value: its tag, a colon, its payload.
    pub fn to_string(&self) -> (text: String)
        ensures
            text@ == self@.encode(),
    {
        let mut text = String::new();
        self.encode_into(&mut text);
        text
    }
}

impl TryFrom<&str> for Value {
    type Error = ValueParseError;

    /// Decodes an encoded value.
    fn try_from(text: &str) -> (outcome: Result<Value, ValueParseError>)
        ensures
            outcome_view(outcome) == ValueView::decode(text@),
    {
        Value::parse(text)
    }
}

/// `try_from` states what it returns in its own `ensures`, over the views of its
/// argument and its result; it makes no use of `try_from_spec`.
impl TryFromSpecImpl<&str> for Value {
    open spec fn obeys_try_from_spec() -> bool {
        false
    }

    open spec fn try_from_spec(text: &str) -> Result<Value, ValueParseError> {
        arbitrary()
    }
}

} // verus!
