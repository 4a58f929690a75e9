//! An integer as a JSON value: a number where it fits in `i128`, a string of
//! its digits where it does not.
use vstd::prelude::*;

use crate::integer::{big_text, parse_int, Int, IntView};
use crate::json::{json_view, Json, JsonView};
use crate::text::{
    all_digits, int_decimal, is_digit, lemma_parse_int_decimal, parse_i128, parse_i128_chars,
    push_str, str_chars,
};

verus! {

/// Why a JSON value holds no integer.
#[derive(Debug, Clone, Copy, PartialEq, Eq, Structural)]
pub enum IntJsonError {
    /// A number that is no integer in the range of `i128`.
    NotAnInteger,
    /// An empty string.
    EmptyString,
    /// A string that is no `i128` and not a sign followed by digits.
    InvalidString,
    /// A value that is neither a number nor a string.
    WrongType,
}

impl IntJsonError {
    /// The message that describes this error.
    pub fn message(&self) -> (r: &'static str)
        ensures
            r@ == match self {
                IntJsonError::NotAnInteger => "invalid type: expected an integer or string"@,
                IntJsonError::EmptyString => "empty string"@,
                IntJsonError::InvalidString => "invalid integer string"@,
                IntJsonError::WrongType => "invalid type: expected an integer or string"@,
            },
    {
        match self {
            IntJsonError::NotAnInteger => "invalid type: expected an integer or string",
            IntJsonError::EmptyString => "empty string",
            IntJsonError::InvalidString => "invalid integer string",
            IntJsonError::WrongType => "invalid type: expected an integer or string",
        }
    }
}

/// The digits of a string after its sign, if it has one.
pub open spec fn unsigned_part(s: Seq<char>) -> Seq<char> {
    if s.len() > 0 && (s[0] == '+' || s[0] == '-') {
        s.drop_first()
    } else {
        s
    }
}

/// The integer a JSON value holds: a number is read as an `i128`; a string
/// as an `i128` where it is one, else kept whole (sign and all) where it is
/// an optional sign followed by at least one digit, and digits only.
pub open spec fn int_of_json(j: JsonView) -> Result<IntView, IntJsonError> {
    match j {
        JsonView::Number(t) => match parse_i128(t) {
            Some(v) => Ok(IntView::Small(v)),
            None => Err(IntJsonError::NotAnInteger),
        },
        JsonView::Str(s) => match parse_i128(s) {
            Some(v) => Ok(IntView::Small(v)),
            None => if s.len() == 0 {
                Err(IntJsonError::EmptyString)
            } else if unsigned_part(s).len() > 0 && all_digits(unsigned_part(s)) {
                Ok(IntView::Big(s))
            } else {
                Err(IntJsonError::InvalidString)
            },
        },
        _ => Err(IntJsonError::WrongType),
    }
}

/// The JSON value of an integer: its decimal number where it is inline, else
/// the string of its text.
pub open spec fn int_json(i: IntView) -> JsonView {
    match i {
        IntView::Small(v) => JsonView::Number(int_decimal(v as int)),
        IntView::Big(s) => JsonView::Str(s),
    }
}

/// Whether the string is an optional sign followed by digits only; on `s@`
/// as `all_digits(unsigned_part(s@))` states it.
fn digits_after_sign(cs: &Vec<char>) -> (r: bool)
    ensures
        r == all_digits(unsigned_part(cs@)),
{
    let len = cs.len();
    let start: usize = if len > 0 && (cs[0] == '+' || cs[0] == '-') { 1 } else { 0 };
    let ghost d = unsigned_part(cs@);
    assert(d =~= cs@.skip(start as int));
    let mut i = start;
    while i < len
        invariant
            start <= i <= len,
            len == cs@.len(),
            d == cs@.skip(start as int),
            d == unsigned_part(cs@),
            forall|j: int| start <= j < i ==> is_digit(#[trigger] cs@[j]),
        decreases len - i,
    {
        let c = cs[i];
        if !('0' <= c && c <= '9') {
            assert(d[i - start] == c);
            assert(!is_digit(d[i - start]));
            return false;
        }
        i = i + 1;
    }
    assert forall|j: int| 0 <= j < d.len() implies #[trigger] is_digit(d[j]) by {
        assert(d[j] == cs@[j + start]);
    }
    true
}

impl<'l> Int<'l> {
    /// The JSON value of this integer: a number where it is stored inline, a
    /// string of its text where it is big.
    pub fn to_json(&self) -> (r: Json)
        ensures
            json_view(r) == int_json(self@),
    {
        match self.is_i128() {
            Some(_) => Json::Number(self.to_string()),
            None => Json::Str(self.to_string()),
        }
    }

    /// Reads an integer from a JSON value: a number must be an `i128`; a
    /// string is read as an `i128` where it is one, else kept whole where it
    /// is an optional sign followed by at least one digit.
    pub fn from_json(j: &Json) -> (r: Result<Int<'static>, IntJsonError>)
        ensures
            int_of_json(json_view(*j)) == match r {
                Ok(i) => Ok(i@),
                Err(e) => Err::<IntView, IntJsonError>(e),
            },
    {
        match j {
            Json::Number(t) => {
                let cs = str_chars(t.as_str());
                match parse_i128_chars(cs.as_slice()) {
                    Some(v) => Ok(Int::small(v)),
                    None => Err(IntJsonError::NotAnInteger),
                }
            },
            Json::Str(s) => {
                let cs = str_chars(s.as_str());
                match parse_i128_chars(cs.as_slice()) {
                    Some(v) => Ok(Int::small(v)),
                    None => {
                        if cs.len() == 0 {
                            Err(IntJsonError::EmptyString)
                        } else if digits_after_sign(&cs) && (cs.len() > 1 || !(cs[0] == '+'
                            || cs[0] == '-')) {
                            let mut t = String::new();
                            push_str(&mut t, s.as_str());
                            Ok(Int::big(t))
                        } else {
                            Err(IntJsonError::InvalidString)
                        }
                    },
                }
            },
            _ => Err(IntJsonError::WrongType),
        }
    }
}

/// The JSON value of an integer made from a string reads back as the same
/// integer.
pub proof fn lemma_int_json_roundtrip(s: Seq<char>, i: IntView)
    requires
        parse_int(s) == Some(i),
    ensures
        int_of_json(int_json(i)) == Ok::<IntView, IntJsonError>(i),
{
    match i {
        IntView::Small(v) => {
            lemma_parse_int_decimal(v);
        },
        IntView::Big(t) => {
            assert(parse_i128(s) is None);
            assert(big_text(s) == Some(t));
            if s[0] == '+' {
                assert(t == s.drop_first());
                assert(t.len() > 0) by {
                    if t.len() == 0 {
                        assert(s =~= seq!['+']);
                    }
                }
                assert(is_digit(t[0]));
                assert(unsigned_part(t) == t);
                assert(parse_i128(t) is None) by {
                    assert(s.drop_first() == t);
                }
            } else {
                assert(t == s);
            }
        },
    }
}

} // verus!
