use std::borrow::Cow;
use vstd::prelude::*;
use vstd::std_specs::convert::{FromSpecImpl, TryFromSpecImpl};

use crate::numeric::{lemma_int_decimal_value, signed_digits, text_value};
use crate::text::{
    all_digits, int_decimal, parse_i128, parse_i128_chars, push_i128_decimal, push_str,
    str_chars, lemma_parse_int_decimal,
};

verus! {

/// An arbitrary precision integer optimized for small values.
///
/// Integers that fit in `i128` are stored inline; larger ones are stored as
/// validated decimal strings. The representation is chosen when the value is
/// created from a string: whatever `i128` can parse is stored inline.
#[derive(Eq, Debug, Hash)]
pub struct Int<'l>(pub(crate) I<'l>);

/// Internal representation of an integer value.
#[derive(Debug, PartialEq, Eq, PartialOrd, Ord, Hash)]
pub enum I<'l> {
    /// Small integer that fits in `i128`
    Stack(i128),
    /// Large integer stored as a decimal string
    Heap(Cow<'l, str>),
}

/// What an [`Int`] holds: an `i128`, or the text of a big integer.
pub enum IntView {
    Small(i128),
    Big(Seq<char>),
}

impl<'l> Clone for I<'l> {
    fn clone(&self) -> (r: Self)
        ensures
            r == *self,
    {
        match self {
            I::Stack(v) => I::Stack(*v),
            I::Heap(Cow::Borrowed(s)) => I::Heap(Cow::Borrowed(*s)),
            I::Heap(Cow::Owned(s)) => I::Heap(Cow::Owned(s.clone())),
        }
    }
}

impl<'l> Clone for Int<'l> {
    fn clone(&self) -> (r: Self)
        ensures
            r@ == self@,
    {
        proof {
            use_type_invariant(self);
        }
        Int(self.0.clone())
    }
}

impl<'l> View for Int<'l> {
    type V = IntView;

    closed spec fn view(&self) -> IntView {
        match self.0 {
            I::Stack(v) => IntView::Small(v),
            I::Heap(s) => IntView::Big(s@),
        }
    }
}

impl<'l> Int<'l> {
    /// The text of a big integer is a signed decimal text.
    #[verifier::type_invariant]
    pub(crate) open spec fn wf(self) -> bool {
        match self.0 {
            I::Stack(_) => true,
            I::Heap(s) => signed_digits(s@),
        }
    }
}

/// Whether what an integer holds is well formed: a big one's text is a
/// signed decimal text.
pub open spec fn int_ok(v: IntView) -> bool {
    match v {
        IntView::Small(_) => true,
        IntView::Big(s) => signed_digits(s),
    }
}

/// The numeric value of an integer.
pub open spec fn int_value(v: IntView) -> int {
    match v {
        IntView::Small(x) => x as int,
        IntView::Big(s) => text_value(s),
    }
}

/// What an integer that is well formed holds is well formed.
pub(crate) proof fn lemma_wf_ok(x: Int)
    requires
        x.wf(),
    ensures
        int_ok(x@),
{
}

/// The decimal text of a well-formed integer is a signed decimal text of
/// its value.
pub proof fn lemma_int_text_value(v: IntView)
    requires
        int_ok(v),
    ensures
        signed_digits(int_text(v)),
        text_value(int_text(v)) == int_value(v),
{
    if let IntView::Small(x) = v {
        lemma_int_decimal_value(x as int);
    }
}

/// The text kept for a big integer is a signed decimal text.
pub proof fn lemma_big_text_signed(s: Seq<char>)
    requires
        big_text(s) is Some,
    ensures
        signed_digits(big_text(s)->Some_0),
{
    let t = big_text(s)->Some_0;
    if s[0] == '+' {
        assert(t == s.drop_first());
        assert(crate::text::is_digit(t[0]));
    } else if s[0] == '-' {
        assert(t == s);
    } else {
        assert(t == s);
    }
}

/// The text that is kept for a string that `i128` cannot parse, if it is a
/// valid integer string at all: an optional sign followed by at least one
/// digit, and digits only. A leading `+` is dropped, a leading `-` kept.
pub open spec fn big_text(s: Seq<char>) -> Option<Seq<char>> {
    if s.len() == 0 {
        None
    } else if s[0] == '+' {
        if s.len() > 1 && all_digits(s.drop_first()) { Some(s.drop_first()) } else { None }
    } else if s[0] == '-' {
        if s.len() > 1 && all_digits(s.drop_first()) { Some(s) } else { None }
    } else {
        if all_digits(s) { Some(s) } else { None }
    }
}

/// The integer that a string denotes, if any: inline when `i128` parses it,
/// otherwise as text.
pub open spec fn parse_int(s: Seq<char>) -> Option<IntView> {
    match parse_i128(s) {
        Some(v) => Some(IntView::Small(v)),
        None => match big_text(s) {
            Some(t) => Some(IntView::Big(t)),
            None => None,
        },
    }
}

/// The decimal text of an integer, as its `Display` writes it.
pub open spec fn int_text(v: IntView) -> Seq<char> {
    match v {
        IntView::Small(i) => int_decimal(i as int),
        IntView::Big(s) => s,
    }
}

/// Classifies `s` as `parse_int` does, without building an [`Int`]: the inline
/// value, or the index from which the kept text starts.
fn classify(s: &str) -> (r: Option<Result<i128, usize>>)
    ensures
        match r {
            Some(Ok(v)) => parse_int(s@) == Some(IntView::Small(v)),
            Some(Err(k)) => k <= 1 && k <= s@.len() && parse_int(s@) == Some(
                IntView::Big(s@.skip(k as int)),
            ) && (k == 1 ==> s@[0] == '+'),
            None => parse_int(s@) is None,
        },
{
    let cs = str_chars(s);
    if let Some(v) = parse_i128_chars(cs.as_slice()) {
        return Some(Ok(v));
    }
    let len = cs.len();
    if len == 0 {
        return None;
    }
    let first = cs[0];
    let start: usize = if first == '+' || first == '-' { 1 } else { 0 };
    if start == 1 && len == 1 {
        return None;
    }
    let mut i = start;
    while i < len
        invariant
            start <= i <= len,
            len == cs@.len(),
            cs@ == s@,
            start == (if cs@[0] == '+' || cs@[0] == '-' { 1usize } else { 0usize }),
            forall|j: int| start <= j < i ==> crate::text::is_digit(#[trigger] cs@[j]),
        decreases len - i,
    {
        let c = cs[i];
        if !('0' <= c && c <= '9') {
            proof {
                let d = s@.skip(start as int);
                assert(d[i - start] == c);
                assert(!crate::text::is_digit(d[i - start]));
                assert(!all_digits(d));
                if start == 1 {
                    assert(d =~= s@.drop_first());
                } else {
                    assert(d =~= s@);
                }
            }
            return None;
        }
        i = i + 1;
    }
    proof {
        let d = s@.skip(start as int);
        assert(all_digits(d)) by {
            assert forall|j: int| 0 <= j < d.len() implies #[trigger] crate::text::is_digit(
                d[j],
            ) by {
                assert(d[j] == cs@[j + start]);
            }
        }
        if start == 1 {
            assert(d =~= s@.drop_first());
        } else {
            assert(d =~= s@);
        }
        assert(s@.skip(0) =~= s@);
    }
    if first == '+' {
        Some(Err(1))
    } else {
        Some(Err(0))
    }
}

impl<'l> Int<'l> {
    /// Builds an `Int` from a string slice, borrowing it where the value is big.
    fn from_str_slice(value: &'l str) -> (r: Result<Int<'l>, ()>)
        ensures
            match r {
                Ok(i) => parse_int(value@) == Some(i@),
                Err(_) => parse_int(value@) is None,
            },
    {
        match classify(value) {
            Some(Ok(v)) => Ok(Int(I::Stack(v))),
            Some(Err(k)) => {
                proof {
                    lemma_big_text_signed(value@);
                }
                if k == 0 {
                    proof {
                        assert(value@.skip(0) =~= value@);
                    }
                    Ok(Int(I::Heap(Cow::Borrowed(value))))
                } else {
                    let n = value.unicode_len();
                    let rest = value.substring_char(1, n);
                    assert(rest@ =~= value@.skip(1));
                    Ok(Int(I::Heap(Cow::Borrowed(rest))))
                }
            },
            None => Err(()),
        }
    }

    /// Builds an `Int` from an owned string, keeping it where the value is big.
    fn from_owned_string(value: String) -> (r: Result<Int<'static>, ()>)
        ensures
            match r {
                Ok(i) => parse_int(value@) == Some(i@),
                Err(_) => parse_int(value@) is None,
            },
    {
        match classify(value.as_str()) {
            Some(Ok(v)) => Ok(Int(I::Stack(v))),
            Some(Err(k)) => {
                proof {
                    lemma_big_text_signed(value@);
                }
                if k == 0 {
                    proof {
                        assert(value@.skip(0) =~= value@);
                    }
                    Ok(Int(I::Heap(Cow::Owned(value))))
                } else {
                    let s = value.as_str();
                    let n = s.unicode_len();
                    let rest = s.substring_char(1, n).to_owned();
                    assert(rest@ =~= value@.skip(1));
                    Ok(Int(I::Heap(Cow::Owned(rest))))
                }
            },
            None => Err(()),
        }
    }

    /// Returns the value as an `i128` if it is stored inline, otherwise `None`.
    pub fn is_i128(&self) -> (r: Option<i128>)
        ensures
            r == (match self@ {
                IntView::Small(v) => Some(v),
                IntView::Big(_) => None::<i128>,
            }),
    {
        if let I::Stack(v) = &self.0 {
            Some(*v)
        } else {
            None
        }
    }

    /// Returns the decimal text if this is a big integer, otherwise `None`.
    pub fn is_big(&self) -> (r: Option<&str>)
        ensures
            match self@ {
                IntView::Small(_) => r is None,
                IntView::Big(s) => r matches Some(t) && t@ == s,
            },
    {
        match &self.0 {
            I::Heap(Cow::Borrowed(s)) => Some(*s),
            I::Heap(Cow::Owned(s)) => Some(s.as_str()),
            I::Stack(_) => None,
        }
    }

    /// Creates a new `Int` from a string slice: a decimal integer with an
    /// optional leading sign. `None` if the string is not a valid integer.
    pub fn new(num: &str) -> (r: Option<Int<'_>>)
        ensures
            match r {
                Some(i) => parse_int(num@) == Some(i@),
                None => parse_int(num@) is None,
            },
    {
        match Int::from_str_slice(num) {
            Ok(i) => Some(i),
            Err(_) => None,
        }
    }

    /// Creates a new `Int` from an owned string; like [`new`](Self::new).
    pub fn from_string(num: String) -> (r: Option<Int<'static>>)
        ensures
            match r {
                Some(i) => parse_int(num@) == Some(i@),
                None => parse_int(num@) is None,
            },
    {
        match Int::from_owned_string(num) {
            Ok(i) => Some(i),
            Err(_) => None,
        }
    }

    /// Returns `true` if this integer is stored inline as zero (every string
    /// denoting zero is).
    pub fn is_zero(&self) -> (r: bool)
        ensures
            r == (self@ == IntView::Small(0)),
    {
        match &self.0 {
            I::Stack(v) => *v == 0,
            I::Heap(_) => false,
        }
    }

    /// Returns `true` if this integer is positive: an inline value above zero,
    /// or a big one without a leading `-`.
    pub fn is_positive(&self) -> (r: bool)
        ensures
            r == (match self@ {
                IntView::Small(v) => v > 0,
                IntView::Big(s) => s.len() > 0 && s[0] != '-',
            }),
    {
        match &self.0 {
            I::Stack(v) => *v > 0,
            I::Heap(s) => text_len(s) > 0 && first_char(s) != '-',
        }
    }

    /// Returns `true` if this integer is negative: an inline value below zero,
    /// or a big one with a leading `-`.
    pub fn is_negative(&self) -> (r: bool)
        ensures
            r == (match self@ {
                IntView::Small(v) => v < 0,
                IntView::Big(s) => s.len() > 0 && s[0] == '-',
            }),
    {
        match &self.0 {
            I::Stack(v) => *v < 0,
            I::Heap(s) => text_len(s) > 0 && first_char(s) == '-',
        }
    }

    /// Converts into an `Int` that owns its text.
    pub fn into_owned(self) -> (r: Int<'static>)
        ensures
            r@ == self@,
    {
        proof {
            use_type_invariant(&self);
        }
        match self.0 {
            I::Stack(i) => Int(I::Stack(i)),
            I::Heap(Cow::Owned(s)) => Int(I::Heap(Cow::Owned(s))),
            I::Heap(Cow::Borrowed(b)) => Int(I::Heap(Cow::Owned(b.to_owned()))),
        }
    }

    /// The decimal text of this integer, as its `Display` writes it.
    pub fn to_string(&self) -> (r: String)
        ensures
            r@ == int_text(self@),
    {
        let mut out = String::new();
        self.push_text(&mut out);
        out
    }

    /// Appends the decimal text of this integer to `out`.
    pub fn push_text(&self, out: &mut String)
        ensures
            final(out)@ == old(out)@ + int_text(self@),
    {
        match &self.0 {
            I::Stack(v) => push_i128_decimal(out, *v),
            I::Heap(Cow::Borrowed(s)) => push_str(out, s),
            I::Heap(Cow::Owned(s)) => push_str(out, s.as_str()),
        }
    }
}

impl Int<'static> {
    /// The integer stored inline as `v`.
    pub(crate) fn small(v: i128) -> (r: Int<'static>)
        ensures
            r@ == IntView::Small(v),
    {
        Int(I::Stack(v))
    }

    /// The integer kept as the text `t`.
    pub(crate) fn big(t: String) -> (r: Int<'static>)
        requires
            signed_digits(t@),
        ensures
            r@ == IntView::Big(t@),
    {
        Int(I::Heap(Cow::Owned(t)))
    }
}

impl<'l> TryFrom<&'l str> for Int<'l> {
    type Error = ();

    /// An integer from a string: see [`Int::new`].
    fn try_from(value: &'l str) -> (r: Result<Int<'l>, ()>)
        ensures
            match r {
                Ok(i) => parse_int(value@) == Some(i@),
                Err(_) => parse_int(value@) is None,
            },
    {
        Int::from_str_slice(value)
    }
}

impl TryFrom<String> for Int<'_> {
    type Error = ();

    /// An integer from an owned string: see [`Int::from_string`].
    fn try_from(value: String) -> (r: Result<Self, ()>)
        ensures
            match r {
                Ok(i) => parse_int(value@) == Some(i@),
                Err(_) => parse_int(value@) is None,
            },
    {
        match Int::from_owned_string(value) {
            Ok(i) => Ok(i),
            Err(e) => Err(e),
        }
    }
}

impl<'l> TryFrom<Cow<'l, str>> for Int<'l> {
    type Error = ();

    /// An integer from a borrowed or owned string.
    fn try_from(value: Cow<'l, str>) -> (r: Result<Int<'l>, ()>)
        ensures
            match r {
                Ok(i) => parse_int(value@) == Some(i@),
                Err(_) => parse_int(value@) is None,
            },
    {
        match value {
            Cow::Borrowed(b) => Int::from_str_slice(b),
            Cow::Owned(o) => match Int::from_owned_string(o) {
                Ok(i) => Ok(i),
                Err(e) => Err(e),
            },
        }
    }
}

/// What `try_from` returns is stated by its own contract, over the view of
/// the integer, not by a spec function of the integer value.
impl<'l> TryFromSpecImpl<&'l str> for Int<'l> {
    open spec fn obeys_try_from_spec() -> bool {
        false
    }

    open spec fn try_from_spec(v: &'l str) -> Result<Int<'l>, ()> {
        Err(())
    }
}

/// What `try_from` returns is stated by its own contract.
impl TryFromSpecImpl<String> for Int<'_> {
    open spec fn obeys_try_from_spec() -> bool {
        false
    }

    open spec fn try_from_spec(v: String) -> Result<Self, ()> {
        Err(())
    }
}

/// What `try_from` returns is stated by its own contract.
impl<'l> TryFromSpecImpl<Cow<'l, str>> for Int<'l> {
    open spec fn obeys_try_from_spec() -> bool {
        false
    }

    open spec fn try_from_spec(v: Cow<'l, str>) -> Result<Int<'l>, ()> {
        Err(())
    }
}

impl<'l> From<u8> for Int<'l> {
    fn from(value: u8) -> (r: Int<'l>)
        ensures
            r@ == IntView::Small(value as i128),
    {
        Int(I::Stack(value as i128))
    }
}

impl<'l> FromSpecImpl<u8> for Int<'l> {
    open spec fn obeys_from_spec() -> bool {
        true
    }

    closed spec fn from_spec(value: u8) -> Int<'l> {
        Int(I::Stack(value as i128))
    }
}

impl<'l> From<i8> for Int<'l> {
    fn from(value: i8) -> (r: Int<'l>)
        ensures
            r@ == IntView::Small(value as i128),
    {
        Int(I::Stack(value as i128))
    }
}

impl<'l> FromSpecImpl<i8> for Int<'l> {
    open spec fn obeys_from_spec() -> bool {
        true
    }

    closed spec fn from_spec(value: i8) -> Int<'l> {
        Int(I::Stack(value as i128))
    }
}

impl<'l> From<u16> for Int<'l> {
    fn from(value: u16) -> (r: Int<'l>)
        ensures
            r@ == IntView::Small(value as i128),
    {
        Int(I::Stack(value as i128))
    }
}

impl<'l> FromSpecImpl<u16> for Int<'l> {
    open spec fn obeys_from_spec() -> bool {
        true
    }

    closed spec fn from_spec(value: u16) -> Int<'l> {
        Int(I::Stack(value as i128))
    }
}

impl<'l> From<i16> for Int<'l> {
    fn from(value: i16) -> (r: Int<'l>)
        ensures
            r@ == IntView::Small(value as i128),
    {
        Int(I::Stack(value as i128))
    }
}

impl<'l> FromSpecImpl<i16> for Int<'l> {
    open spec fn obeys_from_spec() -> bool {
        true
    }

    closed spec fn from_spec(value: i16) -> Int<'l> {
        Int(I::Stack(value as i128))
    }
}

impl<'l> From<u32> for Int<'l> {
    fn from(value: u32) -> (r: Int<'l>)
        ensures
            r@ == IntView::Small(value as i128),
    {
        Int(I::Stack(value as i128))
    }
}

impl<'l> FromSpecImpl<u32> for Int<'l> {
    open spec fn obeys_from_spec() -> bool {
        true
    }

    closed spec fn from_spec(value: u32) -> Int<'l> {
        Int(I::Stack(value as i128))
    }
}

impl<'l> From<i32> for Int<'l> {
    fn from(value: i32) -> (r: Int<'l>)
        ensures
            r@ == IntView::Small(value as i128),
    {
        Int(I::Stack(value as i128))
    }
}

impl<'l> FromSpecImpl<i32> for Int<'l> {
    open spec fn obeys_from_spec() -> bool {
        true
    }

    closed spec fn from_spec(value: i32) -> Int<'l> {
        Int(I::Stack(value as i128))
    }
}

impl<'l> From<u64> for Int<'l> {
    fn from(value: u64) -> (r: Int<'l>)
        ensures
            r@ == IntView::Small(value as i128),
    {
        Int(I::Stack(value as i128))
    }
}

impl<'l> FromSpecImpl<u64> for Int<'l> {
    open spec fn obeys_from_spec() -> bool {
        true
    }

    closed spec fn from_spec(value: u64) -> Int<'l> {
        Int(I::Stack(value as i128))
    }
}

impl<'l> From<i64> for Int<'l> {
    fn from(value: i64) -> (r: Int<'l>)
        ensures
            r@ == IntView::Small(value as i128),
    {
        Int(I::Stack(value as i128))
    }
}

impl<'l> FromSpecImpl<i64> for Int<'l> {
    open spec fn obeys_from_spec() -> bool {
        true
    }

    closed spec fn from_spec(value: i64) -> Int<'l> {
        Int(I::Stack(value as i128))
    }
}

impl<'l> From<usize> for Int<'l> {
    fn from(value: usize) -> (r: Int<'l>)
        ensures
            r@ == IntView::Small(value as i128),
    {
        Int(I::Stack(value as i128))
    }
}

impl<'l> FromSpecImpl<usize> for Int<'l> {
    open spec fn obeys_from_spec() -> bool {
        true
    }

    closed spec fn from_spec(value: usize) -> Int<'l> {
        Int(I::Stack(value as i128))
    }
}

impl<'l> From<isize> for Int<'l> {
    fn from(value: isize) -> (r: Int<'l>)
        ensures
            r@ == IntView::Small(value as i128),
    {
        Int(I::Stack(value as i128))
    }
}

impl<'l> FromSpecImpl<isize> for Int<'l> {
    open spec fn obeys_from_spec() -> bool {
        true
    }

    closed spec fn from_spec(value: isize) -> Int<'l> {
        Int(I::Stack(value as i128))
    }
}

impl<'l> From<i128> for Int<'l> {
    fn from(value: i128) -> (r: Int<'l>)
        ensures
            r@ == IntView::Small(value as i128),
    {
        Int(I::Stack(value as i128))
    }
}

impl<'l> FromSpecImpl<i128> for Int<'l> {
    open spec fn obeys_from_spec() -> bool {
        true
    }

    closed spec fn from_spec(value: i128) -> Int<'l> {
        Int(I::Stack(value as i128))
    }
}

/// The first character of a non-empty string.
/// What an integer holds, from its representation.
pub(crate) proof fn lemma_int_view(x: Int)
    ensures
        x@ == match x.0 {
            I::Stack(v) => IntView::Small(v),
            I::Heap(s) => IntView::Big(s@),
        },
{
}

/// The text of a big integer as a string slice.
pub(crate) fn cow_text<'a>(s: &'a Cow<'_, str>) -> (r: &'a str)
    ensures
        r@ == s@,
{
    match s {
        Cow::Borrowed(b) => b,
        Cow::Owned(o) => o.as_str(),
    }
}

fn text_len(s: &Cow<'_, str>) -> (n: usize)
    ensures
        n == s@.len(),
{
    match s {
        Cow::Borrowed(b) => b.unicode_len(),
        Cow::Owned(o) => o.as_str().unicode_len(),
    }
}

fn first_char(s: &Cow<'_, str>) -> (c: char)
    requires
        s@.len() > 0,
    ensures
        c == s@[0],
{
    match s {
        Cow::Borrowed(b) => b.get_char(0),
        Cow::Owned(o) => o.as_str().get_char(0),
    }
}

/// The decimal text of every `i128` is parsed back to the same inline integer.
pub proof fn lemma_int_text_roundtrip(v: i128)
    ensures
        parse_int(int_text(IntView::Small(v))) == Some(IntView::Small(v)),
{
    lemma_parse_int_decimal(v);
}

/// The decimal text of every integer made from a string reads back as the
/// same integer, inline or big.
pub proof fn lemma_parsed_text_roundtrip(s: Seq<char>, i: IntView)
    requires
        parse_int(s) == Some(i),
    ensures
        parse_int(int_text(i)) == Some(i),
{
    match i {
        IntView::Small(v) => {
            lemma_parse_int_decimal(v);
        },
        IntView::Big(t) => {
            assert(parse_i128(s) is None);
            assert(big_text(s) == Some(t));
            if s[0] == '+' {
                assert(t == s.drop_first());
                assert(t.len() > 0);
                assert(crate::text::is_digit(t[0]));
                assert(parse_i128(t) is None) by {
                    assert(s.drop_first() == t);
                }
                assert(big_text(t) == Some(t));
            } else {
                assert(t == s);
            }
        },
    }
}

} // verus!
