//! Character-level helpers shared by the integer type and the writers:
//! decimal digits, the decimal text of machine integers, and appending to strings.
use vstd::prelude::*;
use vstd::string::StringSliceAdditionalSpecFns;
use vstd::utf8::{decode_utf8, valid_utf8};
use std::str::Utf8Error;

verus! {

/// `c` is one of the ASCII digits `0`..=`9`.
pub open spec fn is_digit(c: char) -> bool {
    '0' <= c && c <= '9'
}

/// Every character of `s` is an ASCII digit (vacuously true for the empty sequence).
pub open spec fn all_digits(s: Seq<char>) -> bool {
    forall|i: int| 0 <= i < s.len() ==> #[trigger] is_digit(s[i])
}

/// The numeric value of a digit character.
pub open spec fn digit_value(c: char) -> int {
    c as int - '0' as int
}

/// The value of a sequence of decimal digits, most significant first.
pub open spec fn digits_value(s: Seq<char>) -> int
    decreases s.len(),
{
    if s.len() == 0 {
        0
    } else {
        digits_value(s.drop_last()) * 10 + digit_value(s.last())
    }
}

/// The digit character of a number below ten.
pub open spec fn digit_char(n: nat) -> char {
    (48 + n) as char
}

/// The decimal text of a natural number, without leading zeros.
pub open spec fn nat_decimal(n: nat) -> Seq<char>
    decreases n,
{
    if n < 10 {
        seq![digit_char(n)]
    } else {
        nat_decimal(n / 10) + seq![digit_char(n % 10)]
    }
}

/// The decimal text of an integer: a `-` for negative values, then the digits.
pub open spec fn int_decimal(v: int) -> Seq<char> {
    if v < 0 {
        seq!['-'] + nat_decimal((-v) as nat)
    } else {
        nat_decimal(v as nat)
    }
}

/// What `i128::from_str` accepts: an optional `+` or `-`, then at least one digit and
/// nothing else, whose value lies in the range of `i128`.
pub open spec fn parse_i128(s: Seq<char>) -> Option<i128> {
    let signed = s.len() > 0 && (s[0] == '-' || s[0] == '+');
    let d = if signed { s.drop_first() } else { s };
    let v = if s.len() > 0 && s[0] == '-' { -digits_value(d) } else { digits_value(d) };
    if d.len() > 0 && all_digits(d) && i128::MIN <= v <= i128::MAX {
        Some(v as i128)
    } else {
        None
    }
}

pub proof fn lemma_digits_value_nonneg(s: Seq<char>)
    requires
        all_digits(s),
    ensures
        digits_value(s) >= 0,
    decreases s.len(),
{
    if s.len() > 0 {
        assert(is_digit(s[s.len() - 1]));
        assert(all_digits(s.drop_last())) by {
            assert forall|i: int| 0 <= i < s.drop_last().len() implies #[trigger] is_digit(
                s.drop_last()[i],
            ) by {
                assert(is_digit(s[i]));
            }
        }
        lemma_digits_value_nonneg(s.drop_last());
    }
}

/// A longer prefix of a digit sequence never has a smaller value.
pub proof fn lemma_digits_value_prefix_mono(s: Seq<char>, i: int, j: int)
    requires
        all_digits(s),
        0 <= i <= j <= s.len(),
    ensures
        digits_value(s.take(i)) <= digits_value(s.take(j)),
    decreases j - i,
{
    if i < j {
        lemma_digits_value_prefix_mono(s, i, j - 1);
        let t = s.take(j);
        assert(t.drop_last() =~= s.take(j - 1));
        assert(is_digit(s[j - 1]));
        assert(all_digits(s.take(j - 1))) by {
            assert forall|k: int| 0 <= k < s.take(j - 1).len() implies #[trigger] is_digit(
                s.take(j - 1)[k],
            ) by {
                assert(is_digit(s[k]));
            }
        }
        lemma_digits_value_nonneg(s.take(j - 1));
    }
}

/// The decimal text of `n` is made of digits only, and reads back as `n`.
pub proof fn lemma_nat_decimal(n: nat)
    ensures
        all_digits(nat_decimal(n)),
        digits_value(nat_decimal(n)) == n,
        nat_decimal(n).len() > 0,
    decreases n,
{
    let c = digit_char(n % 10);
    assert(digit_value(c) == n % 10) by {
        assert((48 + n % 10) as char as int == 48 + n % 10);
    }
    assert(digits_value(Seq::<char>::empty()) == 0);
    if n < 10 {
        let s = nat_decimal(n);
        assert(s.drop_last() =~= Seq::<char>::empty());
        assert(digits_value(s) == digits_value(s.drop_last()) * 10 + digit_value(s.last()));
        assert(is_digit(s[0]));
    } else {
        lemma_nat_decimal(n / 10);
        let s = nat_decimal(n);
        assert(s.drop_last() =~= nat_decimal(n / 10));
        assert(s.last() == c);
        assert forall|i: int| 0 <= i < s.len() implies #[trigger] is_digit(s[i]) by {
            if i < s.len() - 1 {
                assert(s[i] == nat_decimal(n / 10)[i]);
            }
        }
    }
}

/// Parsing the decimal text of any `i128` gives it back.
pub proof fn lemma_parse_int_decimal(v: i128)
    ensures
        parse_i128(int_decimal(v as int)) == Some(v),
{
    let s = int_decimal(v as int);
    if v < 0 {
        lemma_nat_decimal((-v) as nat);
        assert(s.drop_first() =~= nat_decimal((-v) as nat));
        assert(s[0] == '-');
    } else {
        lemma_nat_decimal(v as nat);
        let d = nat_decimal(v as nat);
        assert(is_digit(d[0]));
    }
}

/// Appends one character to `s` (`String::push`).
#[verifier::external_body]
pub(crate) fn push_char(s: &mut String, c: char)
    ensures
        final(s)@ == old(s)@.push(c),
{
    s.push(c);
}

/// Appends a string slice to `s`.
pub fn push_str(s: &mut String, t: &str)
    ensures
        final(s)@ == old(s)@ + t@,
{
    s.append(t);
}

/// The characters of `s`, in order.
pub fn str_chars(s: &str) -> (r: Vec<char>)
    ensures
        r@ == s@,
{
    broadcast use vstd::string::group_string_axioms;

    let mut r: Vec<char> = Vec::new();
    for c in it: s.chars()
        invariant
            it.seq() == s@,
            r@ == it.seq().take(it.index() as int),
    {
        r.push(c);
    }
    r
}

/// Appends the decimal text of `n` to `out`.
pub fn push_u128_decimal(out: &mut String, n: u128)
    ensures
        final(out)@ == old(out)@ + nat_decimal(n as nat),
    decreases n,
{
    if n >= 10 {
        push_u128_decimal(out, n / 10);
    }
    let d = (n % 10) as u32;
    let c = char_from_digit(d);
    push_char(out, c);
}

/// The digit character of a number below ten.
pub fn char_from_digit(d: u32) -> (c: char)
    requires
        d < 10,
    ensures
        c == digit_char(d as nat),
{
    if d == 0 {
        '0'
    } else if d == 1 {
        '1'
    } else if d == 2 {
        '2'
    } else if d == 3 {
        '3'
    } else if d == 4 {
        '4'
    } else if d == 5 {
        '5'
    } else if d == 6 {
        '6'
    } else if d == 7 {
        '7'
    } else if d == 8 {
        '8'
    } else {
        '9'
    }
}

/// Appends the decimal text of `v` to `out`, as `i128`'s `Display` writes it.
pub fn push_i128_decimal(out: &mut String, v: i128)
    ensures
        final(out)@ == old(out)@ + int_decimal(v as int),
{
    if v < 0 {
        push_char(out, '-');
        let m: u128 = if v == i128::MIN {
            0x8000_0000_0000_0000_0000_0000_0000_0000u128
        } else {
            (-v) as u128
        };
        push_u128_decimal(out, m);
    } else {
        push_u128_decimal(out, v as u128);
    }
}

/// Parses `s` as `i128::from_str` does.
pub fn parse_i128_chars(s: &[char]) -> (r: Option<i128>)
    ensures
        r == parse_i128(s@),
{
    let len = s.len();
    if len == 0 {
        return None;
    }
    let neg = s[0] == '-';
    let start: usize = if s[0] == '-' || s[0] == '+' { 1 } else { 0 };
    if start == len {
        return None;
    }
    let ghost d = if start == 1 { s@.drop_first() } else { s@ };
    assert(start == 1 <==> (s@[0] == '-' || s@[0] == '+'));
    assert(neg <==> s@[0] == '-');
    assert(d =~= s@.subrange(start as int, len as int));
    let mut acc: i128 = 0;
    let mut i: usize = start;
    while i < len
        invariant
            start <= i <= len,
            len == s@.len(),
            start < len,
            d == (if s@[0] == '-' || s@[0] == '+' { s@.drop_first() } else { s@ }),
            neg <==> s@[0] == '-',
            d =~= s@.subrange(start as int, len as int),
            all_digits(d.take(i - start)),
            acc == (if neg { -digits_value(d.take(i - start)) } else { digits_value(d.take(i - start)) }),
        decreases len - i,
    {
        let c = s[i];
        let ghost k = (i - start) as int;
        assert(d[k] == c);
        if !('0' <= c && c <= '9') {
            assert(!all_digits(d)) by {
                assert(!is_digit(d[k]));
            }
            assert(parse_i128(s@) is None);
            return None;
        }
        let dv = (c as u32 - '0' as u32) as i128;
        assert(d.take(k + 1).drop_last() =~= d.take(k));
        assert(d.take(k + 1).last() == c);
        assert(all_digits(d.take(k + 1))) by {
            assert forall|j: int| 0 <= j < d.take(k + 1).len() implies #[trigger] is_digit(
                d.take(k + 1)[j],
            ) by {
                if j < k {
                    assert(d.take(k)[j] == d[j]);
                }
            }
        }
        let m = acc.checked_mul(10);
        let next = match m {
            Some(m) => {
                if neg {
                    m.checked_sub(dv)
                } else {
                    m.checked_add(dv)
                }
            },
            None => None,
        };
        match next {
            Some(n) => {
                acc = n;
            },
            None => {
                proof {
                    if all_digits(d) {
                        lemma_digits_value_prefix_mono(d, k + 1, d.len() as int);
                        assert(d.take(d.len() as int) =~= d);
                        lemma_digits_value_nonneg(d.take(k));
                    }
                }
                return None;
            },
        }
        i = i + 1;
    }
    assert(d.take(len - start) =~= d);
    Some(acc)
}

/// What the XML writer puts in place of one character: `&`, `<` and `"`
/// become entity references, everything else stays.
pub open spec fn escape_char(c: char) -> Seq<char> {
    if c == '&' {
        seq!['&', 'a', 'm', 'p', ';']
    } else if c == '<' {
        seq!['&', 'l', 't', ';']
    } else if c == '"' {
        seq!['&', 'q', 'u', 'o', 't', ';']
    } else {
        seq![c]
    }
}

/// `s` with every `&`, `<` and `"` replaced by its entity reference.
pub open spec fn escaped(s: Seq<char>) -> Seq<char>
    decreases s.len(),
{
    if s.len() == 0 {
        seq![]
    } else {
        escaped(s.drop_last()) + escape_char(s.last())
    }
}

/// Appends `s` to `out` with `&`, `<` and `"` escaped.
pub fn push_escaped(out: &mut String, s: &str)
    ensures
        final(out)@ == old(out)@ + escaped(s@),
{
    broadcast use vstd::string::group_string_axioms;

    let ghost start = out@;
    for c in it: s.chars()
        invariant
            it.seq() == s@,
            out@ == start + escaped(it.seq().take(it.index() as int)),
    {
        let ghost i = it.index() as int;
        assert(s@.take(i + 1).drop_last() =~= s@.take(i));
        if c == '&' {
            push_str(out, "&amp;");
            proof {
                reveal_strlit("&amp;");
            }
        } else if c == '<' {
            push_str(out, "&lt;");
            proof {
                reveal_strlit("&lt;");
            }
        } else if c == '"' {
            push_str(out, "&quot;");
            proof {
                reveal_strlit("&quot;");
            }
        } else {
            push_char(out, c);
        }
        assert(out@ =~= start + escaped(s@.take(i + 1)));
    }
    assert(s@.take(s@.len() as int) =~= s@);
}

/// What the XML writer puts in place of one character of text content:
/// `&` and `<` become entity references, everything else stays.
pub open spec fn text_escape_char(c: char) -> Seq<char> {
    if c == '&' {
        seq!['&', 'a', 'm', 'p', ';']
    } else if c == '<' {
        seq!['&', 'l', 't', ';']
    } else {
        seq![c]
    }
}

/// Text content `s` with every `&` and `<` replaced by its entity reference.
pub open spec fn text_escaped(s: Seq<char>) -> Seq<char>
    decreases s.len(),
{
    if s.len() == 0 {
        seq![]
    } else {
        text_escaped(s.drop_last()) + text_escape_char(s.last())
    }
}

/// Appends text content `s` to `out` with `&` and `<` escaped.
pub fn push_text_escaped(out: &mut String, s: &str)
    ensures
        final(out)@ == old(out)@ + text_escaped(s@),
{
    broadcast use vstd::string::group_string_axioms;

    let ghost start = out@;
    for c in it: s.chars()
        invariant
            it.seq() == s@,
            out@ == start + text_escaped(it.seq().take(it.index() as int)),
    {
        let ghost i = it.index() as int;
        assert(s@.take(i + 1).drop_last() =~= s@.take(i));
        if c == '&' {
            push_str(out, "&amp;");
            proof {
                reveal_strlit("&amp;");
            }
        } else if c == '<' {
            push_str(out, "&lt;");
            proof {
                reveal_strlit("&lt;");
            }
        } else {
            push_char(out, c);
        }
        assert(out@ =~= start + text_escaped(s@.take(i + 1)));
    }
    assert(s@.take(s@.len() as int) =~= s@);
}

/// The character that the entity reference at the start of `s` stands for
/// (one of the five that XML predefines), and its length.
pub open spec fn entity_at(s: Seq<char>) -> Option<(char, int)> {
    if s.len() >= 5 && s.take(5) == seq!['&', 'a', 'm', 'p', ';'] {
        Some(('&', 5))
    } else if s.len() >= 4 && s.take(4) == seq!['&', 'l', 't', ';'] {
        Some(('<', 4))
    } else if s.len() >= 4 && s.take(4) == seq!['&', 'g', 't', ';'] {
        Some(('>', 4))
    } else if s.len() >= 6 && s.take(6) == seq!['&', 'q', 'u', 'o', 't', ';'] {
        Some(('"', 6))
    } else if s.len() >= 6 && s.take(6) == seq!['&', 'a', 'p', 'o', 's', ';'] {
        Some(('\'', 6))
    } else {
        None
    }
}

/// Character data with the predefined entity references (`&amp;`, `&lt;`,
/// `&gt;`, `&quot;`, `&apos;`) replaced by the characters they stand for;
/// everything else stays.
pub open spec fn unescape(s: Seq<char>) -> Seq<char>
    decreases s.len(),
{
    if s.len() == 0 {
        seq![]
    } else if s[0] == '&' && entity_at(s) is Some {
        let (c, n) = entity_at(s)->Some_0;
        seq![c] + unescape(s.skip(n))
    } else {
        seq![s[0]] + unescape(s.drop_first())
    }
}

/// Whether `cs` holds the characters of `pat` from index `i` on.
fn starts_at(cs: &Vec<char>, i: usize, pat: &[char]) -> (r: bool)
    requires
        i <= cs.len(),
    ensures
        r == (cs@.len() - i >= pat@.len() && cs@.skip(i as int).take(pat@.len() as int) == pat@),
{
    if cs.len() - i < pat.len() {
        return false;
    }
    let mut k: usize = 0;
    while k < pat.len()
        invariant
            i <= cs.len(),
            cs@.len() - i >= pat@.len(),
            k <= pat@.len(),
            forall|j: int| 0 <= j < k ==> cs@[i + j] == pat@[j],
        decreases pat.len() - k,
    {
        if cs[i + k] != pat[k] {
            assert(cs@.skip(i as int).take(pat@.len() as int)[k as int] != pat@[k as int]);
            return false;
        }
        k = k + 1;
    }
    assert(cs@.skip(i as int).take(pat@.len() as int) =~= pat@);
    true
}

/// `s` with the predefined entity references replaced by their characters.
pub fn unescape_str(s: &str) -> (r: String)
    ensures
        r@ == unescape(s@),
{
    let cs = str_chars(s);
    let mut out = String::new();
    let mut i: usize = 0;
    let amp = ['&', 'a', 'm', 'p', ';'];
    let lt = ['&', 'l', 't', ';'];
    let gt = ['&', 'g', 't', ';'];
    let quot = ['&', 'q', 'u', 'o', 't', ';'];
    let apos = ['&', 'a', 'p', 'o', 's', ';'];
    assert(amp@ =~= seq!['&', 'a', 'm', 'p', ';']);
    assert(lt@ =~= seq!['&', 'l', 't', ';']);
    assert(gt@ =~= seq!['&', 'g', 't', ';']);
    assert(quot@ =~= seq!['&', 'q', 'u', 'o', 't', ';']);
    assert(apos@ =~= seq!['&', 'a', 'p', 'o', 's', ';']);
    assert(cs@.skip(0) =~= cs@);
    while i < cs.len()
        invariant
            i <= cs.len(),
            cs@ == s@,
            amp@ == seq!['&', 'a', 'm', 'p', ';'],
            lt@ == seq!['&', 'l', 't', ';'],
            gt@ == seq!['&', 'g', 't', ';'],
            quot@ == seq!['&', 'q', 'u', 'o', 't', ';'],
            apos@ == seq!['&', 'a', 'p', 'o', 's', ';'],
            unescape(s@) == out@ + unescape(cs@.skip(i as int)),
        decreases cs.len() - i,
    {
        let ghost rest = cs@.skip(i as int);
        let ghost o = out@;
        let c = cs[i];
        assert(rest[0] == c);
        let mut n: usize = 1;
        let mut d = c;
        if c == '&' {
            if starts_at(&cs, i, amp.as_slice()) {
                d = '&';
                n = 5;
            } else if starts_at(&cs, i, lt.as_slice()) {
                d = '<';
                n = 4;
            } else if starts_at(&cs, i, gt.as_slice()) {
                d = '>';
                n = 4;
            } else if starts_at(&cs, i, quot.as_slice()) {
                d = '"';
                n = 6;
            } else if starts_at(&cs, i, apos.as_slice()) {
                d = '\'';
                n = 6;
            }
        }
        proof {
            if c == '&' && entity_at(rest) is Some {
                assert(entity_at(rest) == Some((d, n as int)));
            } else {
                assert(n == 1 && d == c);
                assert(rest.skip(1) =~= rest.drop_first());
            }
            assert(rest.skip(n as int) =~= cs@.skip(i + n));
        }
        push_char(&mut out, d);
        assert(out@ =~= o + seq![d]);
        i = i + n;
    }
    assert(out@ + unescape(cs@.skip(i as int)) =~= out@);
    out
}

/// `escaped` of a text that starts with `c`.
proof fn lemma_escaped_first(s: Seq<char>)
    requires
        s.len() > 0,
    ensures
        escaped(s) == escape_char(s[0]) + escaped(s.drop_first()),
    decreases s.len(),
{
    if s.len() == 1 {
        assert(s.drop_last() =~= Seq::<char>::empty());
        assert(s.drop_first() =~= Seq::<char>::empty());
        assert(escape_char(s[0]) + Seq::<char>::empty() =~= escape_char(s[0]));
    } else {
        lemma_escaped_first(s.drop_last());
        assert(s.drop_last().drop_first() =~= s.drop_first().drop_last());
        assert(s.drop_first().last() == s.last());
        assert(s.drop_last()[0] == s[0]);
        assert(escaped(s) =~= escape_char(s[0]) + escaped(s.drop_first()));
    }
}

/// `text_escaped` of a text that starts with `c`.
proof fn lemma_text_escaped_first(s: Seq<char>)
    requires
        s.len() > 0,
    ensures
        text_escaped(s) == text_escape_char(s[0]) + text_escaped(s.drop_first()),
    decreases s.len(),
{
    if s.len() == 1 {
        assert(s.drop_last() =~= Seq::<char>::empty());
        assert(s.drop_first() =~= Seq::<char>::empty());
        assert(text_escape_char(s[0]) + Seq::<char>::empty() =~= text_escape_char(s[0]));
    } else {
        lemma_text_escaped_first(s.drop_last());
        assert(s.drop_last().drop_first() =~= s.drop_first().drop_last());
        assert(s.drop_first().last() == s.last());
        assert(s.drop_last()[0] == s[0]);
        assert(text_escaped(s) =~= text_escape_char(s[0]) + text_escaped(s.drop_first()));
    }
}

/// Unescaping the text content the writer escaped gives it back.
pub proof fn lemma_unescape_text_escaped(s: Seq<char>)
    ensures
        unescape(text_escaped(s)) == s,
        text_escaped(s).len() == 0 <==> s.len() == 0,
    decreases s.len(),
{
    if s.len() == 0 {
        assert(text_escaped(s) =~= Seq::<char>::empty());
    } else {
        lemma_text_escaped_first(s);
        lemma_unescape_text_escaped(s.drop_first());
        let c = s[0];
        let e = text_escape_char(c);
        let r = text_escaped(s.drop_first());
        let x = e + r;
        if c == '&' {
            assert(x.take(5) =~= seq!['&', 'a', 'm', 'p', ';']);
            assert(x.skip(5) =~= r);
        } else if c == '<' {
            assert(x.take(5) != seq!['&', 'a', 'm', 'p', ';'] || x.len() < 5) by {
                if x.len() >= 5 {
                    assert(x.take(5)[1] == 'l');
                }
            }
            assert(x.take(4) =~= seq!['&', 'l', 't', ';']);
            assert(x.skip(4) =~= r);
        } else {
            assert(x[0] == c);
            assert(x.drop_first() =~= r);
        }
        assert(unescape(x) =~= s);
    }
}

/// Unescaping what the writer escaped gives the text back.
pub proof fn lemma_unescape_escaped(s: Seq<char>)
    ensures
        unescape(escaped(s)) == s,
        escaped(s).len() == 0 <==> s.len() == 0,
    decreases s.len(),
{
    if s.len() == 0 {
        assert(escaped(s) =~= Seq::<char>::empty());
    } else {
        lemma_escaped_first(s);
        lemma_unescape_escaped(s.drop_first());
        let c = s[0];
        let e = escape_char(c);
        let r = escaped(s.drop_first());
        let x = e + r;
        if c == '&' {
            assert(x.take(5) =~= seq!['&', 'a', 'm', 'p', ';']);
            assert(x.skip(5) =~= r);
        } else if c == '<' {
            assert(x.take(5) != seq!['&', 'a', 'm', 'p', ';'] || x.len() < 5) by {
                if x.len() >= 5 {
                    assert(x.take(5)[1] == 'l');
                }
            }
            assert(x.take(4) =~= seq!['&', 'l', 't', ';']);
            assert(x.skip(4) =~= r);
        } else if c == '"' {
            if x.len() >= 5 {
                assert(x.take(5)[1] == 'q');
            }
            assert(x.take(4)[1] == 'q');
            assert(x.take(6) =~= seq!['&', 'q', 'u', 'o', 't', ';']);
            assert(x.skip(6) =~= r);
        } else {
            assert(x[0] == c);
            assert(x.drop_first() =~= r);
        }
        assert(unescape(x) =~= s);
    }
}

/// The characters of `s` from index `i` on.
pub open spec fn chars_from(s: Seq<char>, i: usize) -> Seq<char> {
    s.skip(i as int)
}

/// The tail of the characters of `s` from index `i` on, one further.
pub proof fn lemma_chars_from_next(s: Seq<char>, i: usize)
    requires
        i < s.len(),
        i < usize::MAX,
    ensures
        chars_from(s, i).len() > 0,
        chars_from(s, i)[0] == s[i as int],
        chars_from(s, i).drop_first() == chars_from(s, (i + 1) as usize),
{
    assert(chars_from(s, i).drop_first() =~= chars_from(s, (i + 1) as usize));
}

/// All characters of `s`, from index zero on.
pub proof fn lemma_chars_from_zero(s: Seq<char>)
    ensures
        chars_from(s, 0) == s,
{
    assert(chars_from(s, 0) =~= s);
}

/// Whether two strings hold the same text.
pub fn str_eq(a: &str, b: &str) -> (r: bool)
    ensures
        r == (a@ == b@),
{
    let x = str_chars(a);
    let y = str_chars(b);
    if x.len() != y.len() {
        return false;
    }
    let mut i: usize = 0;
    while i < x.len()
        invariant
            x@ == a@,
            y@ == b@,
            x.len() == y.len(),
            i <= x.len(),
            forall|j: int| 0 <= j < i ==> x@[j] == y@[j],
        decreases x.len() - i,
    {
        if x[i] != y[i] {
            return false;
        }
        i = i + 1;
    }
    assert(x@ =~= y@);
    true
}

#[verifier::external_type_specification]
#[verifier::external_body]
pub struct ExUtf8Error(Utf8Error);

/// The text that a valid UTF-8 byte sequence encodes.
pub open spec fn utf8(b: Seq<u8>) -> Option<Seq<char>> {
    if valid_utf8(b) {
        Some(decode_utf8(b))
    } else {
        None
    }
}

/// `std::str::from_utf8`: the string whose bytes are `b`, if they are valid UTF-8.
#[verifier::external_body]
pub(crate) fn str_from_utf8(b: &[u8]) -> (r: Result<&str, Utf8Error>)
    ensures
        match r {
            Ok(s) => valid_utf8(b@) && s.spec_bytes() == b@,
            Err(_) => !valid_utf8(b@),
        },
{
    std::str::from_utf8(b)
}

/// Decodes `b` as UTF-8.
pub fn decode_str(b: &[u8]) -> (r: Result<&str, Utf8Error>)
    ensures
        match r {
            Ok(s) => utf8(b@) == Some(s@),
            Err(_) => utf8(b@) is None,
        },
{
    let r = str_from_utf8(b);
    match r {
        Ok(s) => {
            proof {
                vstd::utf8::encode_utf8_decode_utf8(s@);
            }
            Ok(s)
        },
        Err(e) => Err(e),
    }
}

/// The bytes of an ASCII text.
pub open spec fn ascii(s: Seq<char>) -> Seq<u8> {
    s.map_values(|c: char| c as u8)
}

/// Whether the bytes `b` spell the (ASCII) text `s`.
pub fn bytes_eq_str(b: &[u8], s: &str) -> (r: bool)
    ensures
        r == (b@ == ascii(s@)),
{
    let cs = str_chars(s);
    if b.len() != cs.len() {
        return false;
    }
    let mut i: usize = 0;
    while i < b.len()
        invariant
            cs@ == s@,
            b.len() == cs.len(),
            i <= b.len(),
            forall|j: int| 0 <= j < i ==> b@[j] == cs@[j] as u8,
        decreases b.len() - i,
    {
        if b[i] != cs[i] as u8 {
            assert(ascii(s@)[i as int] == cs@[i as int] as u8);
            return false;
        }
        i = i + 1;
    }
    assert(b@ =~= ascii(s@));
    true
}

/// `u8::is_ascii_whitespace`: space, tab, line feed, form feed, carriage return.
pub open spec fn is_ascii_ws(b: u8) -> bool {
    b == 32 || b == 9 || b == 10 || b == 12 || b == 13
}

/// Every byte of `b` is ASCII whitespace.
pub open spec fn all_ws(b: Seq<u8>) -> bool {
    forall|k: int| 0 <= k < b.len() ==> #[trigger] is_ascii_ws(b[k])
}

/// `b` without its leading ASCII whitespace.
pub open spec fn trim_start(b: Seq<u8>) -> Seq<u8>
    decreases b.len(),
{
    if b.len() > 0 && is_ascii_ws(b[0]) {
        trim_start(b.drop_first())
    } else {
        b
    }
}

/// `b` without its trailing ASCII whitespace.
pub open spec fn trim_end(b: Seq<u8>) -> Seq<u8>
    decreases b.len(),
{
    if b.len() > 0 && is_ascii_ws(b.last()) {
        trim_end(b.drop_last())
    } else {
        b
    }
}

/// `[u8]::trim_ascii`: `b` without leading and trailing ASCII whitespace.
pub open spec fn trim_ascii(b: Seq<u8>) -> Seq<u8> {
    trim_end(trim_start(b))
}

/// Whether a byte is ASCII whitespace.
pub fn byte_is_ws(b: u8) -> (r: bool)
    ensures
        r == is_ascii_ws(b),
{
    b == 32 || b == 9 || b == 10 || b == 12 || b == 13
}

/// Whether all bytes are ASCII whitespace.
pub fn bytes_all_ws(b: &[u8]) -> (r: bool)
    ensures
        r == all_ws(b@),
{
    let mut i: usize = 0;
    while i < b.len()
        invariant
            i <= b.len(),
            forall|k: int| 0 <= k < i ==> is_ascii_ws(#[trigger] b@[k]),
        decreases b.len() - i,
    {
        if !byte_is_ws(b[i]) {
            return false;
        }
        i = i + 1;
    }
    true
}

/// The range of `b[lo..hi]` left after trimming ASCII whitespace.
pub fn trim_range(b: &[u8], lo: usize, hi: usize) -> (r: (usize, usize))
    requires
        lo <= hi <= b.len(),
    ensures
        lo <= r.0 <= r.1 <= hi,
        b@.subrange(r.0 as int, r.1 as int) == trim_ascii(b@.subrange(lo as int, hi as int)),
{
    let mut s = lo;
    while s < hi && byte_is_ws(b[s])
        invariant
            lo <= s <= hi <= b.len(),
            trim_start(b@.subrange(lo as int, hi as int)) == trim_start(b@.subrange(s as int, hi as int)),
        decreases hi - s,
    {
        assert(b@.subrange(s as int, hi as int).drop_first() =~= b@.subrange(s + 1, hi as int));
        s = s + 1;
    }
    assert(trim_start(b@.subrange(s as int, hi as int)) == b@.subrange(s as int, hi as int));
    let mut e = hi;
    while e > s && byte_is_ws(b[e - 1])
        invariant
            lo <= s <= e <= hi <= b.len(),
            trim_end(b@.subrange(s as int, hi as int)) == trim_end(b@.subrange(s as int, e as int)),
        decreases e - s,
    {
        assert(b@.subrange(s as int, e as int).drop_last() =~= b@.subrange(s as int, e - 1));
        e = e - 1;
    }
    (s, e)
}

/// The parts of Rust's float syntax: digits with at most one decimal point and
/// at least one digit.
pub open spec fn float_mantissa(m: Seq<char>) -> bool {
    ||| (m.len() > 0 && all_digits(m))
    ||| exists|d: int|
        0 <= d < m.len() && #[trigger] m[d] == '.' && all_digits(m.take(d)) && all_digits(
            m.skip(d + 1),
        ) && m.len() > 1
}

/// An exponent: an optional sign, then at least one digit.
pub open spec fn float_exponent(x: Seq<char>) -> bool {
    let y = if x.len() > 0 && (x[0] == '+' || x[0] == '-') { x.drop_first() } else { x };
    y.len() > 0 && all_digits(y)
}

/// A character in lower case (ASCII letters only).
pub open spec fn lower(c: char) -> char {
    if 'A' <= c && c <= 'Z' {
        ((c as u32) + 32) as char
    } else {
        c
    }
}

/// What `f64::from_str` accepts: an optional sign, then `inf`, `infinity`,
/// `nan` (in any case), or a number: a mantissa and an optional exponent after
/// `e` or `E`.
pub open spec fn is_float_text(s: Seq<char>) -> bool {
    let b = if s.len() > 0 && (s[0] == '+' || s[0] == '-') { s.drop_first() } else { s };
    let l = b.map_values(|c: char| lower(c));
    ||| l == "inf"@
    ||| l == "infinity"@
    ||| l == "nan"@
    ||| is_number(l)
}

/// A number in Rust's float syntax (lower case): a mantissa, optionally
/// followed by `e` and an exponent.
pub open spec fn is_number(l: Seq<char>) -> bool {
    ||| float_mantissa(l)
    ||| exists|k: int|
        0 <= k < l.len() && #[trigger] l[k] == 'e' && float_mantissa(l.take(k)) && float_exponent(
            l.skip(k + 1),
        )
}

/// A character in lower case (ASCII letters only).
pub fn char_lower(c: char) -> (r: char)
    ensures
        r == lower(c),
{
    if 'A' <= c && c <= 'Z' {
        let u = (c as u32) + 32;
        assert(u == (c as u32) + 32);
        char_from_ascii_lower(c)
    } else {
        c
    }
}

/// The lower-case letter of an upper-case ASCII letter.
fn char_from_ascii_lower(c: char) -> (r: char)
    requires
        'A' <= c && c <= 'Z',
    ensures
        r == ((c as u32) + 32) as char,
{
    let b = (c as u8) + 32;
    assert(b as u32 == (c as u32) + 32);
    b as char
}

/// Whether `m[lo..hi]` is a mantissa.
fn mantissa_ok(m: &[char], lo: usize, hi: usize) -> (r: bool)
    requires
        lo <= hi <= m.len(),
    ensures
        r == float_mantissa(m@.subrange(lo as int, hi as int)),
{
    let ghost t = m@.subrange(lo as int, hi as int);
    let mut dot: Option<usize> = None;
    let mut i = lo;
    while i < hi
        invariant
            lo <= i <= hi <= m.len(),
            t == m@.subrange(lo as int, hi as int),
            match dot {
                Some(d) => lo <= d < i && m@[d as int] == '.' && forall|j: int|
                    lo <= j < i && j != d ==> #[trigger] is_digit(m@[j]),
                None => forall|j: int| lo <= j < i ==> #[trigger] is_digit(m@[j]),
            },
        decreases hi - i,
    {
        let c = m[i];
        if c == '.' {
            match dot {
                Some(d) => {
                    proof {
                        assert forall|e: int|
                            0 <= e < t.len() && #[trigger] t[e] == '.' implies !(all_digits(t.take(e))
                            && all_digits(t.skip(e + 1))) by {
                            if e + lo < i {
                                if e + lo != d {
                                    assert(is_digit(m@[e + lo]));
                                }
                                assert(t.skip(e + 1)[i - lo - e - 1] == '.');
                                assert(!is_digit(t.skip(e + 1)[i - lo - e - 1]));
                            } else if e + lo == i {
                                assert(t.take(e)[d - lo] == '.');
                                assert(!is_digit(t.take(e)[d - lo]));
                            } else {
                                assert(t.take(e)[i - lo] == '.');
                                assert(!is_digit(t.take(e)[i - lo]));
                            }
                        }
                        assert(!is_digit(t[i - lo]));
                    }
                    return false;
                },
                None => {
                    dot = Some(i);
                },
            }
        } else if !('0' <= c && c <= '9') {
            proof {
                assert(t[i - lo] == c);
                assert(!is_digit(t[i - lo]));
                assert forall|e: int|
                    0 <= e < t.len() && #[trigger] t[e] == '.' implies !(all_digits(t.take(e))
                    && all_digits(t.skip(e + 1))) by {
                    if e < i - lo {
                        assert(t.skip(e + 1)[i - lo - e - 1] == c);
                        assert(!is_digit(t.skip(e + 1)[i - lo - e - 1]));
                    } else if e > i - lo {
                        assert(t.take(e)[i - lo] == c);
                        assert(!is_digit(t.take(e)[i - lo]));
                    }
                }
            }
            return false;
        }
        i = i + 1;
    }
    match dot {
        None => {
            proof {
                assert forall|e: int| 0 <= e < t.len() implies #[trigger] is_digit(t[e]) by {
                    assert(t[e] == m@[e + lo]);
                }
                assert forall|e: int| 0 <= e < t.len() implies #[trigger] t[e] != '.' by {
                    assert(is_digit(t[e]));
                }
            }
            hi > lo
        },
        Some(d) => {
            proof {
                let e = (d - lo) as int;
                assert(t[e] == '.');
                assert(all_digits(t.take(e))) by {
                    assert forall|j: int| 0 <= j < t.take(e).len() implies #[trigger] is_digit(
                        t.take(e)[j],
                    ) by {
                        assert(t.take(e)[j] == m@[j + lo]);
                    }
                }
                assert(all_digits(t.skip(e + 1))) by {
                    assert forall|j: int| 0 <= j < t.skip(e + 1).len() implies #[trigger] is_digit(
                        t.skip(e + 1)[j],
                    ) by {
                        assert(t.skip(e + 1)[j] == m@[j + e + 1 + lo]);
                    }
                }
                assert(!all_digits(t)) by {
                    assert(!is_digit(t[e]));
                }
            }
            hi - lo > 1
        },
    }
}

/// Whether `x[lo..hi]` is an exponent.
fn exponent_ok(x: &[char], lo: usize, hi: usize) -> (r: bool)
    requires
        lo <= hi <= x.len(),
    ensures
        r == float_exponent(x@.subrange(lo as int, hi as int)),
{
    let ghost t = x@.subrange(lo as int, hi as int);
    let start = if lo < hi && (x[lo] == '+' || x[lo] == '-') { lo + 1 } else { lo };
    let ghost y = if t.len() > 0 && (t[0] == '+' || t[0] == '-') { t.drop_first() } else { t };
    assert(t.len() > 0 ==> t[0] == x@[lo as int]);
    assert(y =~= x@.subrange(start as int, hi as int));
    if start == hi {
        return false;
    }
    let mut i = start;
    while i < hi
        invariant
            start <= i <= hi <= x.len(),
            y == x@.subrange(start as int, hi as int),
            t == x@.subrange(lo as int, hi as int),
            y == (if t.len() > 0 && (t[0] == '+' || t[0] == '-') { t.drop_first() } else { t }),
            forall|j: int| start <= j < i ==> #[trigger] is_digit(x@[j]),
        decreases hi - i,
    {
        if !('0' <= x[i] && x[i] <= '9') {
            assert(!is_digit(y[i - start]));
            assert(!all_digits(y));
            return false;
        }
        i = i + 1;
    }
    assert(all_digits(y)) by {
        assert forall|j: int| 0 <= j < y.len() implies #[trigger] is_digit(y[j]) by {
            assert(y[j] == x@[j + start]);
        }
    }
    true
}

/// Whether a character sequence spells the (ASCII) text `s`.
fn chars_eq_str(b: &[char], lo: usize, s: &str) -> (r: bool)
    requires
        lo <= b.len(),
    ensures
        r == (b@.skip(lo as int) == s@),
{
    let cs = str_chars(s);
    if b.len() - lo != cs.len() {
        return false;
    }
    let mut i: usize = 0;
    while i < cs.len()
        invariant
            cs@ == s@,
            b.len() - lo == cs.len(),
            lo <= b.len(),
            i <= cs.len(),
            forall|j: int| 0 <= j < i ==> b@[j + lo] == cs@[j],
        decreases cs.len() - i,
    {
        if b[lo + i] != cs[i] {
            assert(b@.skip(lo as int)[i as int] != s@[i as int]);
            return false;
        }
        i = i + 1;
    }
    assert(b@.skip(lo as int) =~= s@);
    true
}

/// Whether `l[lo..]` is a number.
fn number_ok(l: &[char], lo: usize) -> (r: bool)
    requires
        lo <= l.len(),
    ensures
        r == is_number(l@.skip(lo as int)),
{
    let ghost lv = l@.skip(lo as int);
    let n = l.len();
    let mut k = lo;
    while k < n && l[k] != 'e'
        invariant
            lo <= k <= n,
            n == l.len(),
            forall|j: int| lo <= j < k ==> l@[j] != 'e',
        decreases n - k,
    {
        k = k + 1;
    }
    if k == n {
        let r = mantissa_ok(l, lo, n);
        proof {
            assert(l@.subrange(lo as int, n as int) =~= lv);
            assert forall|e: int| 0 <= e < lv.len() implies #[trigger] lv[e] != 'e' by {
                assert(lv[e] == l@[e + lo]);
            }
        }
        r
    } else {
        let r = mantissa_ok(l, lo, k) && exponent_ok(l, k + 1, n);
        proof {
            let kk = (k - lo) as int;
            assert(lv[kk] == 'e');
            assert(l@.subrange(lo as int, k as int) =~= lv.take(kk));
            assert(l@.subrange(k + 1, n as int) =~= lv.skip(kk + 1));
            assert forall|j: int| 0 <= j < kk implies #[trigger] lv[j] != 'e' by {
                assert(lv[j] == l@[j + lo]);
            }
            lemma_number_first_e(lv, kk);
        }
        r
    }
}

/// Where a number has an `e`, the first one separates mantissa and exponent.
proof fn lemma_number_first_e(lv: Seq<char>, kk: int)
    requires
        0 <= kk < lv.len(),
        lv[kk] == 'e',
        forall|j: int| 0 <= j < kk ==> #[trigger] lv[j] != 'e',
    ensures
        is_number(lv) == (float_mantissa(lv.take(kk)) && float_exponent(lv.skip(kk + 1))),
{
    assert(!float_mantissa(lv)) by {
        assert(!is_digit(lv[kk]));
        assert forall|d: int| 0 <= d < lv.len() && #[trigger] lv[d] == '.' implies !(all_digits(
            lv.take(d),
        ) && all_digits(lv.skip(d + 1))) by {
            if kk < d {
                assert(lv.take(d)[kk] == 'e');
                assert(!is_digit(lv.take(d)[kk]));
            } else {
                assert(lv.skip(d + 1)[kk - d - 1] == 'e');
                assert(!is_digit(lv.skip(d + 1)[kk - d - 1]));
            }
        }
    }
    assert forall|k2: int|
        0 <= k2 < lv.len() && #[trigger] lv[k2] == 'e' && k2 != kk implies !float_mantissa(
        lv.take(k2),
    ) by {
        let m = lv.take(k2);
        assert(k2 > kk);
        assert(m[kk] == 'e');
        assert(!is_digit(m[kk]));
        assert forall|d: int| 0 <= d < m.len() && #[trigger] m[d] == '.' implies !(all_digits(
            m.take(d),
        ) && all_digits(m.skip(d + 1))) by {
            if kk < d {
                assert(m.take(d)[kk] == 'e');
                assert(!is_digit(m.take(d)[kk]));
            } else {
                assert(m.skip(d + 1)[kk - d - 1] == 'e');
                assert(!is_digit(m.skip(d + 1)[kk - d - 1]));
            }
        }
    }
}

/// Whether `f64::from_str` accepts `s`.
pub fn float_text_ok(s: &str) -> (r: bool)
    ensures
        r == is_float_text(s@),
{
    let cs = str_chars(s);
    let mut l: Vec<char> = Vec::new();
    for i in 0..cs.len()
        invariant
            cs@ == s@,
            l@ == cs@.take(i as int).map_values(|c: char| lower(c)),
    {
        l.push(char_lower(cs[i]));
        assert(cs@.take(i + 1).map_values(|c: char| lower(c)) =~= cs@.take(i as int).map_values(
            |c: char| lower(c),
        ).push(lower(cs@[i as int])));
    }
    assert(cs@.take(cs.len() as int) =~= cs@);
    let signed = cs.len() > 0 && (cs[0] == '+' || cs[0] == '-');
    let lo: usize = if signed { 1 } else { 0 };
    let ghost b = if s@.len() > 0 && (s@[0] == '+' || s@[0] == '-') { s@.drop_first() } else { s@ };
    assert(b.map_values(|c: char| lower(c)) =~= l@.skip(lo as int));
    chars_eq_str(&l, lo, "inf") || chars_eq_str(&l, lo, "infinity") || chars_eq_str(&l, lo, "nan")
        || number_ok(&l, lo)
}

} // verus!
