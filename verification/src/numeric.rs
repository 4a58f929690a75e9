//! The numeric value of signed decimal texts, and comparing two of them by
//! value without converting them to machine integers.
use vstd::prelude::*;

use crate::text::{
    all_digits, digit_value, digits_value, int_decimal, is_digit, lemma_nat_decimal, str_chars,
};

verus! {

/// A signed decimal text: an optional `+` or `-`, then at least one digit,
/// and digits only.
pub open spec fn signed_digits(s: Seq<char>) -> bool {
    let d = if s.len() > 0 && (s[0] == '+' || s[0] == '-') {
        s.drop_first()
    } else {
        s
    };
    d.len() > 0 && all_digits(d)
}

/// The value of a signed decimal text.
pub open spec fn text_value(s: Seq<char>) -> int {
    let d = if s.len() > 0 && (s[0] == '+' || s[0] == '-') {
        s.drop_first()
    } else {
        s
    };
    if s.len() > 0 && s[0] == '-' {
        -digits_value(d)
    } else {
        digits_value(d)
    }
}

/// The three-way comparison of two integers: `-1`, `0` or `1`.
pub open spec fn compare_int(x: int, y: int) -> i8 {
    if x < y {
        -1i8
    } else if x > y {
        1i8
    } else {
        0i8
    }
}

/// Ten to the power `n`.
pub open spec fn pow10(n: nat) -> nat
    decreases n,
{
    if n == 0 {
        1
    } else {
        10 * pow10((n - 1) as nat)
    }
}

/// Powers of ten are positive and grow with the exponent.
pub proof fn lemma_pow10_mono(m: nat, n: nat)
    requires
        m <= n,
    ensures
        1 <= pow10(m) <= pow10(n),
    decreases n,
{
    if n > m {
        lemma_pow10_mono(m, (n - 1) as nat);
    } else if n > 0 {
        lemma_pow10_mono(0, (n - 1) as nat);
    }
}

/// A part of a digit sequence is a digit sequence.
proof fn lemma_digits_sub(s: Seq<char>, i: int, j: int)
    requires
        all_digits(s),
        0 <= i <= j <= s.len(),
    ensures
        all_digits(s.subrange(i, j)),
{
    assert forall|k: int| 0 <= k < s.subrange(i, j).len() implies #[trigger] is_digit(
        s.subrange(i, j)[k],
    ) by {
        assert(is_digit(s[i + k]));
    }
}

/// The value of two digit sequences one after the other.
pub proof fn lemma_digits_concat(a: Seq<char>, b: Seq<char>)
    ensures
        digits_value(a + b) == digits_value(a) * pow10(b.len()) + digits_value(b),
    decreases b.len(),
{
    if b.len() == 0 {
        assert(a + b =~= a);
        assert(digits_value(b) == 0);
        assert(pow10(0) == 1);
        assert(digits_value(a) * 1 == digits_value(a));
    } else {
        let bl = b.drop_last();
        assert((a + b).drop_last() =~= a + bl);
        assert((a + b).last() == b.last());
        lemma_digits_concat(a, bl);
        let x = digits_value(a);
        let p = pow10(bl.len());
        let y = digits_value(bl);
        let z = digit_value(b.last());
        assert(pow10(b.len()) == 10 * p);
        assert(digits_value(b) == y * 10 + z);
        assert(digits_value(a + b) == digits_value(a + bl) * 10 + z);
        assert((x * p + y) * 10 + z == x * (10 * p) + (y * 10 + z)) by (nonlinear_arith);
    }
}

/// The value of a digit sequence lies below ten to the power of its length.
pub proof fn lemma_digits_upper(d: Seq<char>)
    requires
        all_digits(d),
    ensures
        0 <= digits_value(d) < pow10(d.len()),
    decreases d.len(),
{
    if d.len() > 0 {
        let dl = d.drop_last();
        lemma_digits_sub(d, 0, d.len() - 1);
        assert(dl =~= d.subrange(0, d.len() - 1));
        lemma_digits_upper(dl);
        assert(is_digit(d.last()));
        let x = digits_value(dl);
        let p = pow10(dl.len());
        let z = digit_value(d.last());
        assert(0 <= z <= 9);
        assert(0 <= x * 10 + z < 10 * p) by (nonlinear_arith)
            requires
                0 <= x < p,
                0 <= z <= 9,
        ;
    }
}

/// A digit sequence without a leading zero has at least the value of ten to
/// the power of its length less one.
pub proof fn lemma_digits_lower(d: Seq<char>)
    requires
        all_digits(d),
        d.len() > 0,
        d[0] != '0',
    ensures
        digits_value(d) >= pow10((d.len() - 1) as nat),
{
    let a = d.take(1);
    let b = d.skip(1);
    assert(a + b =~= d);
    lemma_digits_concat(a, b);
    assert(a.drop_last() =~= Seq::<char>::empty());
    assert(a.last() == d[0]);
    assert(digits_value(a.drop_last()) == 0);
    assert(is_digit(d[0]));
    assert(digits_value(a) == digit_value(d[0]));
    lemma_digits_sub(d, 1, d.len() as int);
    assert(b =~= d.subrange(1, d.len() as int));
    lemma_digits_upper(b);
    let x = digits_value(a);
    let p = pow10(b.len());
    assert(x >= 1);
    assert(x * p + digits_value(b) >= p) by (nonlinear_arith)
        requires
            x >= 1,
            p >= 0,
            digits_value(b) >= 0,
    ;
}

/// Leading zeros do not change the value of digits.
pub proof fn lemma_digits_zeros(z: Seq<char>, d: Seq<char>)
    requires
        forall|k: int| 0 <= k < z.len() ==> #[trigger] z[k] == '0',
    ensures
        digits_value(z + d) == digits_value(d),
    decreases z.len(),
{
    lemma_zeros_value(z);
    lemma_digits_concat(z, d);
}

/// Zeros are worth zero.
proof fn lemma_zeros_value(z: Seq<char>)
    requires
        forall|k: int| 0 <= k < z.len() ==> #[trigger] z[k] == '0',
    ensures
        digits_value(z) == 0,
    decreases z.len(),
{
    if z.len() > 0 {
        let zl = z.drop_last();
        assert forall|k: int| 0 <= k < zl.len() implies #[trigger] zl[k] == '0' by {
            assert(zl[k] == z[k]);
        }
        lemma_zeros_value(zl);
        assert(z.last() == '0');
    }
}

/// Of two digit sequences of the same length that agree up to index `k`,
/// the one with the smaller digit at `k` has the smaller value.
pub proof fn lemma_digits_lex(d: Seq<char>, e: Seq<char>, k: int)
    requires
        all_digits(d),
        all_digits(e),
        d.len() == e.len(),
        0 <= k < d.len(),
        d.take(k) == e.take(k),
        digit_value(d[k]) < digit_value(e[k]),
    ensures
        digits_value(d) < digits_value(e),
{
    let n = d.len() as int;
    let dh = d.take(k + 1);
    let eh = e.take(k + 1);
    let dt = d.skip(k + 1);
    let et = e.skip(k + 1);
    assert(dh + dt =~= d);
    assert(eh + et =~= e);
    lemma_digits_concat(dh, dt);
    lemma_digits_concat(eh, et);
    assert(dh.drop_last() =~= d.take(k));
    assert(eh.drop_last() =~= e.take(k));
    lemma_digits_sub(d, k + 1, n);
    lemma_digits_sub(e, k + 1, n);
    assert(dt =~= d.subrange(k + 1, n));
    assert(et =~= e.subrange(k + 1, n));
    lemma_digits_upper(dt);
    lemma_digits_upper(et);
    let pre = digits_value(d.take(k));
    let p = pow10(dt.len());
    let a = pre * 10 + digit_value(d[k]);
    let b = pre * 10 + digit_value(e[k]);
    assert(dt.len() == et.len());
    assert(a + 1 <= b);
    assert(a * p + digits_value(dt) < b * p + digits_value(et)) by (nonlinear_arith)
        requires
            a + 1 <= b,
            0 <= digits_value(dt) < p,
            0 <= digits_value(et),
    ;
}

/// The decimal text of an integer is a signed decimal text of its value.
pub proof fn lemma_int_decimal_value(v: int)
    ensures
        signed_digits(int_decimal(v)),
        text_value(int_decimal(v)) == v,
{
    let s = int_decimal(v);
    if v < 0 {
        lemma_nat_decimal((-v) as nat);
        assert(s.drop_first() =~= crate::text::nat_decimal((-v) as nat));
    } else {
        lemma_nat_decimal(v as nat);
        let d = crate::text::nat_decimal(v as nat);
        assert(is_digit(d[0]));
    }
}

/// The first index from `start` on that holds no `0`, or the length.
fn skip_zeros(x: &Vec<char>, start: usize) -> (r: usize)
    requires
        start <= x.len(),
    ensures
        start <= r <= x.len(),
        forall|j: int| start <= j < r ==> x@[j] == '0',
        r < x.len() ==> x@[r as int] != '0',
{
    let mut i = start;
    while i < x.len() && x[i] == '0'
        invariant
            start <= i <= x.len(),
            forall|j: int| start <= j < i ==> x@[j] == '0',
        decreases x.len() - i,
    {
        i = i + 1;
    }
    i
}

/// Compares the values of the digits of `x` from `i` on and of `y` from `j`
/// on, neither with a leading zero.
fn magnitude_compare(x: &Vec<char>, i: usize, y: &Vec<char>, j: usize) -> (r: i8)
    requires
        i <= x.len(),
        j <= y.len(),
        all_digits(x@.skip(i as int)),
        all_digits(y@.skip(j as int)),
        i < x.len() ==> x@[i as int] != '0',
        j < y.len() ==> y@[j as int] != '0',
    ensures
        r == compare_int(digits_value(x@.skip(i as int)), digits_value(y@.skip(j as int))),
{
    let ghost d = x@.skip(i as int);
    let ghost e = y@.skip(j as int);
    let la = x.len() - i;
    let lb = y.len() - j;
    proof {
        lemma_digits_upper(d);
        lemma_digits_upper(e);
        if la > 0 {
            lemma_digits_lower(d);
        }
        if lb > 0 {
            lemma_digits_lower(e);
        }
    }
    if la < lb {
        proof {
            lemma_pow10_mono(la as nat, (lb - 1) as nat);
            if la == 0 {
                assert(d.len() == 0);
            }
        }
        return -1;
    }
    if la > lb {
        proof {
            lemma_pow10_mono(lb as nat, (la - 1) as nat);
            if lb == 0 {
                assert(e.len() == 0);
            }
        }
        return 1;
    }
    let mut k: usize = 0;
    while k < la && x[i + k] == y[j + k]
        invariant
            la == lb,
            la == x.len() - i,
            lb == y.len() - j,
            d == x@.skip(i as int),
            e == y@.skip(j as int),
            k <= la,
            d.take(k as int) == e.take(k as int),
        decreases la - k,
    {
        assert(d.take(k + 1) =~= d.take(k as int).push(d[k as int]));
        assert(e.take(k + 1) =~= e.take(k as int).push(e[k as int]));
        k = k + 1;
    }
    if k == la {
        assert(d =~= d.take(k as int));
        assert(e =~= e.take(k as int));
        return 0;
    }
    assert(d[k as int] == x@[i + k]);
    assert(e[k as int] == y@[j + k]);
    assert(is_digit(d[k as int]) && is_digit(e[k as int]));
    if x[i + k] < y[j + k] {
        proof {
            lemma_digits_lex(d, e, k as int);
        }
        -1
    } else {
        proof {
            lemma_digits_lex(e, d, k as int);
        }
        1
    }
}

/// Where the digits of a signed decimal text start, and whether it is negative.
fn sign_of(x: &Vec<char>) -> (r: (usize, bool))
    requires
        signed_digits(x@),
    ensures
        r.0 <= 1,
        r.0 < x.len(),
        r.1 == (x@[0] == '-'),
        (r.0 == 1) == (x@[0] == '+' || x@[0] == '-'),
        x@.skip(r.0 as int) == (if x@[0] == '+' || x@[0] == '-' {
            x@.drop_first()
        } else {
            x@
        }),
{
    if x[0] == '+' || x[0] == '-' {
        assert(x@.skip(1) =~= x@.drop_first());
        (1, x[0] == '-')
    } else {
        assert(x@.skip(0) =~= x@);
        (0, false)
    }
}

/// Compares two signed decimal texts by value: `-1`, `0` or `1`.
pub fn text_compare(a: &str, b: &str) -> (r: i8)
    requires
        signed_digits(a@),
        signed_digits(b@),
    ensures
        r == compare_int(text_value(a@), text_value(b@)),
{
    let x = str_chars(a);
    let y = str_chars(b);
    let (sa, na) = sign_of(&x);
    let (sb, nb) = sign_of(&y);
    let za = skip_zeros(&x, sa);
    let zb = skip_zeros(&y, sb);
    let ghost da = x@.skip(sa as int);
    let ghost db = y@.skip(sb as int);
    let ghost ma = x@.skip(za as int);
    let ghost mb = y@.skip(zb as int);
    proof {
        let za0 = x@.subrange(sa as int, za as int);
        let zb0 = y@.subrange(sb as int, zb as int);
        assert(da =~= za0 + ma);
        assert(db =~= zb0 + mb);
        assert forall|k: int| 0 <= k < za0.len() implies #[trigger] za0[k] == '0' by {
            assert(za0[k] == x@[sa + k]);
        }
        assert forall|k: int| 0 <= k < zb0.len() implies #[trigger] zb0[k] == '0' by {
            assert(zb0[k] == y@[sb + k]);
        }
        lemma_digits_zeros(za0, ma);
        lemma_digits_zeros(zb0, mb);
        lemma_digits_sub(da, za - sa, da.len() as int);
        lemma_digits_sub(db, zb - sb, db.len() as int);
        assert(ma =~= da.subrange(za - sa, da.len() as int));
        assert(mb =~= db.subrange(zb - sb, db.len() as int));
        lemma_digits_upper(ma);
        lemma_digits_upper(mb);
        if za < x.len() {
            lemma_digits_lower(ma);
            lemma_pow10_mono(0, (ma.len() - 1) as nat);
        }
        if zb < y.len() {
            lemma_digits_lower(mb);
            lemma_pow10_mono(0, (mb.len() - 1) as nat);
        }
    }
    let ca: i8 = if za == x.len() {
        0
    } else if na {
        -1
    } else {
        1
    };
    let cb: i8 = if zb == y.len() {
        0
    } else if nb {
        -1
    } else {
        1
    };
    if ca < cb {
        return -1;
    }
    if ca > cb {
        return 1;
    }
    if ca == 0 {
        return 0;
    }
    if ca == 1 {
        magnitude_compare(&x, za, &y, zb)
    } else {
        magnitude_compare(&y, zb, &x, za)
    }
}

} // verus!
