//! Equality and order of integers: equal where they hold the same value in
//! the same form; ordered by numeric value, and where two values are equal
//! but written differently (leading zeros, a `+`), by their text.
use std::cmp::Ordering;
use vstd::prelude::*;
use vstd::std_specs::cmp::{PartialEqSpecImpl, PartialOrdSpecImpl};

use crate::integer::{
    cow_text, int_text, int_value, lemma_int_text_value, lemma_int_view, lemma_wf_ok, Int, IntView, I,
};
use crate::numeric::text_compare;
use crate::text::{chars_from, lemma_chars_from_next, lemma_chars_from_zero, str_chars, str_eq};

verus! {

/// Texts in lexicographic order, character by character; a proper prefix
/// comes first.
pub open spec fn chars_order(a: Seq<char>, b: Seq<char>) -> Ordering
    decreases a.len(),
{
    if a.len() == 0 {
        if b.len() == 0 {
            Ordering::Equal
        } else {
            Ordering::Less
        }
    } else if b.len() == 0 {
        Ordering::Greater
    } else if a[0] < b[0] {
        Ordering::Less
    } else if a[0] > b[0] {
        Ordering::Greater
    } else {
        chars_order(a.drop_first(), b.drop_first())
    }
}

/// The order of integers: by numeric value, and where the values are equal,
/// by their decimal text (which tells apart only big integers written with
/// leading zeros or a `+`).
pub open spec fn int_order(a: IntView, b: IntView) -> Ordering {
    if int_value(a) < int_value(b) {
        Ordering::Less
    } else if int_value(a) > int_value(b) {
        Ordering::Greater
    } else {
        chars_order(int_text(a), int_text(b))
    }
}

/// Every text is equal to itself in the order of texts.
proof fn lemma_chars_order_refl(s: Seq<char>)
    ensures
        chars_order(s, s) == Ordering::Equal,
    decreases s.len(),
{
    if s.len() > 0 {
        lemma_chars_order_refl(s.drop_first());
    }
}

/// The order of two texts, character by character.
fn text_order(a: &str, b: &str) -> (r: Ordering)
    ensures
        r == chars_order(a@, b@),
{
    let x = str_chars(a);
    let y = str_chars(b);
    let mut i: usize = 0;
    proof {
        lemma_chars_from_zero(x@);
        lemma_chars_from_zero(y@);
    }
    while i < x.len() && i < y.len()
        invariant
            i <= x.len(),
            i <= y.len(),
            chars_order(a@, b@) == chars_order(chars_from(x@, i), chars_from(y@, i)),
        decreases x.len() - i,
    {
        proof {
            lemma_chars_from_next(x@, i);
            lemma_chars_from_next(y@, i);
        }
        if x[i] < y[i] {
            return Ordering::Less;
        }
        if x[i] > y[i] {
            return Ordering::Greater;
        }
        i = i + 1;
    }
    if i < x.len() {
        proof {
            lemma_chars_from_next(x@, i);
        }
        Ordering::Greater
    } else if i < y.len() {
        proof {
            lemma_chars_from_next(y@, i);
        }
        Ordering::Less
    } else {
        Ordering::Equal
    }
}

impl<'l> PartialEq for Int<'l> {
    fn eq(&self, other: &Int<'l>) -> (r: bool) {
        proof {
            lemma_int_view(*self);
            lemma_int_view(*other);
        }
        match (&self.0, &other.0) {
            (I::Stack(a), I::Stack(b)) => *a == *b,
            (I::Heap(a), I::Heap(b)) => str_eq(cow_text(a), cow_text(b)),
            _ => false,
        }
    }
}

impl<'l> PartialEqSpecImpl for Int<'l> {
    open spec fn obeys_eq_spec() -> bool {
        true
    }

    open spec fn eq_spec(&self, other: &Int<'l>) -> bool {
        self@ == other@
    }
}

impl<'l> PartialOrd for Int<'l> {
    fn partial_cmp(&self, other: &Int<'l>) -> (r: Option<Ordering>) {
        proof {
            use_type_invariant(self);
            use_type_invariant(other);
            lemma_int_view(*self);
            lemma_int_view(*other);
            lemma_wf_ok(*self);
            lemma_wf_ok(*other);
            lemma_int_text_value(self@);
            lemma_int_text_value(other@);
        }
        if let (I::Stack(a), I::Stack(b)) = (&self.0, &other.0) {
            if *a < *b {
                return Some(Ordering::Less);
            } else if *a > *b {
                return Some(Ordering::Greater);
            } else {
                proof {
                    lemma_chars_order_refl(int_text(self@));
                }
                return Some(Ordering::Equal);
            }
        }
        let ta = self.to_string();
        let tb = other.to_string();
        let c = text_compare(ta.as_str(), tb.as_str());
        if c < 0 {
            Some(Ordering::Less)
        } else if c > 0 {
            Some(Ordering::Greater)
        } else {
            Some(text_order(ta.as_str(), tb.as_str()))
        }
    }
}

impl<'l> PartialOrdSpecImpl for Int<'l> {
    open spec fn obeys_partial_cmp_spec() -> bool {
        true
    }

    open spec fn partial_cmp_spec(&self, other: &Int<'l>) -> Option<Ordering> {
        Some(int_order(self@, other@))
    }
}

} // verus!
