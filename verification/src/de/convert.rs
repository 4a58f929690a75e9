//! Taking the value of a Rust type out of an object that was read: the
//! integer of an OMI, the string of an OMSTR, the bytes of an OMB. The
//! attributes of the object are dropped.
use std::borrow::Cow;
use vstd::prelude::*;

use crate::integer::{Int, IntView};
use crate::om::{cow_str, OpenMath};
use crate::ser::cow_bytes;

verus! {

/// A type whose values can be taken out of an object that was read.
pub trait FromOpenMath<'d>: Sized {
    /// The value the object holds, or why it holds none.
    fn from_openmath(om: OpenMath<'d>) -> (r: Result<Self, &'static str>);
}

/// The value of an OMI as an integer between `lo` and `hi`: `Err(err)` where
/// the integer is not stored inline or lies outside, `"Not an OMI"` where the
/// object is no OMI.
pub open spec fn omi_in(om: OpenMath<'_>, lo: int, hi: int, err: &'static str) -> Result<
    int,
    &'static str,
> {
    match om {
        OpenMath::OMI { int: i, .. } => match i@ {
            IntView::Small(v) => if lo <= v <= hi {
                Ok(v as int)
            } else {
                Err(err)
            },
            IntView::Big(_) => Err(err),
        },
        _ => Err("Not an OMI"),
    }
}

/// Computes [`omi_in`].
fn omi_range(om: &OpenMath<'_>, lo: i128, hi: i128, err: &'static str) -> (r: Result<
    i128,
    &'static str,
>)
    ensures
        omi_in(*om, lo as int, hi as int, err) == match r {
            Ok(v) => Ok(v as int),
            Err(e) => Err::<int, &'static str>(e),
        },
{
    match om {
        OpenMath::OMI { int: i, .. } => match i.is_i128() {
            Some(v) => if lo <= v && v <= hi {
                Ok(v)
            } else {
                Err(err)
            },
            None => Err(err),
        },
        _ => Err("Not an OMI"),
    }
}

/// A copy of a byte slice.
pub(crate) fn bytes_vec(b: &[u8]) -> (r: Vec<u8>)
    ensures
        r@ == b@,
{
    let mut r: Vec<u8> = Vec::new();
    let mut i: usize = 0;
    while i < b.len()
        invariant
            i <= b@.len(),
            r@ == b@.take(i as int),
        decreases b@.len() - i,
    {
        r.push(b[i]);
        i = i + 1;
        assert(r@ =~= b@.take(i as int));
    }
    assert(b@.take(b@.len() as int) =~= b@);
    r
}

impl<'d> FromOpenMath<'d> for Int<'d> {
    /// The integer of an OMI.
    fn from_openmath(om: OpenMath<'d>) -> (r: Result<Int<'d>, &'static str>)
        ensures
            r == match om {
                OpenMath::OMI { int: i, .. } => Ok(i),
                _ => Err::<Int<'d>, &'static str>("Not an integer"),
            },
    {
        match om {
            OpenMath::OMI { int: i, .. } => Ok(i),
            _ => Err("Not an integer"),
        }
    }
}

impl<'d> FromOpenMath<'d> for Cow<'d, str> {
    /// The string of an OMSTR.
    fn from_openmath(om: OpenMath<'d>) -> (r: Result<Cow<'d, str>, &'static str>)
        ensures
            r == match om {
                OpenMath::OMSTR { string, .. } => Ok(string),
                _ => Err::<Cow<'d, str>, &'static str>("Not an OMSTR"),
            },
    {
        match om {
            OpenMath::OMSTR { string, .. } => Ok(string),
            _ => Err("Not an OMSTR"),
        }
    }
}

impl<'d> FromOpenMath<'d> for String {
    /// The string of an OMSTR, owned.
    fn from_openmath(om: OpenMath<'d>) -> (r: Result<String, &'static str>)
        ensures
            match om {
                OpenMath::OMSTR { string, .. } => r matches Ok(s) && s@ == string@,
                _ => r == Err::<String, &'static str>("Not an OMSTR"),
            },
    {
        match om {
            OpenMath::OMSTR { string, .. } => Ok(cow_str(&string).to_owned()),
            _ => Err("Not an OMSTR"),
        }
    }
}

impl<'d> FromOpenMath<'d> for Cow<'d, [u8]> {
    /// The bytes of an OMB.
    fn from_openmath(om: OpenMath<'d>) -> (r: Result<Cow<'d, [u8]>, &'static str>)
        ensures
            r == match om {
                OpenMath::OMB { bytes, .. } => Ok(bytes),
                _ => Err::<Cow<'d, [u8]>, &'static str>("Not an OMB"),
            },
    {
        match om {
            OpenMath::OMB { bytes, .. } => Ok(bytes),
            _ => Err("Not an OMB"),
        }
    }
}

impl<'d> FromOpenMath<'d> for Vec<u8> {
    /// The bytes of an OMB, owned.
    fn from_openmath(om: OpenMath<'d>) -> (r: Result<Vec<u8>, &'static str>)
        ensures
            match om {
                OpenMath::OMB { bytes, .. } => r matches Ok(v) && v@ == bytes@,
                _ => r == Err::<Vec<u8>, &'static str>("Not an OMB"),
            },
    {
        match om {
            OpenMath::OMB { bytes, .. } => Ok(bytes_vec(cow_bytes(&bytes))),
            _ => Err("Not an OMB"),
        }
    }
}

impl<'d> FromOpenMath<'d> for i8 {
    /// The value of an OMI, where it is an `i8`.
    fn from_openmath(om: OpenMath<'d>) -> (r: Result<i8, &'static str>)
        ensures
            omi_in(om, i8::MIN as int, i8::MAX as int, "not an i8") == match r {
                Ok(v) => Ok(v as int),
                Err(e) => Err::<int, &'static str>(e),
            },
    {
        match omi_range(&om, i8::MIN as i128, i8::MAX as i128, "not an i8") {
            Ok(v) => Ok(v as i8),
            Err(e) => Err(e),
        }
    }
}

impl<'d> FromOpenMath<'d> for u8 {
    /// The value of an OMI, where it is a `u8`.
    fn from_openmath(om: OpenMath<'d>) -> (r: Result<u8, &'static str>)
        ensures
            omi_in(om, u8::MIN as int, u8::MAX as int, "not a u8") == match r {
                Ok(v) => Ok(v as int),
                Err(e) => Err::<int, &'static str>(e),
            },
    {
        match omi_range(&om, u8::MIN as i128, u8::MAX as i128, "not a u8") {
            Ok(v) => Ok(v as u8),
            Err(e) => Err(e),
        }
    }
}

impl<'d> FromOpenMath<'d> for i16 {
    /// The value of an OMI, where it is an `i16`.
    fn from_openmath(om: OpenMath<'d>) -> (r: Result<i16, &'static str>)
        ensures
            omi_in(om, i16::MIN as int, i16::MAX as int, "not an i16") == match r {
                Ok(v) => Ok(v as int),
                Err(e) => Err::<int, &'static str>(e),
            },
    {
        match omi_range(&om, i16::MIN as i128, i16::MAX as i128, "not an i16") {
            Ok(v) => Ok(v as i16),
            Err(e) => Err(e),
        }
    }
}

impl<'d> FromOpenMath<'d> for u16 {
    /// The value of an OMI, where it is a `u16`.
    fn from_openmath(om: OpenMath<'d>) -> (r: Result<u16, &'static str>)
        ensures
            omi_in(om, u16::MIN as int, u16::MAX as int, "not a u16") == match r {
                Ok(v) => Ok(v as int),
                Err(e) => Err::<int, &'static str>(e),
            },
    {
        match omi_range(&om, u16::MIN as i128, u16::MAX as i128, "not a u16") {
            Ok(v) => Ok(v as u16),
            Err(e) => Err(e),
        }
    }
}

impl<'d> FromOpenMath<'d> for u32 {
    /// The value of an OMI, where it is a `u32`.
    fn from_openmath(om: OpenMath<'d>) -> (r: Result<u32, &'static str>)
        ensures
            omi_in(om, u32::MIN as int, u32::MAX as int, "not a u32") == match r {
                Ok(v) => Ok(v as int),
                Err(e) => Err::<int, &'static str>(e),
            },
    {
        match omi_range(&om, u32::MIN as i128, u32::MAX as i128, "not a u32") {
            Ok(v) => Ok(v as u32),
            Err(e) => Err(e),
        }
    }
}

impl<'d> FromOpenMath<'d> for i32 {
    /// The value of an OMI, where it is an `i32`.
    fn from_openmath(om: OpenMath<'d>) -> (r: Result<i32, &'static str>)
        ensures
            omi_in(om, i32::MIN as int, i32::MAX as int, "not an i32") == match r {
                Ok(v) => Ok(v as int),
                Err(e) => Err::<int, &'static str>(e),
            },
    {
        match omi_range(&om, i32::MIN as i128, i32::MAX as i128, "not an i32") {
            Ok(v) => Ok(v as i32),
            Err(e) => Err(e),
        }
    }
}

impl<'d> FromOpenMath<'d> for i64 {
    /// The value of an OMI, where it is an `i64`.
    fn from_openmath(om: OpenMath<'d>) -> (r: Result<i64, &'static str>)
        ensures
            omi_in(om, i64::MIN as int, i64::MAX as int, "not an i64") == match r {
                Ok(v) => Ok(v as int),
                Err(e) => Err::<int, &'static str>(e),
            },
    {
        match omi_range(&om, i64::MIN as i128, i64::MAX as i128, "not an i64") {
            Ok(v) => Ok(v as i64),
            Err(e) => Err(e),
        }
    }
}

impl<'d> FromOpenMath<'d> for u64 {
    /// The value of an OMI, where it is a `u64`.
    fn from_openmath(om: OpenMath<'d>) -> (r: Result<u64, &'static str>)
        ensures
            omi_in(om, u64::MIN as int, u64::MAX as int, "not a u64") == match r {
                Ok(v) => Ok(v as int),
                Err(e) => Err::<int, &'static str>(e),
            },
    {
        match omi_range(&om, u64::MIN as i128, u64::MAX as i128, "not a u64") {
            Ok(v) => Ok(v as u64),
            Err(e) => Err(e),
        }
    }
}

impl<'d> FromOpenMath<'d> for i128 {
    /// The value of an OMI, where it is an `i128`.
    fn from_openmath(om: OpenMath<'d>) -> (r: Result<i128, &'static str>)
        ensures
            omi_in(om, i128::MIN as int, i128::MAX as int, "not an i128") == match r {
                Ok(v) => Ok(v as int),
                Err(e) => Err::<int, &'static str>(e),
            },
    {
        match omi_range(&om, i128::MIN as i128, i128::MAX as i128, "not an i128") {
            Ok(v) => Ok(v as i128),
            Err(e) => Err(e),
        }
    }
}

impl<'d> FromOpenMath<'d> for isize {
    /// The value of an OMI, where it is an `isize`.
    fn from_openmath(om: OpenMath<'d>) -> (r: Result<isize, &'static str>)
        ensures
            omi_in(om, isize::MIN as int, isize::MAX as int, "not an isize") == match r {
                Ok(v) => Ok(v as int),
                Err(e) => Err::<int, &'static str>(e),
            },
    {
        match omi_range(&om, isize::MIN as i128, isize::MAX as i128, "not an isize") {
            Ok(v) => Ok(v as isize),
            Err(e) => Err(e),
        }
    }
}

impl<'d> FromOpenMath<'d> for usize {
    /// The value of an OMI, where it is a `usize`.
    fn from_openmath(om: OpenMath<'d>) -> (r: Result<usize, &'static str>)
        ensures
            omi_in(om, usize::MIN as int, usize::MAX as int, "not a usize") == match r {
                Ok(v) => Ok(v as int),
                Err(e) => Err::<int, &'static str>(e),
            },
    {
        match omi_range(&om, usize::MIN as i128, usize::MAX as i128, "not a usize") {
            Ok(v) => Ok(v as usize),
            Err(e) => Err(e),
        }
    }
}

} // verus!
