//! The kinds of OpenMath objects.
use vstd::prelude::*;

verus! {

/// All OpenMath tags/kinds
#[derive(Debug, Clone, Copy, PartialEq, Eq, Structural, Hash)]
pub enum OMKind {
    /// Integers in the mathematical sense, with no predefined range.
    OMI,
    /// Double precision floating-point numbers following the IEEE 754-1985 standard.
    OMF,
    /// A Unicode Character string.
    OMSTR,
    /// A sequence of bytes.
    OMB,
    /// A variable.
    OMV,
    /// A symbol: a name, a Content Dictionary name, and optionally a Content Dictionary base URI.
    OMS,
    /// An application of an object to arguments.
    OMA,
    /// A binding of variables in a body by a binder.
    OMBIND,
    /// An error: a symbol applied to objects or foreign objects.
    OME,
    /// An attribution of key-value pairs to an object.
    OMATTR,
    /// A foreign object, optionally with an encoding.
    OMFOREIGN,
    /// A reference to another object.
    OMR,
}

/// The number of each kind.
pub open spec fn kind_number(k: OMKind) -> u8 {
    match k {
        OMKind::OMI => 0,
        OMKind::OMF => 1,
        OMKind::OMSTR => 2,
        OMKind::OMB => 3,
        OMKind::OMV => 4,
        OMKind::OMS => 5,
        OMKind::OMA => 6,
        OMKind::OMBIND => 7,
        OMKind::OME => 8,
        OMKind::OMATTR => 9,
        OMKind::OMFOREIGN => 10,
        OMKind::OMR => 11,
    }
}

/// The name of each kind, which is also its XML tag.
pub open spec fn kind_name(k: OMKind) -> Seq<char> {
    match k {
        OMKind::OMI => "OMI"@,
        OMKind::OMF => "OMF"@,
        OMKind::OMSTR => "OMSTR"@,
        OMKind::OMB => "OMB"@,
        OMKind::OMV => "OMV"@,
        OMKind::OMS => "OMS"@,
        OMKind::OMA => "OMA"@,
        OMKind::OMBIND => "OMBIND"@,
        OMKind::OME => "OME"@,
        OMKind::OMATTR => "OMATTR"@,
        OMKind::OMFOREIGN => "OMFOREIGN"@,
        OMKind::OMR => "OMR"@,
    }
}

impl OMKind {
    /// as static string
    pub fn as_str(self) -> (r: &'static str)
        ensures
            r@ == kind_name(self),
    {
        match self {
            OMKind::OMI => "OMI",
            OMKind::OMF => "OMF",
            OMKind::OMSTR => "OMSTR",
            OMKind::OMB => "OMB",
            OMKind::OMV => "OMV",
            OMKind::OMS => "OMS",
            OMKind::OMA => "OMA",
            OMKind::OMBIND => "OMBIND",
            OMKind::OME => "OME",
            OMKind::OMATTR => "OMATTR",
            OMKind::OMFOREIGN => "OMFOREIGN",
            OMKind::OMR => "OMR",
        }
    }

    /// The number of this kind.
    pub fn as_u8(self) -> (r: u8)
        ensures
            r == kind_number(self),
    {
        match self {
            OMKind::OMI => 0,
            OMKind::OMF => 1,
            OMKind::OMSTR => 2,
            OMKind::OMB => 3,
            OMKind::OMV => 4,
            OMKind::OMS => 5,
            OMKind::OMA => 6,
            OMKind::OMBIND => 7,
            OMKind::OME => 8,
            OMKind::OMATTR => 9,
            OMKind::OMFOREIGN => 10,
            OMKind::OMR => 11,
        }
    }

    /// convert from a byte
    pub fn from_u8(u: u8) -> (r: Option<OMKind>)
        ensures
            match r {
                Some(k) => kind_number(k) == u,
                None => u > 11,
            },
    {
        match u {
            0 => Some(OMKind::OMI),
            1 => Some(OMKind::OMF),
            2 => Some(OMKind::OMSTR),
            3 => Some(OMKind::OMB),
            4 => Some(OMKind::OMV),
            5 => Some(OMKind::OMS),
            6 => Some(OMKind::OMA),
            7 => Some(OMKind::OMBIND),
            8 => Some(OMKind::OME),
            9 => Some(OMKind::OMATTR),
            10 => Some(OMKind::OMFOREIGN),
            11 => Some(OMKind::OMR),
            _ => None,
        }
    }
}

/// Numbering a kind and reading the number back gives the kind; every number
/// that names a kind names exactly one.
pub proof fn lemma_kind_number_roundtrip(k: OMKind, j: OMKind)
    ensures
        kind_number(k) <= 11,
        kind_number(k) == kind_number(j) ==> k == j,
{
}

} // verus!
