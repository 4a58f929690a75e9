//! Reading OpenMath objects from OpenMath XML.
use vstd::prelude::*;
use vstd::string::StringSliceAdditionalSpecFns;

pub mod convert;
pub mod events;
pub mod grammar;
pub mod law;
pub mod written;
pub mod xml;

use crate::de::events::xml_tokens;
use crate::de::grammar::{read_obj, read_om, St};
use crate::de::xml::{om_res, FromString, XmlReadError};

pub use crate::json::de::OMFromSerde;
use crate::om::OpenMath;
use crate::CD_BASE;

verus! {

impl<'s> OpenMath<'s> {
    /// Reads an object from a string of OpenMath XML: the first object in it,
    /// with [`CD_BASE`] as the cdbase in effect. Fails iff the string is no
    /// XML, or not OpenMath where the object stands.
    pub fn from_openmath_xml(input: &'s str) -> (r: Result<OpenMath<'s>, XmlReadError>)
        ensures
            read_om(xml_tokens(input@), input.spec_bytes(), St { i: 0, now: 0 }, CD_BASE@)
                == om_res(r),
    {
        FromString::new(input).read(None)
    }
}

/// The object of an `<OMOBJ>` element.
pub struct OMObject<'s>(pub OpenMath<'s>);

impl<'s> OMObject<'s> {
    /// The object.
    pub fn into_inner(self) -> (r: OpenMath<'s>)
        ensures
            r == self.0,
    {
        self.0
    }

    /// Reads the object of an `<OMOBJ>` element from a string of OpenMath
    /// XML; the OMOBJ's `cdbase` attribute, where it has one, is the cdbase in
    /// effect, else [`CD_BASE`]. Fails iff the string is no XML, or holds
    /// something else before the OMOBJ than whitespace and other events than
    /// tags, or is not OpenMath where the object stands.
    pub fn from_openmath_xml(input: &'s str) -> (r: Result<OpenMath<'s>, XmlReadError>)
        ensures
            read_obj(xml_tokens(input@), input.spec_bytes(), St { i: 0, now: 0 }) == om_res(r),
    {
        FromString::new(input).read_obj()
    }
}

} // verus!
