//! OpenMath objects: the integer type, base64, and writers for the XML and
//! display encodings.
use vstd::prelude::*;

pub mod text;
mod integer;
mod int_order;
pub mod numeric;
pub mod base64;
pub mod om;
pub mod ser;
pub mod de;
pub mod json;
mod owned;
mod kind;

pub use om::{Attr, BoundVariable, OMMaybeForeign, OpenMath};
pub use ser::OMDisplay;
pub use kind::{OMKind, kind_name, kind_number, lemma_kind_number_roundtrip};
pub use integer::{Int, IntView, I, parse_int, big_text, int_text, lemma_int_text_roundtrip, lemma_parsed_text_roundtrip};
pub use int_order::{chars_order, int_order};

verus! {

/// The base URI of official OpenMath dictionaries
pub const CD_BASE: &'static str = "http://www.openmath.org/cd";

/// The cdbase in effect where no other is declared
pub const OPENMATH_BASE_URI: &'static str = "http://www.openmath.org/cd";

/// XML namespace for OpenMath elements
pub const XML_NS: &'static str = "http://www.openmath.org/OpenMath";

/// XML namespace for OpenMath elements, as the writer declares it
pub const XML_NAMESPACE: &'static str = "http://www.openmath.org/OpenMath";

} // verus!
