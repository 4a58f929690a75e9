//! The JSON encoding of OpenMath objects, over a JSON value tree of the
//! library's own: writing objects as JSON values and reading them back.
use vstd::prelude::*;

pub mod spec;
pub mod de;
pub mod enc;
pub mod law;
pub mod integer;

use crate::base64::Error as Base64Error;

verus! {

/// A JSON value. Numbers keep the text they are written with; an object
/// keeps its members in order.
#[derive(Debug)]
pub enum Json {
    Null,
    Bool(bool),
    Number(String),
    Str(String),
    Array(Vec<Json>),
    Object(Vec<(String, Json)>),
}

/// What a JSON value holds, as mathematical values.
pub ghost enum JsonView {
    Null,
    Bool(bool),
    Number(Seq<char>),
    Str(Seq<char>),
    Array(Seq<JsonView>),
    Object(Seq<(Seq<char>, JsonView)>),
}

/// The view of a JSON value.
pub open spec fn json_view(j: Json) -> JsonView
    decreases j, 1int,
{
    match j {
        Json::Null => JsonView::Null,
        Json::Bool(b) => JsonView::Bool(b),
        Json::Number(s) => JsonView::Number(s@),
        Json::Str(s) => JsonView::Str(s@),
        Json::Array(v) => JsonView::Array(jsons_view(v@)),
        Json::Object(m) => JsonView::Object(members_view(m@)),
    }
}

/// The views of a sequence of JSON values.
pub open spec fn jsons_view(s: Seq<Json>) -> Seq<JsonView>
    decreases s, 1int,
{
    if s.len() == 0 {
        seq![]
    } else {
        jsons_view(s.drop_last()).push(json_view(s.last()))
    }
}

/// The views of the members of a JSON object.
pub open spec fn members_view(s: Seq<(String, Json)>) -> Seq<(Seq<char>, JsonView)>
    decreases s, 1int,
{
    if s.len() == 0 {
        seq![]
    } else {
        members_view(s.drop_last()).push((s.last().0@, json_view(s.last().1)))
    }
}

/// The view of each value is the value of the view.
pub proof fn lemma_jsons_view(s: Seq<Json>)
    ensures
        jsons_view(s).len() == s.len(),
        forall|i: int| 0 <= i < s.len() ==> #[trigger] jsons_view(s)[i] == json_view(s[i]),
    decreases s.len(),
{
    if s.len() > 0 {
        lemma_jsons_view(s.drop_last());
        assert forall|i: int| 0 <= i < s.len() implies #[trigger] jsons_view(s)[i] == json_view(
            s[i],
        ) by {
            if i < s.len() - 1 {
                assert(s.drop_last()[i] == s[i]);
            }
        }
    }
}

/// The view of each member is the member of the view.
pub proof fn lemma_members_view(s: Seq<(String, Json)>)
    ensures
        members_view(s).len() == s.len(),
        forall|i: int|
            0 <= i < s.len() ==> #[trigger] members_view(s)[i] == (s[i].0@, json_view(s[i].1)),
    decreases s.len(),
{
    if s.len() > 0 {
        lemma_members_view(s.drop_last());
        assert forall|i: int| 0 <= i < s.len() implies #[trigger] members_view(s)[i] == (
            s[i].0@,
            json_view(s[i].1),
        ) by {
            if i < s.len() - 1 {
                assert(s.drop_last()[i] == s[i]);
            }
        }
    }
}

/// Adding a value to an array adds its view.
pub proof fn lemma_jsons_view_push(s: Seq<Json>, x: Json)
    ensures
        jsons_view(s.push(x)) == jsons_view(s).push(json_view(x)),
{
    assert(s.push(x).drop_last() =~= s);
}

/// Adding a member to an object adds its view.
pub proof fn lemma_members_view_push(s: Seq<(String, Json)>, k: String, x: Json)
    ensures
        members_view(s.push((k, x))) == members_view(s).push((k@, json_view(x))),
{
    assert(s.push((k, x)).drop_last() =~= s);
}

/// What went wrong in reading an OpenMath object from JSON.
pub ghost enum JErr {
    NotAnObject,
    MissingKind,
    InvalidKind(Seq<char>),
    InvalidKey(Seq<char>),
    Missing(Seq<char>),
    Conflict(Seq<char>),
    WrongType(Seq<char>),
    InvalidInteger(Seq<char>),
    InvalidFloat(Seq<char>),
    InvalidByte,
    Base64(Base64Error),
    Hex,
    ForeignNotAllowed,
    NotSupported,
    VarExpected,
    BadPair,
}

/// Errors in reading an OpenMath object from JSON.
#[derive(Debug)]
pub enum JsonReadError {
    /// An OpenMath object must be a JSON object.
    NotAnObject,
    /// An object without `kind`.
    MissingKind,
    /// A `kind` that names no kind of object.
    InvalidKind(String),
    /// A key that the kind of the object does not have.
    InvalidKey(String),
    /// A required key is missing.
    Missing(&'static str),
    /// More than one of alternative keys, in an object of the given kind.
    Conflict(&'static str),
    /// The value of the key has the wrong JSON type.
    WrongType(&'static str),
    /// An integer that cannot be read.
    InvalidInteger(String),
    /// A float that cannot be read.
    InvalidFloat(String),
    /// A byte that is no number from 0 to 255.
    InvalidByte,
    /// Base64 that cannot be decoded.
    Base64(Base64Error),
    /// Hexadecimal integers and floats are not supported.
    Hex,
    /// An OMFOREIGN where an object is expected.
    ForeignNotAllowed,
    /// An OMR: references are not supported.
    NotSupported,
    /// A bound variable that is neither OMV nor OMATTR.
    VarExpected,
    /// An attribute that is no pair of symbol and value.
    BadPair,
}

impl View for JsonReadError {
    type V = JErr;

    open spec fn view(&self) -> JErr {
        match self {
            JsonReadError::NotAnObject => JErr::NotAnObject,
            JsonReadError::MissingKind => JErr::MissingKind,
            JsonReadError::InvalidKind(s) => JErr::InvalidKind(s@),
            JsonReadError::InvalidKey(s) => JErr::InvalidKey(s@),
            JsonReadError::Missing(s) => JErr::Missing(s@),
            JsonReadError::Conflict(s) => JErr::Conflict(s@),
            JsonReadError::WrongType(s) => JErr::WrongType(s@),
            JsonReadError::InvalidInteger(s) => JErr::InvalidInteger(s@),
            JsonReadError::InvalidFloat(s) => JErr::InvalidFloat(s@),
            JsonReadError::InvalidByte => JErr::InvalidByte,
            JsonReadError::Base64(e) => JErr::Base64(*e),
            JsonReadError::Hex => JErr::Hex,
            JsonReadError::ForeignNotAllowed => JErr::ForeignNotAllowed,
            JsonReadError::NotSupported => JErr::NotSupported,
            JsonReadError::VarExpected => JErr::VarExpected,
            JsonReadError::BadPair => JErr::BadPair,
        }
    }
}

} // verus!
