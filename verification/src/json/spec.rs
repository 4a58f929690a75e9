//! What reading an OpenMath object from a JSON value yields: the object, or
//! the error at which reading stops.
use vstd::prelude::*;

use crate::base64::decoded;
use crate::de::grammar::collect_bytes;
use crate::integer::parse_int;
use crate::json::{JErr, JsonView};
use crate::kind::OMKind;
use crate::om::{AttrView, ForeignView, OMView, VarView};
use crate::text::{is_float_text, parse_i128};
use vstd::utf8::encode_utf8;

verus! {

/// The members of an object.
pub type Members = Seq<(Seq<char>, JsonView)>;

/// The index of the first member with key `k` from index `i` on.
pub open spec fn field_from(m: Members, k: Seq<char>, i: int) -> Option<int>
    decreases m.len() - i,
{
    if i < 0 || i >= m.len() {
        None
    } else if m[i].0 == k {
        Some(i)
    } else {
        field_from(m, k, i + 1)
    }
}

/// The index of the first member with key `k`.
pub open spec fn field(m: Members, k: Seq<char>) -> Option<int> {
    field_from(m, k, 0)
}

/// Whether the object has a member with key `k`.
pub open spec fn has(m: Members, k: Seq<char>) -> bool {
    field(m, k) is Some
}

/// The string value of key `k`, if there is one; an error if the value is no string.
pub open spec fn str_at(m: Members, k: Seq<char>) -> Result<Option<Seq<char>>, JErr> {
    match field(m, k) {
        None => Ok(None),
        Some(i) => if 0 <= i < m.len() {
            match m[i].1 {
                JsonView::Str(s) => Ok(Some(s)),
                _ => Err(JErr::WrongType(k)),
            }
        } else {
            Ok(None)
        },
    }
}

/// The string value of a required key `k`.
pub open spec fn req_str(m: Members, k: Seq<char>) -> Result<Seq<char>, JErr> {
    match str_at(m, k) {
        Err(e) => Err(e),
        Ok(None) => Err(JErr::Missing(k)),
        Ok(Some(s)) => Ok(s),
    }
}

/// The kind that a name names.
pub open spec fn kind_named(s: Seq<char>) -> Option<OMKind> {
    if s == "OMI"@ {
        Some(OMKind::OMI)
    } else if s == "OMF"@ {
        Some(OMKind::OMF)
    } else if s == "OMSTR"@ {
        Some(OMKind::OMSTR)
    } else if s == "OMB"@ {
        Some(OMKind::OMB)
    } else if s == "OMV"@ {
        Some(OMKind::OMV)
    } else if s == "OMS"@ {
        Some(OMKind::OMS)
    } else if s == "OMA"@ {
        Some(OMKind::OMA)
    } else if s == "OMBIND"@ {
        Some(OMKind::OMBIND)
    } else if s == "OME"@ {
        Some(OMKind::OME)
    } else if s == "OMATTR"@ {
        Some(OMKind::OMATTR)
    } else if s == "OMFOREIGN"@ {
        Some(OMKind::OMFOREIGN)
    } else if s == "OMR"@ {
        Some(OMKind::OMR)
    } else {
        None
    }
}

/// The kind of an object.
pub open spec fn kind_of(m: Members) -> Result<OMKind, JErr> {
    match str_at(m, "kind"@) {
        Err(e) => Err(e),
        Ok(None) => Err(JErr::MissingKind),
        Ok(Some(s)) => match kind_named(s) {
            Some(k) => Ok(k),
            None => Err(JErr::InvalidKind(s)),
        },
    }
}

/// The keys that OpenMath objects in JSON have.
pub open spec fn known_key(k: Seq<char>) -> bool {
    ||| k == "kind"@
    ||| k == "id"@
    ||| k == "cdbase"@
    ||| k == "integer"@
    ||| k == "decimal"@
    ||| k == "hexadecimal"@
    ||| k == "float"@
    ||| k == "string"@
    ||| k == "bytes"@
    ||| k == "base64"@
    ||| k == "name"@
    ||| k == "cd"@
    ||| k == "encoding"@
    ||| k == "foreign"@
    ||| k == "error"@
    ||| k == "arguments"@
    ||| k == "applicant"@
    ||| k == "binder"@
    ||| k == "variables"@
    ||| k == "object"@
    ||| k == "attributes"@
}

/// The keys that an object of the given kind may have: `kind`, `id` and
/// `cdbase`, and those that hold what the kind holds.
pub open spec fn allowed(kind: OMKind, k: Seq<char>) -> bool {
    ||| k == "kind"@
    ||| k == "id"@
    ||| k == "cdbase"@
    ||| match kind {
        OMKind::OMI => k == "integer"@ || k == "decimal"@ || k == "hexadecimal"@,
        OMKind::OMF => k == "float"@ || k == "decimal"@ || k == "hexadecimal"@,
        OMKind::OMSTR => k == "string"@,
        OMKind::OMB => k == "bytes"@ || k == "base64"@,
        OMKind::OMV => k == "name"@,
        OMKind::OMS => k == "cd"@ || k == "name"@,
        OMKind::OMA => k == "applicant"@ || k == "arguments"@,
        OMKind::OME => k == "error"@ || k == "arguments"@,
        OMKind::OMBIND => k == "binder"@ || k == "variables"@ || k == "object"@,
        OMKind::OMATTR => k == "attributes"@ || k == "object"@,
        OMKind::OMFOREIGN => k == "foreign"@ || k == "encoding"@,
        OMKind::OMR => false,
    }
}

/// The first key from index `i` on that objects have but the kind does not.
pub open spec fn bad_key_from(m: Members, kind: OMKind, i: int) -> Option<Seq<char>>
    decreases m.len() - i,
{
    if i < 0 || i >= m.len() {
        None
    } else if known_key(m[i].0) && !allowed(kind, m[i].0) {
        Some(m[i].0)
    } else {
        bad_key_from(m, kind, i + 1)
    }
}

/// The kind of an object, checked against its keys; its `id`, if any, must
/// be a string.
pub open spec fn checked_kind(m: Members) -> Result<OMKind, JErr> {
    match kind_of(m) {
        Err(e) => Err(e),
        Ok(k) => match bad_key_from(m, k, 0) {
            Some(key) => Err(JErr::InvalidKey(key)),
            None => match str_at(m, "id"@) {
                Err(e) => Err(e),
                Ok(_) => Ok(k),
            },
        },
    }
}

/// The cdbase in effect inside an object: its own `cdbase`, if any.
pub open spec fn scoped(m: Members, cdbase: Seq<char>) -> Result<Seq<char>, JErr> {
    match str_at(m, "cdbase"@) {
        Err(e) => Err(e),
        Ok(Some(c)) => Ok(c),
        Ok(None) => Ok(cdbase),
    }
}

/// An OMI from its members.
pub open spec fn dec_omi(m: Members, attrs: Seq<AttrView>) -> Result<OMView, JErr> {
    match field(m, "integer"@) {
        Some(i) => if has(m, "decimal"@) || has(m, "hexadecimal"@) {
            Err(JErr::Conflict("OMI"@))
        } else if 0 <= i < m.len() {
            match m[i].1 {
                JsonView::Number(t) => match parse_int(t) {
                    Some(v) => Ok(OMView::OMI { integer: v, attrs }),
                    None => Err(JErr::InvalidInteger(t)),
                },
                _ => Err(JErr::WrongType("integer"@)),
            }
        } else {
            Err(JErr::Missing("integer"@))
        },
        None => match str_at(m, "decimal"@) {
            Err(e) => Err(e),
            Ok(Some(t)) => if has(m, "hexadecimal"@) {
                Err(JErr::Conflict("OMI"@))
            } else {
                match parse_int(t) {
                    Some(v) => Ok(OMView::OMI { integer: v, attrs }),
                    None => Err(JErr::InvalidInteger(t)),
                }
            },
            Ok(None) => if has(m, "hexadecimal"@) {
                Err(JErr::Hex)
            } else {
                Err(JErr::Missing("integer"@))
            },
        },
    }
}

/// An OMF from its members.
pub open spec fn dec_omf(m: Members, attrs: Seq<AttrView>) -> Result<OMView, JErr> {
    match field(m, "float"@) {
        Some(i) => if has(m, "decimal"@) || has(m, "hexadecimal"@) {
            Err(JErr::Conflict("OMF"@))
        } else if 0 <= i < m.len() {
            match m[i].1 {
                JsonView::Number(t) => if is_float_text(t) {
                    Ok(OMView::OMF { float: t, attrs })
                } else {
                    Err(JErr::InvalidFloat(t))
                },
                _ => Err(JErr::WrongType("float"@)),
            }
        } else {
            Err(JErr::Missing("float"@))
        },
        None => match str_at(m, "decimal"@) {
            Err(e) => Err(e),
            Ok(Some(t)) => if has(m, "hexadecimal"@) {
                Err(JErr::Conflict("OMF"@))
            } else if is_float_text(t) {
                Ok(OMView::OMF { float: t, attrs })
            } else {
                Err(JErr::InvalidFloat(t))
            },
            Ok(None) => if has(m, "hexadecimal"@) {
                Err(JErr::Hex)
            } else {
                Err(JErr::Missing("float"@))
            },
        },
    }
}

/// A byte written as a JSON number.
pub open spec fn byte_of(j: JsonView) -> Option<u8> {
    match j {
        JsonView::Number(t) => match parse_i128(t) {
            Some(v) => if 0 <= v < 256 {
                Some(v as u8)
            } else {
                None
            },
            None => None,
        },
        _ => None,
    }
}

/// The bytes of an array of numbers.
pub open spec fn bytes_of(a: Seq<JsonView>) -> Option<Seq<u8>>
    decreases a.len(),
{
    if a.len() == 0 {
        Some(seq![])
    } else {
        match byte_of(a[0]) {
            None => None,
            Some(x) => match bytes_of(a.drop_first()) {
                Some(b) => Some(seq![x] + b),
                None => None,
            },
        }
    }
}

/// An OMB from its members: its bytes as an array of numbers, or as base64.
pub open spec fn dec_omb(m: Members, attrs: Seq<AttrView>) -> Result<OMView, JErr> {
    match field(m, "bytes"@) {
        Some(i) => if has(m, "base64"@) {
            Err(JErr::Conflict("OMB"@))
        } else if 0 <= i < m.len() {
            match m[i].1 {
                JsonView::Array(a) => match bytes_of(a) {
                    Some(bytes) => Ok(OMView::OMB { bytes, attrs }),
                    None => Err(JErr::InvalidByte),
                },
                _ => Err(JErr::WrongType("bytes"@)),
            }
        } else {
            Err(JErr::Missing("base64"@))
        },
        None => match str_at(m, "base64"@) {
            Err(e) => Err(e),
            Ok(Some(s)) => match collect_bytes(decoded(encode_utf8(s))) {
                Ok(bytes) => Ok(OMView::OMB { bytes, attrs }),
                Err(e) => Err(JErr::Base64(e)),
            },
            Ok(None) => Err(JErr::Missing("base64"@)),
        },
    }
}

/// A symbol: its own cdbase, if any, its cd and its name.
pub open spec fn dec_symbol(j: JsonView) -> Result<(Option<Seq<char>>, Seq<char>, Seq<char>), JErr> {
    match j {
        JsonView::Object(m) => match req_str(m, "cd"@) {
            Err(e) => Err(e),
            Ok(cd) => match req_str(m, "name"@) {
                Err(e) => Err(e),
                Ok(name) => match str_at(m, "cdbase"@) {
                    Err(e) => Err(e),
                    Ok(cb) => Ok((cb, cd, name)),
                },
            },
        },
        _ => Err(JErr::NotAnObject),
    }
}

/// An object, with `attrs` as its attributes, in the scope of `cdbase`.
pub open spec fn dec_om(j: JsonView, cdbase: Seq<char>, attrs: Seq<AttrView>) -> Result<OMView, JErr>
    decreases j, 0int,
{
    match j {
        JsonView::Object(m) => match checked_kind(m) {
            Err(e) => Err(e),
            Ok(k) => dec_kind(m, k, cdbase, attrs),
        },
        _ => Err(JErr::NotAnObject),
    }
}

/// An object of kind `k` from its members.
pub open spec fn dec_kind(m: Members, k: OMKind, cdbase: Seq<char>, attrs: Seq<AttrView>) -> Result<
    OMView,
    JErr,
>
    decreases m, 1int,
{
    match scoped(m, cdbase) {
        Err(e) => Err(e),
        Ok(cb) => match k {
            OMKind::OMI => dec_omi(m, attrs),
            OMKind::OMF => dec_omf(m, attrs),
            OMKind::OMSTR => match req_str(m, "string"@) {
                Err(e) => Err(e),
                Ok(string) => Ok(OMView::OMSTR { string, attrs }),
            },
            OMKind::OMB => dec_omb(m, attrs),
            OMKind::OMV => match req_str(m, "name"@) {
                Err(e) => Err(e),
                Ok(name) => Ok(OMView::OMV { name, attrs }),
            },
            OMKind::OMS => match req_str(m, "cd"@) {
                Err(e) => Err(e),
                Ok(cd) => match req_str(m, "name"@) {
                    Err(e) => Err(e),
                    Ok(name) => Ok(OMView::OMS { cd, name, cdbase: Some(cb), attrs }),
                },
            },
            OMKind::OMA => match field(m, "applicant"@) {
                None => Err(JErr::Missing("applicant"@)),
                Some(i) => if 0 <= i < m.len() {
                    match dec_om(m[i].1, cb, seq![]) {
                        Err(e) => Err(e),
                        Ok(head) => match field(m, "arguments"@) {
                            None => Ok(
                                OMView::OMA { applicant: Box::new(head), arguments: seq![], attrs },
                            ),
                            Some(a) => if 0 <= a < m.len() {
                                match m[a].1 {
                                    JsonView::Null => Ok(
                                        OMView::OMA {
                                            applicant: Box::new(head),
                                            arguments: seq![],
                                            attrs,
                                        },
                                    ),
                                    JsonView::Array(args) => match dec_list(args, cb) {
                                        Err(e) => Err(e),
                                        Ok(arguments) => Ok(
                                            OMView::OMA {
                                                applicant: Box::new(head),
                                                arguments,
                                                attrs,
                                            },
                                        ),
                                    },
                                    _ => Err(JErr::WrongType("arguments"@)),
                                }
                            } else {
                                Err(JErr::Missing("arguments"@))
                            },
                        },
                    }
                } else {
                    Err(JErr::Missing("applicant"@))
                },
            },
            OMKind::OME => match field(m, "error"@) {
                None => Err(JErr::Missing("error"@)),
                Some(i) => if 0 <= i < m.len() {
                    match dec_symbol(m[i].1) {
                        Err(e) => Err(e),
                        Ok((ocb, cd, name)) => match field(m, "arguments"@) {
                            None => Ok(
                                OMView::OME { cd, name, cdbase: ocb, arguments: seq![], attrs },
                            ),
                            Some(a) => if 0 <= a < m.len() {
                                match m[a].1 {
                                    JsonView::Null => Ok(
                                        OMView::OME {
                                            cd,
                                            name,
                                            cdbase: ocb,
                                            arguments: seq![],
                                            attrs,
                                        },
                                    ),
                                    JsonView::Array(args) => match dec_foreigns(args, cb) {
                                        Err(e) => Err(e),
                                        Ok(arguments) => Ok(
                                            OMView::OME { cd, name, cdbase: ocb, arguments, attrs },
                                        ),
                                    },
                                    _ => Err(JErr::WrongType("arguments"@)),
                                }
                            } else {
                                Err(JErr::Missing("arguments"@))
                            },
                        },
                    }
                } else {
                    Err(JErr::Missing("error"@))
                },
            },
            OMKind::OMBIND => match (
                field(m, "binder"@),
                field(m, "object"@),
                field(m, "variables"@),
            ) {
                (None, _, _) => Err(JErr::Missing("binder"@)),
                (_, None, _) => Err(JErr::Missing("object"@)),
                (_, _, None) => Err(JErr::Missing("variables"@)),
                (Some(b), Some(o), Some(v)) => if 0 <= b < m.len() && 0 <= o < m.len() && 0 <= v
                    < m.len() {
                    match dec_om(m[b].1, cb, seq![]) {
                        Err(e) => Err(e),
                        Ok(binder) => match m[v].1 {
                            JsonView::Array(vs) => match dec_vars(vs, cb) {
                                Err(e) => Err(e),
                                Ok(variables) => match dec_om(m[o].1, cb, seq![]) {
                                    Err(e) => Err(e),
                                    Ok(object) => Ok(
                                        OMView::OMBIND {
                                            binder: Box::new(binder),
                                            variables,
                                            object: Box::new(object),
                                            attrs,
                                        },
                                    ),
                                },
                            },
                            _ => Err(JErr::WrongType("variables"@)),
                        },
                    }
                } else {
                    Err(JErr::Missing("binder"@))
                },
            },
            OMKind::OMATTR => match dec_attributes(m, cb, attrs) {
                Err(e) => Err(e),
                Ok(attrs2) => match field(m, "object"@) {
                    None => Err(JErr::Missing("object"@)),
                    Some(o) => if 0 <= o < m.len() {
                        dec_om(m[o].1, cb, attrs2)
                    } else {
                        Err(JErr::Missing("object"@))
                    },
                },
            },
            OMKind::OMFOREIGN => Err(JErr::ForeignNotAllowed),
            OMKind::OMR => Err(JErr::NotSupported),
        },
    }
}

/// The `attributes` of an OMATTR, added to `attrs`.
pub open spec fn dec_attributes(m: Members, cdbase: Seq<char>, attrs: Seq<AttrView>) -> Result<
    Seq<AttrView>,
    JErr,
>
    decreases m, 0int,
{
    match field(m, "attributes"@) {
        None => Ok(attrs),
        Some(i) => if 0 <= i < m.len() {
            match m[i].1 {
                JsonView::Array(ps) => match dec_pairs(ps, cdbase) {
                    Err(e) => Err(e),
                    Ok(pairs) => Ok(attrs + pairs),
                },
                _ => Err(JErr::WrongType("attributes"@)),
            }
        } else {
            Ok(attrs)
        },
    }
}

/// A sequence of objects.
pub open spec fn dec_list(a: Seq<JsonView>, cdbase: Seq<char>) -> Result<Seq<OMView>, JErr>
    decreases a, 0int,
{
    if a.len() == 0 {
        Ok(seq![])
    } else {
        match dec_om(a[0], cdbase, seq![]) {
            Err(e) => Err(e),
            Ok(o) => match dec_list(a.drop_first(), cdbase) {
                Err(e) => Err(e),
                Ok(s) => Ok(seq![o] + s),
            },
        }
    }
}

/// An object or an OMFOREIGN.
pub open spec fn dec_foreign(j: JsonView, cdbase: Seq<char>) -> Result<ForeignView, JErr>
    decreases j, 0int,
{
    match j {
        JsonView::Object(m) => match checked_kind(m) {
            Err(e) => Err(e),
            Ok(OMKind::OMFOREIGN) => match req_str(m, "foreign"@) {
                Err(e) => Err(e),
                Ok(value) => match str_at(m, "encoding"@) {
                    Err(e) => Err(e),
                    Ok(encoding) => Ok(ForeignView::Foreign { encoding, value }),
                },
            },
            Ok(k) => match dec_kind(m, k, cdbase, seq![]) {
                Err(e) => Err(e),
                Ok(o) => Ok(ForeignView::OM(o)),
            },
        },
        _ => Err(JErr::NotAnObject),
    }
}

/// A sequence of objects or OMFOREIGNs.
pub open spec fn dec_foreigns(a: Seq<JsonView>, cdbase: Seq<char>) -> Result<Seq<ForeignView>, JErr>
    decreases a, 0int,
{
    if a.len() == 0 {
        Ok(seq![])
    } else {
        match dec_foreign(a[0], cdbase) {
            Err(e) => Err(e),
            Ok(o) => match dec_foreigns(a.drop_first(), cdbase) {
                Err(e) => Err(e),
                Ok(s) => Ok(seq![o] + s),
            },
        }
    }
}

/// An attribute: a pair of a symbol and its value.
pub open spec fn dec_pair(p: JsonView, cdbase: Seq<char>) -> Result<AttrView, JErr>
    decreases p, 0int,
{
    match p {
        JsonView::Array(q) => if q.len() == 2 {
            match dec_symbol(q[0]) {
                Err(e) => Err(e),
                Ok((cb, cd, name)) => match dec_foreign(q[1], cdbase) {
                    Err(e) => Err(e),
                    Ok(value) => Ok(AttrView { cdbase: cb, cd, name, value }),
                },
            }
        } else {
            Err(JErr::BadPair)
        },
        _ => Err(JErr::BadPair),
    }
}

/// A sequence of attributes.
pub open spec fn dec_pairs(a: Seq<JsonView>, cdbase: Seq<char>) -> Result<Seq<AttrView>, JErr>
    decreases a, 0int,
{
    if a.len() == 0 {
        Ok(seq![])
    } else {
        match dec_pair(a[0], cdbase) {
            Err(e) => Err(e),
            Ok(p) => match dec_pairs(a.drop_first(), cdbase) {
                Err(e) => Err(e),
                Ok(s) => Ok(seq![p] + s),
            },
        }
    }
}

/// A bound variable, with `attrs` as its attributes: an OMV, or an OMATTR
/// around one.
pub open spec fn dec_var(j: JsonView, cdbase: Seq<char>, attrs: Seq<AttrView>) -> Result<
    VarView,
    JErr,
>
    decreases j, 0int,
{
    match j {
        JsonView::Object(m) => match checked_kind(m) {
            Err(e) => Err(e),
            Ok(OMKind::OMV) => match req_str(m, "name"@) {
                Err(e) => Err(e),
                Ok(name) => Ok(VarView { name, attrs }),
            },
            Ok(OMKind::OMATTR) => match scoped(m, cdbase) {
                Err(e) => Err(e),
                Ok(cb) => match dec_attributes(m, cb, attrs) {
                    Err(e) => Err(e),
                    Ok(attrs2) => match field(m, "object"@) {
                        None => Err(JErr::Missing("object"@)),
                        Some(o) => if 0 <= o < m.len() {
                            dec_var(m[o].1, cb, attrs2)
                        } else {
                            Err(JErr::Missing("object"@))
                        },
                    },
                },
            },
            Ok(_) => Err(JErr::VarExpected),
        },
        _ => Err(JErr::NotAnObject),
    }
}

/// A sequence of bound variables.
pub open spec fn dec_vars(a: Seq<JsonView>, cdbase: Seq<char>) -> Result<Seq<VarView>, JErr>
    decreases a, 0int,
{
    if a.len() == 0 {
        Ok(seq![])
    } else {
        match dec_var(a[0], cdbase, seq![]) {
            Err(e) => Err(e),
            Ok(v) => match dec_vars(a.drop_first(), cdbase) {
                Err(e) => Err(e),
                Ok(s) => Ok(seq![v] + s),
            },
        }
    }
}

/// The keys that an OMOBJ may have.
pub open spec fn omobj_key(k: Seq<char>) -> bool {
    k == "kind"@ || k == "openmath"@ || k == "cdbase"@ || k == "object"@
}

/// The first key from index `i` on that an OMOBJ does not have.
pub open spec fn omobj_bad_key_from(m: Members, i: int) -> Option<Seq<char>>
    decreases m.len() - i,
{
    if i < 0 || i >= m.len() {
        None
    } else if !omobj_key(m[i].0) {
        Some(m[i].0)
    } else {
        omobj_bad_key_from(m, i + 1)
    }
}

/// The object of an OMOBJ, in the scope of its `cdbase`, or of `base` where it has none.
pub open spec fn dec_omobj(j: JsonView, base: Seq<char>) -> Result<OMView, JErr> {
    match j {
        JsonView::Object(m) => match omobj_bad_key_from(m, 0) {
            Some(k) => Err(JErr::InvalidKey(k)),
            None => match str_at(m, "kind"@) {
                Err(e) => Err(e),
                Ok(kind) => if kind is Some && kind->Some_0 != "OMOBJ"@ {
                    Err(JErr::InvalidKind(kind->Some_0))
                } else {
                    match scoped(m, base) {
                        Err(e) => Err(e),
                        Ok(cb) => match field(m, "object"@) {
                            None => Err(JErr::Missing("object"@)),
                            Some(o) => if 0 <= o < m.len() {
                                dec_om(m[o].1, cb, seq![])
                            } else {
                                Err(JErr::Missing("object"@))
                            },
                        },
                    }
                },
            },
        },
        _ => Err(JErr::NotAnObject),
    }
}

} // verus!
