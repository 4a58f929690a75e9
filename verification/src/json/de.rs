//! Reading OpenMath objects from JSON values, as the sibling module `spec`
//! describes it.
use std::borrow::Cow;
use vstd::prelude::*;

use crate::base64::Base64Decoder;
use crate::integer::Int;
use crate::json::spec::{
    byte_of, bytes_of, checked_kind, dec_attributes, dec_foreign, dec_foreigns, dec_kind, dec_list,
    dec_om, dec_omb, dec_omf, dec_omi, dec_omobj, omobj_bad_key_from, dec_pair, dec_pairs, dec_symbol, dec_var,
    dec_vars, field, field_from, kind_named, known_key, allowed, bad_key_from, req_str, scoped,
    str_at,
};
use crate::json::{
    json_view, jsons_view, lemma_jsons_view, lemma_members_view, members_view, JErr, Json,
    JsonReadError, JsonView,
};
use crate::kind::OMKind;
use crate::om::{
    lemma_attrs_view_concat, attr_view, attrs_view, foreign_view, foreigns_view, lemma_attrs_view_push,
    lemma_foreigns_view_push, lemma_oms_view_push, lemma_vars_view_push, om_view, oms_view,
    var_view, vars_view, Attr, AttrView, Attrs, BoundVariable, ForeignView, OMMaybeForeign,
    OMView, OpenMath, VarView,
};
use crate::text::{float_text_ok, parse_i128_chars, str_chars, str_eq};
use crate::OPENMATH_BASE_URI;

verus! {

/// An object read from JSON, or the error.
pub open spec fn jres(r: Result<OpenMath, JsonReadError>) -> Result<OMView, JErr> {
    match r {
        Ok(o) => Ok(om_view(o)),
        Err(e) => Err(e@),
    }
}

/// The index of the first member with key `k`.
fn find(m: &Vec<(String, Json)>, k: &str) -> (r: Option<usize>)
    ensures
        match r {
            Some(i) => field(members_view(m@), k@) == Some(i as int) && i < m.len(),
            None => field(members_view(m@), k@) is None,
        },
{
    let ghost mv = members_view(m@);
    proof {
        lemma_members_view(m@);
    }
    let mut i: usize = 0;
    while i < m.len()
        invariant
            i <= m.len(),
            mv == members_view(m@),
            mv.len() == m.len(),
            forall|j: int| 0 <= j < m.len() ==> #[trigger] mv[j] == (m@[j].0@, json_view(m@[j].1)),
            field(mv, k@) == field_from(mv, k@, i as int),
        decreases m.len() - i,
    {
        if str_eq(m[i].0.as_str(), k) {
            return Some(i);
        }
        i = i + 1;
    }
    None
}

/// The string value of key `k`, if there is one.
fn str_field<'a>(m: &'a Vec<(String, Json)>, k: &'static str) -> (r: Result<
    Option<&'a String>,
    JsonReadError,
>)
    ensures
        str_at(members_view(m@), k@) == match r {
            Ok(Some(s)) => Ok(Some(s@)),
            Ok(None) => Ok(None),
            Err(e) => Err(e@),
        },
{
    proof {
        lemma_members_view(m@);
    }
    match find(m, k) {
        None => Ok(None),
        Some(i) => match &m[i].1 {
            Json::Str(s) => Ok(Some(s)),
            _ => Err(JsonReadError::WrongType(k)),
        },
    }
}

/// The string value of a required key `k`.
fn req_field<'a>(m: &'a Vec<(String, Json)>, k: &'static str) -> (r: Result<&'a String, JsonReadError>)
    ensures
        req_str(members_view(m@), k@) == match r {
            Ok(s) => Ok(s@),
            Err(e) => Err(e@),
        },
{
    match str_field(m, k) {
        Err(e) => Err(e),
        Ok(None) => Err(JsonReadError::Missing(k)),
        Ok(Some(s)) => Ok(s),
    }
}

/// The kind that a name names.
fn kind_from(s: &str) -> (r: Option<OMKind>)
    ensures
        r == kind_named(s@),
{
    if str_eq(s, "OMI") {
        Some(OMKind::OMI)
    } else if str_eq(s, "OMF") {
        Some(OMKind::OMF)
    } else if str_eq(s, "OMSTR") {
        Some(OMKind::OMSTR)
    } else if str_eq(s, "OMB") {
        Some(OMKind::OMB)
    } else if str_eq(s, "OMV") {
        Some(OMKind::OMV)
    } else if str_eq(s, "OMS") {
        Some(OMKind::OMS)
    } else if str_eq(s, "OMA") {
        Some(OMKind::OMA)
    } else if str_eq(s, "OMBIND") {
        Some(OMKind::OMBIND)
    } else if str_eq(s, "OME") {
        Some(OMKind::OME)
    } else if str_eq(s, "OMATTR") {
        Some(OMKind::OMATTR)
    } else if str_eq(s, "OMFOREIGN") {
        Some(OMKind::OMFOREIGN)
    } else if str_eq(s, "OMR") {
        Some(OMKind::OMR)
    } else {
        None
    }
}

/// Whether OpenMath objects in JSON have the key `k`.
fn known(k: &str) -> (r: bool)
    ensures
        r == known_key(k@),
{
    str_eq(k, "kind") || str_eq(k, "id") || str_eq(k, "cdbase") || str_eq(k, "integer") || str_eq(
        k,
        "decimal",
    ) || str_eq(k, "hexadecimal") || str_eq(k, "float") || str_eq(k, "string") || str_eq(
        k,
        "bytes",
    ) || str_eq(k, "base64") || str_eq(k, "name") || str_eq(k, "cd") || str_eq(k, "encoding")
        || str_eq(k, "foreign") || str_eq(k, "error") || str_eq(k, "arguments") || str_eq(
        k,
        "applicant",
    ) || str_eq(k, "binder") || str_eq(k, "variables") || str_eq(k, "object") || str_eq(
        k,
        "attributes",
    )
}

/// Whether an object of the given kind may have the key `k`.
fn allowed_key(kind: OMKind, k: &str) -> (r: bool)
    ensures
        r == allowed(kind, k@),
{
    if str_eq(k, "kind") || str_eq(k, "id") || str_eq(k, "cdbase") {
        return true;
    }
    match kind {
        OMKind::OMI => str_eq(k, "integer") || str_eq(k, "decimal") || str_eq(k, "hexadecimal"),
        OMKind::OMF => str_eq(k, "float") || str_eq(k, "decimal") || str_eq(k, "hexadecimal"),
        OMKind::OMSTR => str_eq(k, "string"),
        OMKind::OMB => str_eq(k, "bytes") || str_eq(k, "base64"),
        OMKind::OMV => str_eq(k, "name"),
        OMKind::OMS => str_eq(k, "cd") || str_eq(k, "name"),
        OMKind::OMA => str_eq(k, "applicant") || str_eq(k, "arguments"),
        OMKind::OME => str_eq(k, "error") || str_eq(k, "arguments"),
        OMKind::OMBIND => str_eq(k, "binder") || str_eq(k, "variables") || str_eq(k, "object"),
        OMKind::OMATTR => str_eq(k, "attributes") || str_eq(k, "object"),
        OMKind::OMFOREIGN => str_eq(k, "foreign") || str_eq(k, "encoding"),
        OMKind::OMR => false,
    }
}

/// The kind of an object, checked against its keys and its `id`.
fn checked(m: &Vec<(String, Json)>) -> (r: Result<OMKind, JsonReadError>)
    ensures
        checked_kind(members_view(m@)) == match r {
            Ok(k) => Ok(k),
            Err(e) => Err(e@),
        },
{
    let ghost mv = members_view(m@);
    proof {
        lemma_members_view(m@);
    }
    let kind = match str_field(m, "kind") {
        Err(e) => {
            return Err(e);
        },
        Ok(None) => {
            return Err(JsonReadError::MissingKind);
        },
        Ok(Some(s)) => match kind_from(s.as_str()) {
            Some(k) => k,
            None => {
                return Err(JsonReadError::InvalidKind(s.clone()));
            },
        },
    };
    let mut i: usize = 0;
    while i < m.len()
        invariant
            i <= m.len(),
            mv == members_view(m@),
            mv.len() == m.len(),
            forall|j: int| 0 <= j < m.len() ==> #[trigger] mv[j] == (m@[j].0@, json_view(m@[j].1)),
            bad_key_from(mv, kind, 0) == bad_key_from(mv, kind, i as int),
            crate::json::spec::kind_of(mv) == Ok::<OMKind, JErr>(kind),
        decreases m.len() - i,
    {
        let k = m[i].0.as_str();
        if known(k) && !allowed_key(kind, k) {
            assert(mv[i as int] == (m@[i as int].0@, json_view(m@[i as int].1)));
            assert(bad_key_from(mv, kind, i as int) == Some(mv[i as int].0));
            let key = m[i].0.clone();
            assert(key@ == mv[i as int].0);
            return Err(JsonReadError::InvalidKey(key));
        }
        i = i + 1;
    }
    match str_field(m, "id") {
        Err(e) => Err(e),
        Ok(_) => Ok(kind),
    }
}

/// The cdbase in effect inside an object.
fn scoped_base(m: &Vec<(String, Json)>, cdbase: &str) -> (r: Result<String, JsonReadError>)
    ensures
        scoped(members_view(m@), cdbase@) == match r {
            Ok(s) => Ok(s@),
            Err(e) => Err(e@),
        },
{
    match str_field(m, "cdbase") {
        Err(e) => Err(e),
        Ok(Some(c)) => Ok(c.clone()),
        Ok(None) => Ok(cdbase.to_owned()),
    }
}

/// An OMI from its members.
fn omi<'o>(m: &Vec<(String, Json)>, attrs: Attrs<'o>) -> (r: Result<OpenMath<'o>, JsonReadError>)
    ensures
        dec_omi(members_view(m@), attrs_view(attrs@)) == jres(r),
{
    proof {
        lemma_members_view(m@);
    }
    match find(m, "integer") {
        Some(i) => {
            if find(m, "decimal").is_some() || find(m, "hexadecimal").is_some() {
                return Err(JsonReadError::Conflict("OMI"));
            }
            match &m[i].1 {
                Json::Number(t) => match Int::from_string(t.clone()) {
                    Some(v) => Ok(OpenMath::OMI { int: v, attributes: attrs }),
                    None => Err(JsonReadError::InvalidInteger(t.clone())),
                },
                _ => Err(JsonReadError::WrongType("integer")),
            }
        },
        None => match str_field(m, "decimal") {
            Err(e) => Err(e),
            Ok(Some(t)) => {
                if find(m, "hexadecimal").is_some() {
                    return Err(JsonReadError::Conflict("OMI"));
                }
                match Int::from_string(t.clone()) {
                    Some(v) => Ok(OpenMath::OMI { int: v, attributes: attrs }),
                    None => Err(JsonReadError::InvalidInteger(t.clone())),
                }
            },
            Ok(None) => if find(m, "hexadecimal").is_some() {
                Err(JsonReadError::Hex)
            } else {
                Err(JsonReadError::Missing("integer"))
            },
        },
    }
}

/// An OMF from its members.
fn omf<'o>(m: &Vec<(String, Json)>, attrs: Attrs<'o>) -> (r: Result<OpenMath<'o>, JsonReadError>)
    ensures
        dec_omf(members_view(m@), attrs_view(attrs@)) == jres(r),
{
    proof {
        lemma_members_view(m@);
    }
    match find(m, "float") {
        Some(i) => {
            if find(m, "decimal").is_some() || find(m, "hexadecimal").is_some() {
                return Err(JsonReadError::Conflict("OMF"));
            }
            match &m[i].1 {
                Json::Number(t) => if float_text_ok(t.as_str()) {
                    Ok(OpenMath::OMF { float: Cow::Owned(t.clone()), attributes: attrs })
                } else {
                    Err(JsonReadError::InvalidFloat(t.clone()))
                },
                _ => Err(JsonReadError::WrongType("float")),
            }
        },
        None => match str_field(m, "decimal") {
            Err(e) => Err(e),
            Ok(Some(t)) => {
                if find(m, "hexadecimal").is_some() {
                    return Err(JsonReadError::Conflict("OMF"));
                }
                if float_text_ok(t.as_str()) {
                    Ok(OpenMath::OMF { float: Cow::Owned(t.clone()), attributes: attrs })
                } else {
                    Err(JsonReadError::InvalidFloat(t.clone()))
                }
            },
            Ok(None) => if find(m, "hexadecimal").is_some() {
                Err(JsonReadError::Hex)
            } else {
                Err(JsonReadError::Missing("float"))
            },
        },
    }
}

/// A byte written as a JSON number.
fn byte(j: &Json) -> (r: Option<u8>)
    ensures
        r == byte_of(json_view(*j)),
{
    match j {
        Json::Number(t) => {
            let cs = str_chars(t.as_str());
            match parse_i128_chars(cs.as_slice()) {
                Some(v) => if 0 <= v && v < 256 {
                    Some(v as u8)
                } else {
                    None
                },
                None => None,
            }
        },
        _ => None,
    }
}

/// The bytes of an array of numbers.
fn bytes(a: &Vec<Json>) -> (r: Option<Vec<u8>>)
    ensures
        match r {
            Some(b) => bytes_of(jsons_view(a@)) == Some(b@),
            None => bytes_of(jsons_view(a@)) is None,
        },
{
    let ghost av = jsons_view(a@);
    proof {
        lemma_jsons_view(a@);
    }
    let mut out: Vec<u8> = Vec::new();
    let mut i: usize = 0;
    assert(av.skip(0) =~= av);
    assert forall|rest: Seq<u8>| #[trigger] (out@ + rest) == rest by {
        assert(out@ + rest =~= rest);
    }
    while i < a.len()
        invariant
            i <= a.len(),
            av == jsons_view(a@),
            av.len() == a.len(),
            forall|k: int| 0 <= k < a.len() ==> #[trigger] av[k] == json_view(a@[k]),
            bytes_of(av) == match bytes_of(av.skip(i as int)) {
                Some(rest) => Some(out@ + rest),
                None => None,
            },
        decreases a.len() - i,
    {
        assert(av.skip(i as int)[0] == av[i as int]);
        assert(av.skip(i as int).drop_first() =~= av.skip(i + 1));
        let ghost o = out@;
        match byte(&a[i]) {
            None => {
                return None;
            },
            Some(x) => {
                out.push(x);
                assert forall|rest: Seq<u8>| #[trigger] (o + (seq![x] + rest)) == out@ + rest by {
                    assert(o + (seq![x] + rest) =~= out@ + rest);
                }
            },
        }
        i = i + 1;
    }
    assert(av.skip(i as int).len() == 0);
    assert(out@ + seq![] =~= out@);
    Some(out)
}

/// An OMB from its members.
fn omb<'o>(m: &Vec<(String, Json)>, attrs: Attrs<'o>) -> (r: Result<OpenMath<'o>, JsonReadError>)
    ensures
        dec_omb(members_view(m@), attrs_view(attrs@)) == jres(r),
{
    proof {
        lemma_members_view(m@);
    }
    match find(m, "bytes") {
        Some(i) => {
            if find(m, "base64").is_some() {
                return Err(JsonReadError::Conflict("OMB"));
            }
            match &m[i].1 {
                Json::Array(a) => match bytes(a) {
                    Some(b) => Ok(OpenMath::OMB { bytes: Cow::Owned(b), attributes: attrs }),
                    None => Err(JsonReadError::InvalidByte),
                },
                _ => Err(JsonReadError::WrongType("bytes")),
            }
        },
        None => match str_field(m, "base64") {
            Err(e) => Err(e),
            Ok(Some(s)) => {
                let raw = s.as_str().as_bytes();
                let v = vstd::slice::slice_to_vec(raw);
                match crate::de::xml::collect_decoded(Base64Decoder::new(v).flat()) {
                    Ok(b) => Ok(OpenMath::OMB { bytes: Cow::Owned(b), attributes: attrs }),
                    Err(e) => Err(JsonReadError::Base64(e)),
                }
            },
            Ok(None) => Err(JsonReadError::Missing("base64")),
        },
    }
}

/// A symbol: its own cdbase, if any, its cd and its name.
fn symbol(j: &Json) -> (r: Result<(Option<String>, String, String), JsonReadError>)
    ensures
        dec_symbol(json_view(*j)) == match r {
            Ok((cb, cd, name)) => Ok(
                (
                    match cb {
                        Some(c) => Some(c@),
                        None => None,
                    },
                    cd@,
                    name@,
                ),
            ),
            Err(e) => Err(e@),
        },
{
    match j {
        Json::Object(m) => {
            let cd = match req_field(m, "cd") {
                Err(e) => {
                    return Err(e);
                },
                Ok(c) => c.clone(),
            };
            let name = match req_field(m, "name") {
                Err(e) => {
                    return Err(e);
                },
                Ok(n) => n.clone(),
            };
            match str_field(m, "cdbase") {
                Err(e) => Err(e),
                Ok(cb) => Ok(
                    (
                        match cb {
                            Some(c) => Some(c.clone()),
                            None => None,
                        },
                        cd,
                        name,
                    ),
                ),
            }
        },
        _ => Err(JsonReadError::NotAnObject),
    }
}

/// An owned optional text.
fn owned<'o>(o: Option<String>) -> (r: Option<Cow<'o, str>>)
    ensures
        crate::om::opt_view(r) == match o {
            Some(s) => Some(s@),
            None => None::<Seq<char>>,
        },
{
    match o {
        Some(s) => Some(Cow::Owned(s)),
        None => None,
    }
}


/// An object, with `attrs` as its attributes, in the scope of `cdbase`.
fn read_om<'o>(j: &Json, cdbase: &str, attrs: Attrs<'o>) -> (r: Result<OpenMath<'o>, JsonReadError>)
    ensures
        dec_om(json_view(*j), cdbase@, attrs_view(attrs@)) == jres(r),
    decreases j, 0int,
{
    match j {
        Json::Object(m) => match checked(m) {
            Err(e) => Err(e),
            Ok(k) => read_kind(m, k, cdbase, attrs),
        },
        _ => Err(JsonReadError::NotAnObject),
    }
}

/// An object of kind `k` from its members.
#[verifier::spinoff_prover]
#[verifier::rlimit(60)]
fn read_kind<'o>(m: &Vec<(String, Json)>, k: OMKind, cdbase: &str, attrs: Attrs<'o>) -> (r: Result<
    OpenMath<'o>,
    JsonReadError,
>)
    ensures
        dec_kind(members_view(m@), k, cdbase@, attrs_view(attrs@)) == jres(r),
    decreases m, 1int,
{
    proof {
        lemma_members_view(m@);
        assert(oms_view(Seq::<OpenMath<'o>>::empty()) =~= Seq::<OMView>::empty());
        assert(foreigns_view(Seq::<OMMaybeForeign<'o, OpenMath<'o>>>::empty())
            =~= Seq::<ForeignView>::empty());
    }
    let cb = match scoped_base(m, cdbase) {
        Err(e) => {
            return Err(e);
        },
        Ok(c) => c,
    };
    match k {
        OMKind::OMI => omi(m, attrs),
        OMKind::OMF => omf(m, attrs),
        OMKind::OMSTR => match req_field(m, "string") {
            Err(e) => Err(e),
            Ok(s) => Ok(OpenMath::OMSTR { string: Cow::Owned(s.clone()), attributes: attrs }),
        },
        OMKind::OMB => omb(m, attrs),
        OMKind::OMV => match req_field(m, "name") {
            Err(e) => Err(e),
            Ok(s) => Ok(OpenMath::OMV { name: Cow::Owned(s.clone()), attributes: attrs }),
        },
        OMKind::OMS => {
            let cd = match req_field(m, "cd") {
                Err(e) => {
                    return Err(e);
                },
                Ok(c) => c.clone(),
            };
            match req_field(m, "name") {
                Err(e) => Err(e),
                Ok(n) => Ok(
                    OpenMath::OMS {
                        cd: Cow::Owned(cd),
                        name: Cow::Owned(n.clone()),
                        cdbase: Some(Cow::Owned(cb)),
                        attributes: attrs,
                    },
                ),
            }
        },
        OMKind::OMA => match find(m, "applicant") {
            None => Err(JsonReadError::Missing("applicant")),
            Some(i) => {
                let head = match read_om(&m[i].1, cb.as_str(), Vec::new()) {
                    Err(e) => {
                        return Err(e);
                    },
                    Ok(h) => h,
                };
                match find(m, "arguments") {
                    None => Ok(
                        OpenMath::OMA {
                            applicant: Box::new(head),
                            arguments: Vec::new(),
                            attributes: attrs,
                        },
                    ),
                    Some(a) => match &m[a].1 {
                        Json::Null => Ok(
                            OpenMath::OMA {
                                applicant: Box::new(head),
                                arguments: Vec::new(),
                                attributes: attrs,
                            },
                        ),
                        Json::Array(args) => match read_list(args, cb.as_str()) {
                            Err(e) => Err(e),
                            Ok(arguments) => Ok(
                                OpenMath::OMA {
                                    applicant: Box::new(head),
                                    arguments,
                                    attributes: attrs,
                                },
                            ),
                        },
                        _ => Err(JsonReadError::WrongType("arguments")),
                    },
                }
            },
        },
        OMKind::OME => match find(m, "error") {
            None => Err(JsonReadError::Missing("error")),
            Some(i) => {
                let (ocb, cd, name) = match symbol(&m[i].1) {
                    Err(e) => {
                        return Err(e);
                    },
                    Ok(s) => s,
                };
                match find(m, "arguments") {
                    None => Ok(
                        OpenMath::OME {
                            cd: Cow::Owned(cd),
                            name: Cow::Owned(name),
                            cdbase: owned(ocb),
                            arguments: Vec::new(),
                            attributes: attrs,
                        },
                    ),
                    Some(a) => match &m[a].1 {
                        Json::Null => Ok(
                            OpenMath::OME {
                                cd: Cow::Owned(cd),
                                name: Cow::Owned(name),
                                cdbase: owned(ocb),
                                arguments: Vec::new(),
                                attributes: attrs,
                            },
                        ),
                        Json::Array(args) => match read_foreigns(args, cb.as_str()) {
                            Err(e) => Err(e),
                            Ok(arguments) => Ok(
                                OpenMath::OME {
                                    cd: Cow::Owned(cd),
                                    name: Cow::Owned(name),
                                    cdbase: owned(ocb),
                                    arguments,
                                    attributes: attrs,
                                },
                            ),
                        },
                        _ => Err(JsonReadError::WrongType("arguments")),
                    },
                }
            },
        },
        OMKind::OMBIND => {
            let b = match find(m, "binder") {
                None => {
                    return Err(JsonReadError::Missing("binder"));
                },
                Some(b) => b,
            };
            let o = match find(m, "object") {
                None => {
                    return Err(JsonReadError::Missing("object"));
                },
                Some(o) => o,
            };
            let v = match find(m, "variables") {
                None => {
                    return Err(JsonReadError::Missing("variables"));
                },
                Some(v) => v,
            };
            let binder = match read_om(&m[b].1, cb.as_str(), Vec::new()) {
                Err(e) => {
                    return Err(e);
                },
                Ok(x) => x,
            };
            let variables = match &m[v].1 {
                Json::Array(vs) => match read_vars(vs, cb.as_str()) {
                    Err(e) => {
                        return Err(e);
                    },
                    Ok(x) => x,
                },
                _ => {
                    return Err(JsonReadError::WrongType("variables"));
                },
            };
            match read_om(&m[o].1, cb.as_str(), Vec::new()) {
                Err(e) => Err(e),
                Ok(object) => Ok(
                    OpenMath::OMBIND {
                        binder: Box::new(binder),
                        variables,
                        object: Box::new(object),
                        attributes: attrs,
                    },
                ),
            }
        },
        OMKind::OMATTR => {
            let attrs2 = match read_attributes(m, cb.as_str(), attrs) {
                Err(e) => {
                    return Err(e);
                },
                Ok(a) => a,
            };
            match find(m, "object") {
                None => Err(JsonReadError::Missing("object")),
                Some(o) => read_om(&m[o].1, cb.as_str(), attrs2),
            }
        },
        OMKind::OMFOREIGN => Err(JsonReadError::ForeignNotAllowed),
        OMKind::OMR => Err(JsonReadError::NotSupported),
    }
}

/// The `attributes` of an OMATTR, added to `attrs`.
fn read_attributes<'o>(m: &Vec<(String, Json)>, cdbase: &str, attrs: Attrs<'o>) -> (r: Result<
    Attrs<'o>,
    JsonReadError,
>)
    ensures
        dec_attributes(members_view(m@), cdbase@, attrs_view(attrs@)) == match r {
            Ok(a) => Ok(attrs_view(a@)),
            Err(e) => Err(e@),
        },
    decreases m, 0int,
{
    proof {
        lemma_members_view(m@);
    }
    match find(m, "attributes") {
        None => Ok(attrs),
        Some(i) => match &m[i].1 {
            Json::Array(ps) => match read_pairs(ps, cdbase) {
                Err(e) => Err(e),
                Ok(pairs) => {
                    let mut all = attrs;
                    let mut more = pairs;
                    let ghost a0 = all@;
                    let ghost p0 = more@;
                    all.append(&mut more);
                    proof {
                        lemma_attrs_view_concat(a0, p0);
                    }
                    Ok(all)
                },
            },
            _ => Err(JsonReadError::WrongType("attributes")),
        },
    }
}

/// A sequence of objects.
fn read_list<'o>(a: &Vec<Json>, cdbase: &str) -> (r: Result<Vec<OpenMath<'o>>, JsonReadError>)
    ensures
        dec_list(jsons_view(a@), cdbase@) == match r {
            Ok(v) => Ok(oms_view(v@)),
            Err(e) => Err(e@),
        },
    decreases a, 0int,
{
    let ghost av = jsons_view(a@);
    proof {
        lemma_jsons_view(a@);
    }
    let mut out: Vec<OpenMath<'o>> = Vec::new();
    let mut i: usize = 0;
    assert(av.skip(0) =~= av);
    assert forall|rest: Seq<OMView>| #[trigger] (oms_view(out@) + rest) == rest by {
        assert(oms_view(out@) + rest =~= rest);
    }
    while i < a.len()
        invariant
            i <= a.len(),
            av == jsons_view(a@),
            av.len() == a.len(),
            forall|k: int| 0 <= k < a.len() ==> #[trigger] av[k] == json_view(a@[k]),
            dec_list(av, cdbase@) == match dec_list(av.skip(i as int), cdbase@) {
                Ok(rest) => Ok(oms_view(out@) + rest),
                Err(e) => Err(e),
            },
        decreases a.len() - i,
    {
        assert(av.skip(i as int)[0] == av[i as int]);
        assert(av.skip(i as int).drop_first() =~= av.skip(i + 1));
        match read_om(&a[i], cdbase, Vec::new()) {
            Err(e) => {
                return Err(e);
            },
            Ok(o) => {
                proof {
                    lemma_oms_view_push(out@, o);
                }
                out.push(o);
            },
        }
        i = i + 1;
    }
    assert(av.skip(i as int).len() == 0);
    assert(oms_view(out@) + seq![] =~= oms_view(out@));
    Ok(out)
}

/// An object or an OMFOREIGN.
fn read_foreign<'o>(j: &Json, cdbase: &str) -> (r: Result<
    OMMaybeForeign<'o, OpenMath<'o>>,
    JsonReadError,
>)
    ensures
        dec_foreign(json_view(*j), cdbase@) == match r {
            Ok(f) => Ok(foreign_view(f)),
            Err(e) => Err(e@),
        },
    decreases j, 0int,
{
    match j {
        Json::Object(m) => match checked(m) {
            Err(e) => Err(e),
            Ok(OMKind::OMFOREIGN) => {
                let value = match req_field(m, "foreign") {
                    Err(e) => {
                        return Err(e);
                    },
                    Ok(v) => v.clone(),
                };
                match str_field(m, "encoding") {
                    Err(e) => Err(e),
                    Ok(enc) => Ok(
                        OMMaybeForeign::Foreign {
                            encoding: owned(
                                match enc {
                                    Some(s) => Some(s.clone()),
                                    None => None,
                                },
                            ),
                            value: Cow::Owned(value),
                        },
                    ),
                }
            },
            Ok(k) => match read_kind(m, k, cdbase, Vec::new()) {
                Err(e) => Err(e),
                Ok(o) => Ok(OMMaybeForeign::OM(o)),
            },
        },
        _ => Err(JsonReadError::NotAnObject),
    }
}

/// A sequence of objects or OMFOREIGNs.
fn read_foreigns<'o>(a: &Vec<Json>, cdbase: &str) -> (r: Result<
    Vec<OMMaybeForeign<'o, OpenMath<'o>>>,
    JsonReadError,
>)
    ensures
        dec_foreigns(jsons_view(a@), cdbase@) == match r {
            Ok(v) => Ok(foreigns_view(v@)),
            Err(e) => Err(e@),
        },
    decreases a, 0int,
{
    let ghost av = jsons_view(a@);
    proof {
        lemma_jsons_view(a@);
    }
    let mut out: Vec<OMMaybeForeign<'o, OpenMath<'o>>> = Vec::new();
    let mut i: usize = 0;
    assert(av.skip(0) =~= av);
    assert forall|rest: Seq<ForeignView>| #[trigger] (foreigns_view(out@) + rest) == rest by {
        assert(foreigns_view(out@) + rest =~= rest);
    }
    while i < a.len()
        invariant
            i <= a.len(),
            av == jsons_view(a@),
            av.len() == a.len(),
            forall|k: int| 0 <= k < a.len() ==> #[trigger] av[k] == json_view(a@[k]),
            dec_foreigns(av, cdbase@) == match dec_foreigns(av.skip(i as int), cdbase@) {
                Ok(rest) => Ok(foreigns_view(out@) + rest),
                Err(e) => Err(e),
            },
        decreases a.len() - i,
    {
        assert(av.skip(i as int)[0] == av[i as int]);
        assert(av.skip(i as int).drop_first() =~= av.skip(i + 1));
        match read_foreign(&a[i], cdbase) {
            Err(e) => {
                return Err(e);
            },
            Ok(o) => {
                proof {
                    lemma_foreigns_view_push(out@, o);
                }
                out.push(o);
            },
        }
        i = i + 1;
    }
    assert(av.skip(i as int).len() == 0);
    assert(foreigns_view(out@) + seq![] =~= foreigns_view(out@));
    Ok(out)
}

/// An attribute: a pair of a symbol and its value.
fn read_pair<'o>(p: &Json, cdbase: &str) -> (r: Result<
    Attr<'o, OMMaybeForeign<'o, OpenMath<'o>>>,
    JsonReadError,
>)
    ensures
        dec_pair(json_view(*p), cdbase@) == match r {
            Ok(a) => Ok(attr_view(a)),
            Err(e) => Err(e@),
        },
    decreases p, 0int,
{
    match p {
        Json::Array(q) => {
            proof {
                lemma_jsons_view(q@);
            }
            if q.len() != 2 {
                return Err(JsonReadError::BadPair);
            }
            let (cb, cd, name) = match symbol(&q[0]) {
                Err(e) => {
                    return Err(e);
                },
                Ok(s) => s,
            };
            match read_foreign(&q[1], cdbase) {
                Err(e) => Err(e),
                Ok(value) => Ok(
                    Attr {
                        cdbase: owned(cb),
                        cd: Cow::Owned(cd),
                        name: Cow::Owned(name),
                        value,
                    },
                ),
            }
        },
        _ => Err(JsonReadError::BadPair),
    }
}

/// A sequence of attributes.
fn read_pairs<'o>(a: &Vec<Json>, cdbase: &str) -> (r: Result<Attrs<'o>, JsonReadError>)
    ensures
        dec_pairs(jsons_view(a@), cdbase@) == match r {
            Ok(v) => Ok(attrs_view(v@)),
            Err(e) => Err(e@),
        },
    decreases a, 0int,
{
    let ghost av = jsons_view(a@);
    proof {
        lemma_jsons_view(a@);
    }
    let mut out: Attrs<'o> = Vec::new();
    let mut i: usize = 0;
    assert(av.skip(0) =~= av);
    assert forall|rest: Seq<AttrView>| #[trigger] (attrs_view(out@) + rest) == rest by {
        assert(attrs_view(out@) + rest =~= rest);
    }
    while i < a.len()
        invariant
            i <= a.len(),
            av == jsons_view(a@),
            av.len() == a.len(),
            forall|k: int| 0 <= k < a.len() ==> #[trigger] av[k] == json_view(a@[k]),
            dec_pairs(av, cdbase@) == match dec_pairs(av.skip(i as int), cdbase@) {
                Ok(rest) => Ok(attrs_view(out@) + rest),
                Err(e) => Err(e),
            },
        decreases a.len() - i,
    {
        assert(av.skip(i as int)[0] == av[i as int]);
        assert(av.skip(i as int).drop_first() =~= av.skip(i + 1));
        let ghost o = attrs_view(out@);
        match read_pair(&a[i], cdbase) {
            Err(e) => {
                return Err(e);
            },
            Ok(x) => {
                proof {
                    lemma_attrs_view_push(out@, x);
                }
                out.push(x);
                assert forall|rest: Seq<AttrView>| #[trigger] (o + (seq![attr_view(x)] + rest))
                    == attrs_view(out@) + rest by {
                    assert(o + (seq![attr_view(x)] + rest) =~= attrs_view(out@) + rest);
                }
            },
        }
        i = i + 1;
    }
    assert(av.skip(i as int).len() == 0);
    assert(attrs_view(out@) + seq![] =~= attrs_view(out@));
    Ok(out)
}

/// A bound variable, with `attrs` as its attributes.
fn read_var<'o>(j: &Json, cdbase: &str, attrs: Attrs<'o>) -> (r: Result<
    BoundVariable<'o>,
    JsonReadError,
>)
    ensures
        dec_var(json_view(*j), cdbase@, attrs_view(attrs@)) == match r {
            Ok(v) => Ok(var_view(v)),
            Err(e) => Err(e@),
        },
    decreases j, 0int,
{
    match j {
        Json::Object(m) => match checked(m) {
            Err(e) => Err(e),
            Ok(OMKind::OMV) => match req_field(m, "name") {
                Err(e) => Err(e),
                Ok(n) => Ok(BoundVariable { name: Cow::Owned(n.clone()), attributes: attrs }),
            },
            Ok(OMKind::OMATTR) => {
                proof {
                    lemma_members_view(m@);
                }
                let cb = match scoped_base(m, cdbase) {
                    Err(e) => {
                        return Err(e);
                    },
                    Ok(c) => c,
                };
                let attrs2 = match read_attributes(m, cb.as_str(), attrs) {
                    Err(e) => {
                        return Err(e);
                    },
                    Ok(a) => a,
                };
                match find(m, "object") {
                    None => Err(JsonReadError::Missing("object")),
                    Some(o) => read_var(&m[o].1, cb.as_str(), attrs2),
                }
            },
            Ok(_) => Err(JsonReadError::VarExpected),
        },
        _ => Err(JsonReadError::NotAnObject),
    }
}

/// A sequence of bound variables.
fn read_vars<'o>(a: &Vec<Json>, cdbase: &str) -> (r: Result<Vec<BoundVariable<'o>>, JsonReadError>)
    ensures
        dec_vars(jsons_view(a@), cdbase@) == match r {
            Ok(v) => Ok(vars_view(v@)),
            Err(e) => Err(e@),
        },
    decreases a, 0int,
{
    let ghost av = jsons_view(a@);
    proof {
        lemma_jsons_view(a@);
    }
    let mut out: Vec<BoundVariable<'o>> = Vec::new();
    let mut i: usize = 0;
    assert(av.skip(0) =~= av);
    assert forall|rest: Seq<VarView>| #[trigger] (vars_view(out@) + rest) == rest by {
        assert(vars_view(out@) + rest =~= rest);
    }
    while i < a.len()
        invariant
            i <= a.len(),
            av == jsons_view(a@),
            av.len() == a.len(),
            forall|k: int| 0 <= k < a.len() ==> #[trigger] av[k] == json_view(a@[k]),
            dec_vars(av, cdbase@) == match dec_vars(av.skip(i as int), cdbase@) {
                Ok(rest) => Ok(vars_view(out@) + rest),
                Err(e) => Err(e),
            },
        decreases a.len() - i,
    {
        assert(av.skip(i as int)[0] == av[i as int]);
        assert(av.skip(i as int).drop_first() =~= av.skip(i + 1));
        match read_var(&a[i], cdbase, Vec::new()) {
            Err(e) => {
                return Err(e);
            },
            Ok(v) => {
                proof {
                    lemma_vars_view_push(out@, v);
                }
                out.push(v);
            },
        }
        i = i + 1;
    }
    assert(av.skip(i as int).len() == 0);
    assert(vars_view(out@) + seq![] =~= vars_view(out@));
    Ok(out)
}

/// The object of an OMOBJ, in the scope of its `cdbase`, or of `base`.
fn read_omobj<'o>(j: &Json, base: &str) -> (r: Result<OpenMath<'o>, JsonReadError>)
    ensures
        dec_omobj(json_view(*j), base@) == jres(r),
{
    match j {
        Json::Object(m) => {
            let ghost mv = members_view(m@);
            proof {
                lemma_members_view(m@);
            }
            let mut i: usize = 0;
            while i < m.len()
                invariant
                    i <= m.len(),
                    mv == members_view(m@),
                    mv.len() == m.len(),
                    forall|j: int|
                        0 <= j < m.len() ==> #[trigger] mv[j] == (m@[j].0@, json_view(m@[j].1)),
                    omobj_bad_key_from(mv, 0) == omobj_bad_key_from(mv, i as int),
                    json_view(*j) == JsonView::Object(mv),
                decreases m.len() - i,
            {
                let k = m[i].0.as_str();
                if !(str_eq(k, "kind") || str_eq(k, "openmath") || str_eq(k, "cdbase") || str_eq(
                    k,
                    "object",
                )) {
                    assert(mv[i as int] == (m@[i as int].0@, json_view(m@[i as int].1)));
                    assert(omobj_bad_key_from(mv, i as int) == Some(mv[i as int].0));
                    let key = m[i].0.clone();
                    assert(key@ == mv[i as int].0);
                    return Err(JsonReadError::InvalidKey(key));
                }
                i = i + 1;
            }
            match str_field(m, "kind") {
                Err(e) => {
                    return Err(e);
                },
                Ok(Some(k)) => {
                    if !str_eq(k.as_str(), "OMOBJ") {
                        return Err(JsonReadError::InvalidKind(k.clone()));
                    }
                },
                Ok(None) => {},
            }
            let cb = match scoped_base(m, base) {
                Err(e) => {
                    return Err(e);
                },
                Ok(c) => c,
            };
            match find(m, "object") {
                None => Err(JsonReadError::Missing("object")),
                Some(o) => read_om(&m[o].1, cb.as_str(), Vec::new()),
            }
        },
        _ => Err(JsonReadError::NotAnObject),
    }
}

impl<'o> OpenMath<'o> {
    /// Reads an object from its JSON value, with [`OPENMATH_BASE_URI`] as
    /// the cdbase in effect.
    pub fn from_json(j: &Json) -> (r: Result<OpenMath<'o>, JsonReadError>)
        ensures
            dec_om(json_view(*j), OPENMATH_BASE_URI@, seq![]) == jres(r),
    {
        read_om(j, OPENMATH_BASE_URI, Vec::new())
    }
}

/// An object read from a JSON value.
pub struct OMFromSerde<'o>(pub OpenMath<'o>);

impl<'o> OMFromSerde<'o> {
    /// Reads an object from its JSON value, as [`OpenMath::from_json`] does.
    pub fn from_json(j: &Json) -> (r: Result<OMFromSerde<'o>, JsonReadError>)
        ensures
            dec_om(json_view(*j), OPENMATH_BASE_URI@, seq![]) == match r {
                Ok(o) => Ok(om_view(o.0)),
                Err(e) => Err(e@),
            },
    {
        match read_om(j, OPENMATH_BASE_URI, Vec::new()) {
            Ok(o) => Ok(OMFromSerde(o)),
            Err(e) => Err(e),
        }
    }

    /// The object read.
    pub fn into_inner(self) -> (r: OpenMath<'o>)
        ensures
            r == self.0,
    {
        self.0
    }
}

impl<'o> crate::de::OMObject<'o> {
    /// Reads the object of an OMOBJ from its JSON value: `kind`, where there
    /// is one, must be `OMOBJ`; `openmath` is ignored; the OMOBJ's `cdbase`,
    /// where it has one, is the cdbase in effect, else [`OPENMATH_BASE_URI`].
    pub fn from_json(j: &Json) -> (r: Result<OpenMath<'o>, JsonReadError>)
        ensures
            dec_omobj(json_view(*j), OPENMATH_BASE_URI@) == jres(r),
    {
        read_omobj(j, OPENMATH_BASE_URI)
    }
}

} // verus!
