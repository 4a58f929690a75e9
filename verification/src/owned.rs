//! Objects that own all their text, made from objects that borrow it.
use std::borrow::Cow;
use vstd::prelude::*;

use crate::de::convert::bytes_vec;
use crate::om::{
    attrs_view, cow_str, foreign_view, foreigns_view,
    lemma_attrs_view_push, lemma_foreigns_view_push, lemma_oms_view_push, lemma_vars_view_push,
    om_view, oms_view, opt_view, vars_view, Attr, BoundVariable, OMMaybeForeign,
    OpenMath,
};
use crate::ser::cow_bytes;

verus! {

/// An owned copy of a text.
fn owned_str(c: &Cow<'_, str>) -> (r: Cow<'static, str>)
    ensures
        r@ == c@,
{
    Cow::Owned(cow_str(c).to_owned())
}

/// An owned copy of an optional text.
fn owned_opt(c: &Option<Cow<'_, str>>) -> (r: Option<Cow<'static, str>>)
    ensures
        opt_view(r) == opt_view(*c),
{
    match c {
        Some(s) => Some(owned_str(s)),
        None => None,
    }
}

/// An owned copy of an object.
fn owned_om(o: &OpenMath<'_>) -> (r: OpenMath<'static>)
    ensures
        om_view(r) == om_view(*o),
    decreases o, 1int,
{
    let attributes = owned_attrs(o.attributes());
    match o {
        OpenMath::OMI { int: i, .. } => OpenMath::OMI { int: i.clone().into_owned(), attributes },
        OpenMath::OMF { float, .. } => OpenMath::OMF { float: owned_str(float), attributes },
        OpenMath::OMSTR { string, .. } => OpenMath::OMSTR { string: owned_str(string), attributes },
        OpenMath::OMB { bytes, .. } => OpenMath::OMB {
            bytes: Cow::Owned(bytes_vec(cow_bytes(bytes))),
            attributes,
        },
        OpenMath::OMV { name, .. } => OpenMath::OMV { name: owned_str(name), attributes },
        OpenMath::OMS { cd, name, cdbase, .. } => OpenMath::OMS {
            cd: owned_str(cd),
            name: owned_str(name),
            cdbase: owned_opt(cdbase),
            attributes,
        },
        OpenMath::OMA { applicant, arguments, .. } => OpenMath::OMA {
            applicant: Box::new(owned_om(&**applicant)),
            arguments: owned_args(arguments),
            attributes,
        },
        OpenMath::OME { cd, name, cdbase, arguments, .. } => OpenMath::OME {
            cd: owned_str(cd),
            name: owned_str(name),
            cdbase: owned_opt(cdbase),
            arguments: owned_foreigns(arguments),
            attributes,
        },
        OpenMath::OMBIND { binder, variables, object, .. } => OpenMath::OMBIND {
            binder: Box::new(owned_om(&**binder)),
            variables: owned_vars(variables),
            object: Box::new(owned_om(&**object)),
            attributes,
        },
    }
}

/// An owned copy of an object or OMFOREIGN.
fn owned_foreign(f: &OMMaybeForeign<'_, OpenMath<'_>>) -> (r: OMMaybeForeign<'static, OpenMath<'static>>)
    ensures
        foreign_view(r) == foreign_view(*f),
    decreases f, 1int,
{
    match f {
        OMMaybeForeign::OM(o) => OMMaybeForeign::OM(owned_om(o)),
        OMMaybeForeign::Foreign { encoding, value } => OMMaybeForeign::Foreign {
            encoding: owned_opt(encoding),
            value: owned_str(value),
        },
    }
}

/// Owned copies of attributes.
fn owned_attrs(s: &Vec<Attr<'_, OMMaybeForeign<'_, OpenMath<'_>>>>) -> (r: Vec<
    Attr<'static, OMMaybeForeign<'static, OpenMath<'static>>>,
>)
    ensures
        attrs_view(r@) == attrs_view(s@),
    decreases s, 1int,
{
    let mut v: Vec<Attr<'static, OMMaybeForeign<'static, OpenMath<'static>>>> = Vec::new();
    for i in 0..s.len()
        invariant
            attrs_view(v@) == attrs_view(s@.take(i as int)),
    {
        let a = &s[i];
        let x = Attr {
            cdbase: owned_opt(&a.cdbase),
            cd: owned_str(&a.cd),
            name: owned_str(&a.name),
            value: owned_foreign(&a.value),
        };
        proof {
            lemma_attrs_view_push(v@, x);
            lemma_attrs_view_push(s@.take(i as int), *a);
            assert(s@.take(i + 1) =~= s@.take(i as int).push(*a));
        }
        v.push(x);
    }
    assert(s@.take(s.len() as int) =~= s@);
    v
}

/// Owned copies of objects.
fn owned_args(s: &Vec<OpenMath<'_>>) -> (r: Vec<OpenMath<'static>>)
    ensures
        oms_view(r@) == oms_view(s@),
    decreases s, 1int,
{
    let mut v: Vec<OpenMath<'static>> = Vec::new();
    for i in 0..s.len()
        invariant
            oms_view(v@) == oms_view(s@.take(i as int)),
    {
        let x = owned_om(&s[i]);
        proof {
            lemma_oms_view_push(v@, x);
            lemma_oms_view_push(s@.take(i as int), s@[i as int]);
            assert(s@.take(i + 1) =~= s@.take(i as int).push(s@[i as int]));
        }
        v.push(x);
    }
    assert(s@.take(s.len() as int) =~= s@);
    v
}

/// Owned copies of objects and OMFOREIGNs.
fn owned_foreigns(s: &Vec<OMMaybeForeign<'_, OpenMath<'_>>>) -> (r: Vec<
    OMMaybeForeign<'static, OpenMath<'static>>,
>)
    ensures
        foreigns_view(r@) == foreigns_view(s@),
    decreases s, 1int,
{
    let mut v: Vec<OMMaybeForeign<'static, OpenMath<'static>>> = Vec::new();
    for i in 0..s.len()
        invariant
            foreigns_view(v@) == foreigns_view(s@.take(i as int)),
    {
        let x = owned_foreign(&s[i]);
        proof {
            lemma_foreigns_view_push(v@, x);
            lemma_foreigns_view_push(s@.take(i as int), s@[i as int]);
            assert(s@.take(i + 1) =~= s@.take(i as int).push(s@[i as int]));
        }
        v.push(x);
    }
    assert(s@.take(s.len() as int) =~= s@);
    v
}

/// Owned copies of bound variables.
fn owned_vars(s: &Vec<BoundVariable<'_>>) -> (r: Vec<BoundVariable<'static>>)
    ensures
        vars_view(r@) == vars_view(s@),
    decreases s, 1int,
{
    let mut v: Vec<BoundVariable<'static>> = Vec::new();
    for i in 0..s.len()
        invariant
            vars_view(v@) == vars_view(s@.take(i as int)),
    {
        let b = &s[i];
        let x = BoundVariable { name: owned_str(&b.name), attributes: owned_attrs(&b.attributes) };
        proof {
            lemma_vars_view_push(v@, x);
            lemma_vars_view_push(s@.take(i as int), *b);
            assert(s@.take(i + 1) =~= s@.take(i as int).push(*b));
        }
        v.push(x);
    }
    assert(s@.take(s.len() as int) =~= s@);
    v
}

impl<'om> OpenMath<'om> {
    /// This object, owning all its text.
    pub fn into_owned(self) -> (r: OpenMath<'static>)
        ensures
            om_view(r) == om_view(self),
    {
        owned_om(&self)
    }
}

} // verus!
