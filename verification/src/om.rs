//! The OpenMath object model.
use std::borrow::Cow;
use vstd::prelude::*;

use crate::{Int, IntView};

verus! {

/// An attribute in an OMATTR: a symbol and its value.
#[derive(Debug, PartialEq, Eq, Hash)]
pub struct Attr<'o, I> {
    pub cdbase: Option<Cow<'o, str>>,
    pub cd: Cow<'o, str>,
    pub name: Cow<'o, str>,
    pub value: I,
}

/// Either an OpenMath object or an OMFOREIGN.
#[derive(Debug, PartialEq, Eq, Hash)]
pub enum OMMaybeForeign<'o, I> {
    OM(I),
    Foreign { encoding: Option<Cow<'o, str>>, value: Cow<'o, str> },
}

/// The attributes of an object.
pub type Attrs<'om> = Vec<Attr<'om, OMMaybeForeign<'om, OpenMath<'om>>>>;

/// A bound variable in an OMBIND.
#[derive(Debug, PartialEq, Eq, Hash)]
pub struct BoundVariable<'om> {
    pub name: Cow<'om, str>,
    pub attributes: Vec<Attr<'om, OMMaybeForeign<'om, OpenMath<'om>>>>,
}

/// All OpenMath objects.
#[derive(Debug, PartialEq, Eq, Hash)]
pub enum OpenMath<'om> {
    OMI { int: Int<'om>, attributes: Vec<Attr<'om, OMMaybeForeign<'om, OpenMath<'om>>>> },
    OMF { float: Cow<'om, str>, attributes: Vec<Attr<'om, OMMaybeForeign<'om, OpenMath<'om>>>> },
    OMSTR { string: Cow<'om, str>, attributes: Vec<Attr<'om, OMMaybeForeign<'om, OpenMath<'om>>>> },
    OMB { bytes: Cow<'om, [u8]>, attributes: Vec<Attr<'om, OMMaybeForeign<'om, OpenMath<'om>>>> },
    OMV { name: Cow<'om, str>, attributes: Vec<Attr<'om, OMMaybeForeign<'om, OpenMath<'om>>>> },
    OMS {
        cd: Cow<'om, str>,
        name: Cow<'om, str>,
        cdbase: Option<Cow<'om, str>>,
        attributes: Vec<Attr<'om, OMMaybeForeign<'om, OpenMath<'om>>>>,
    },
    OMA {
        applicant: Box<OpenMath<'om>>,
        arguments: Vec<OpenMath<'om>>,
        attributes: Vec<Attr<'om, OMMaybeForeign<'om, OpenMath<'om>>>>,
    },
    OME {
        cd: Cow<'om, str>,
        name: Cow<'om, str>,
        cdbase: Option<Cow<'om, str>>,
        arguments: Vec<OMMaybeForeign<'om, OpenMath<'om>>>,
        attributes: Vec<Attr<'om, OMMaybeForeign<'om, OpenMath<'om>>>>,
    },
    OMBIND {
        binder: Box<OpenMath<'om>>,
        variables: Vec<BoundVariable<'om>>,
        object: Box<OpenMath<'om>>,
        attributes: Vec<Attr<'om, OMMaybeForeign<'om, OpenMath<'om>>>>,
    },
}

/// The text of an optional string.
pub open spec fn opt_view(o: Option<Cow<'_, str>>) -> Option<Seq<char>> {
    match o {
        Some(s) => Some(s@),
        None => None,
    }
}

/// The attributes of an object.
pub open spec fn attributes_of<'om>(o: OpenMath<'om>) -> Vec<Attr<'om, OMMaybeForeign<'om, OpenMath<'om>>>> {
    match o {
        OpenMath::OMI { attributes, .. } => attributes,
        OpenMath::OMF { attributes, .. } => attributes,
        OpenMath::OMSTR { attributes, .. } => attributes,
        OpenMath::OMB { attributes, .. } => attributes,
        OpenMath::OMV { attributes, .. } => attributes,
        OpenMath::OMS { attributes, .. } => attributes,
        OpenMath::OMA { attributes, .. } => attributes,
        OpenMath::OME { attributes, .. } => attributes,
        OpenMath::OMBIND { attributes, .. } => attributes,
    }
}

impl<'om> OpenMath<'om> {
    /// The attributes of this object.
    pub fn attributes(&self) -> (r: &Vec<Attr<'om, OMMaybeForeign<'om, OpenMath<'om>>>>)
        ensures
            *r == attributes_of(*self),
    {
        match self {
            OpenMath::OMI { attributes, .. } => attributes,
            OpenMath::OMF { attributes, .. } => attributes,
            OpenMath::OMSTR { attributes, .. } => attributes,
            OpenMath::OMB { attributes, .. } => attributes,
            OpenMath::OMV { attributes, .. } => attributes,
            OpenMath::OMS { attributes, .. } => attributes,
            OpenMath::OMA { attributes, .. } => attributes,
            OpenMath::OME { attributes, .. } => attributes,
            OpenMath::OMBIND { attributes, .. } => attributes,
        }
    }
}

/// The text a string holds, borrowed.
pub fn cow_str<'a>(c: &'a Cow<'_, str>) -> (r: &'a str)
    ensures
        r@ == c@,
{
    match c {
        Cow::Borrowed(s) => s,
        Cow::Owned(s) => s.as_str(),
    }
}

/// The text an optional string holds, borrowed.
pub fn opt_cow_str<'a>(c: &'a Option<Cow<'_, str>>) -> (r: Option<&'a str>)
    ensures
        match r {
            Some(s) => opt_view(*c) == Some(s@),
            None => opt_view(*c) is None,
        },
{
    match c {
        Some(s) => Some(cow_str(s)),
        None => None,
    }
}

} // verus!

verus! {

/// What an OpenMath object holds, as mathematical values.
pub ghost enum OMView {
    OMI { integer: IntView, attrs: Seq<AttrView> },
    OMF { float: Seq<char>, attrs: Seq<AttrView> },
    OMSTR { string: Seq<char>, attrs: Seq<AttrView> },
    OMB { bytes: Seq<u8>, attrs: Seq<AttrView> },
    OMV { name: Seq<char>, attrs: Seq<AttrView> },
    OMS { cd: Seq<char>, name: Seq<char>, cdbase: Option<Seq<char>>, attrs: Seq<AttrView> },
    OMA { applicant: Box<OMView>, arguments: Seq<OMView>, attrs: Seq<AttrView> },
    OME {
        cd: Seq<char>,
        name: Seq<char>,
        cdbase: Option<Seq<char>>,
        arguments: Seq<ForeignView>,
        attrs: Seq<AttrView>,
    },
    OMBIND {
        binder: Box<OMView>,
        variables: Seq<VarView>,
        object: Box<OMView>,
        attrs: Seq<AttrView>,
    },
}

/// What an attribute holds.
pub ghost struct AttrView {
    pub cdbase: Option<Seq<char>>,
    pub cd: Seq<char>,
    pub name: Seq<char>,
    pub value: ForeignView,
}

/// What an object or OMFOREIGN holds.
pub ghost enum ForeignView {
    OM(OMView),
    Foreign { encoding: Option<Seq<char>>, value: Seq<char> },
}

/// What a bound variable holds.
pub ghost struct VarView {
    pub name: Seq<char>,
    pub attrs: Seq<AttrView>,
}

/// The view of an object.
pub open spec fn om_view(o: OpenMath) -> OMView
    decreases o, 1int,
{
    match o {
        OpenMath::OMI { int: i, attributes } => OMView::OMI {
            integer: i@,
            attrs: attrs_view(attributes@),
        },
        OpenMath::OMF { float, attributes } => OMView::OMF {
            float: float@,
            attrs: attrs_view(attributes@),
        },
        OpenMath::OMSTR { string, attributes } => OMView::OMSTR {
            string: string@,
            attrs: attrs_view(attributes@),
        },
        OpenMath::OMB { bytes, attributes } => OMView::OMB {
            bytes: bytes@,
            attrs: attrs_view(attributes@),
        },
        OpenMath::OMV { name, attributes } => OMView::OMV { name: name@, attrs: attrs_view(attributes@) },
        OpenMath::OMS { cd, name, cdbase, attributes } => OMView::OMS {
            cd: cd@,
            name: name@,
            cdbase: opt_view(cdbase),
            attrs: attrs_view(attributes@),
        },
        OpenMath::OMA { applicant, arguments, attributes } => OMView::OMA {
            applicant: Box::new(om_view(*applicant)),
            arguments: oms_view(arguments@),
            attrs: attrs_view(attributes@),
        },
        OpenMath::OME { cd, name, cdbase, arguments, attributes } => OMView::OME {
            cd: cd@,
            name: name@,
            cdbase: opt_view(cdbase),
            arguments: foreigns_view(arguments@),
            attrs: attrs_view(attributes@),
        },
        OpenMath::OMBIND { binder, variables, object, attributes } => OMView::OMBIND {
            binder: Box::new(om_view(*binder)),
            variables: vars_view(variables@),
            object: Box::new(om_view(*object)),
            attrs: attrs_view(attributes@),
        },
    }
}

/// The views of a sequence of objects.
pub open spec fn oms_view(s: Seq<OpenMath>) -> Seq<OMView>
    decreases s, 1int,
{
    if s.len() == 0 {
        seq![]
    } else {
        oms_view(s.drop_last()).push(om_view(s.last()))
    }
}

/// The view of an object or OMFOREIGN.
pub open spec fn foreign_view(f: OMMaybeForeign<OpenMath>) -> ForeignView
    decreases f, 1int,
{
    match f {
        OMMaybeForeign::OM(o) => ForeignView::OM(om_view(o)),
        OMMaybeForeign::Foreign { encoding, value } => ForeignView::Foreign {
            encoding: opt_view(encoding),
            value: value@,
        },
    }
}

/// The views of a sequence of objects or OMFOREIGNs.
pub open spec fn foreigns_view(s: Seq<OMMaybeForeign<OpenMath>>) -> Seq<ForeignView>
    decreases s, 1int,
{
    if s.len() == 0 {
        seq![]
    } else {
        foreigns_view(s.drop_last()).push(foreign_view(s.last()))
    }
}

/// The view of an attribute.
pub open spec fn attr_view(a: Attr<OMMaybeForeign<OpenMath>>) -> AttrView
    decreases a, 1int,
{
    AttrView { cdbase: opt_view(a.cdbase), cd: a.cd@, name: a.name@, value: foreign_view(a.value) }
}

/// The views of a sequence of attributes.
pub open spec fn attrs_view(s: Seq<Attr<OMMaybeForeign<OpenMath>>>) -> Seq<AttrView>
    decreases s, 1int,
{
    if s.len() == 0 {
        seq![]
    } else {
        attrs_view(s.drop_last()).push(attr_view(s.last()))
    }
}

/// The view of a bound variable.
pub open spec fn var_view(v: BoundVariable) -> VarView
    decreases v, 1int,
{
    VarView { name: v.name@, attrs: attrs_view(v.attributes@) }
}

/// The views of a sequence of bound variables.
pub open spec fn vars_view(s: Seq<BoundVariable>) -> Seq<VarView>
    decreases s, 1int,
{
    if s.len() == 0 {
        seq![]
    } else {
        vars_view(s.drop_last()).push(var_view(s.last()))
    }
}

/// Adding an object adds its view.
pub proof fn lemma_oms_view_push(s: Seq<OpenMath>, a: OpenMath)
    ensures
        oms_view(s.push(a)) == oms_view(s).push(om_view(a)),
        forall|rest: Seq<OMView>| #[trigger] (oms_view(s) + (seq![om_view(a)] + rest)) == oms_view(
            s.push(a),
        ) + rest,
{
    assert(s.push(a).drop_last() =~= s);
    assert forall|rest: Seq<OMView>| #[trigger] (oms_view(s) + (seq![om_view(a)] + rest))
        == oms_view(s.push(a)) + rest by {
        assert(oms_view(s) + (seq![om_view(a)] + rest) =~= oms_view(s.push(a)) + rest);
    }
}

/// Adding an object or OMFOREIGN adds its view.
pub proof fn lemma_foreigns_view_push(s: Seq<OMMaybeForeign<OpenMath>>, a: OMMaybeForeign<OpenMath>)
    ensures
        foreigns_view(s.push(a)) == foreigns_view(s).push(foreign_view(a)),
        forall|rest: Seq<ForeignView>| #[trigger] (foreigns_view(s) + (seq![foreign_view(a)] + rest))
            == foreigns_view(s.push(a)) + rest,
{
    assert(s.push(a).drop_last() =~= s);
    assert forall|rest: Seq<ForeignView>| #[trigger] (foreigns_view(s) + (seq![foreign_view(a)]
        + rest)) == foreigns_view(s.push(a)) + rest by {
        assert(foreigns_view(s) + (seq![foreign_view(a)] + rest) =~= foreigns_view(s.push(a))
            + rest);
    }
}

/// Adding an attribute adds its view.
pub proof fn lemma_attrs_view_push(s: Seq<Attr<OMMaybeForeign<OpenMath>>>, a: Attr<OMMaybeForeign<OpenMath>>)
    ensures
        attrs_view(s.push(a)) == attrs_view(s).push(attr_view(a)),
{
    assert(s.push(a).drop_last() =~= s);
}

/// Adding a bound variable adds its view.
pub proof fn lemma_vars_view_push(s: Seq<BoundVariable>, a: BoundVariable)
    ensures
        vars_view(s.push(a)) == vars_view(s).push(var_view(a)),
        forall|rest: Seq<VarView>| #[trigger] (vars_view(s) + (seq![var_view(a)] + rest))
            == vars_view(s.push(a)) + rest,
{
    assert(s.push(a).drop_last() =~= s);
    assert forall|rest: Seq<VarView>| #[trigger] (vars_view(s) + (seq![var_view(a)] + rest))
        == vars_view(s.push(a)) + rest by {
        assert(vars_view(s) + (seq![var_view(a)] + rest) =~= vars_view(s.push(a)) + rest);
    }
}

/// The view of two sequences of attributes one after the other.
pub proof fn lemma_attrs_view_concat(a: Seq<Attr<OMMaybeForeign<OpenMath>>>, b: Seq<Attr<OMMaybeForeign<OpenMath>>>)
    ensures
        attrs_view(a + b) == attrs_view(a) + attrs_view(b),
    decreases b.len(),
{
    if b.len() == 0 {
        assert(a + b =~= a);
        assert(attrs_view(a) + attrs_view(b) =~= attrs_view(a));
    } else {
        lemma_attrs_view_concat(a, b.drop_last());
        assert((a + b).drop_last() =~= a + b.drop_last());
        assert((a + b).last() == b.last());
        assert(attrs_view(a) + attrs_view(b) =~= (attrs_view(a) + attrs_view(b.drop_last())).push(
            attr_view(b.last()),
        ));
    }
}

} // verus!
