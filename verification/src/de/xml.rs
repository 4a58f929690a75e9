//! The reader of OpenMath XML: it pulls events from the `quick_xml` reader and
//! builds OpenMath objects, as the grammar of the sibling module describes.
use quick_xml::errors::Error as XmlError;
use quick_xml::Reader;
use std::str::Utf8Error;
use vstd::prelude::*;
use vstd::string::StringSliceAdditionalSpecFns;

use crate::base64::Error as Base64Error;
use crate::de::events::{
    buffer_position, error_position, raw_view, read_event, read_to_end, reader_events,
    reader_from_str, start_attrs, start_attrs_of, start_local, start_name, tag_view, text_bytes,
    end_name, to_end, tokens_wf, xml_tokens, EventView, RawEvent, TagView, TokenView,
};
use crate::base64::Base64Decoder;
use crate::de::grammar::{
    adv, attr_text, bvars, collect_bytes, ev, float_attr, get_attr,
    handle_next, is_hex_text, is_tag, need_end, next_foreign, oma_args, ome_args, omatp,
    omattr_or_var, omattr_pairs, p_omattr, p_oma, p_omb, p_ombind, p_ome, p_omf, p_omi, p_oms,
    p_omstr, p_omv, progress, read_obj, read_om, req_attr, scoped_cdbase, skip_ws, ReadErr, St,
};
use crate::integer::Int;
use crate::om::{
    lemma_attrs_view_push, lemma_foreigns_view_push, lemma_oms_view_push, lemma_vars_view_push,
    attrs_view, foreign_view, foreigns_view, om_view, oms_view, var_view, vars_view,
    Attr, Attrs, BoundVariable, ForeignView, OMMaybeForeign, OMView, OpenMath, VarView,
};
use crate::CD_BASE;
use std::ops::ControlFlow;
use crate::text::{
    ascii, bytes_all_ws, bytes_eq_str, decode_str, float_text_ok, str_chars, trim_ascii,
    trim_range, unescape_str,
};
use std::borrow::Cow;

verus! {

/// Errors in reading OpenMath XML.
#[derive(Debug)]
pub enum XmlReadError {
    /// The XML reader failed, at the given offset.
    Xml { error: XmlError, position: u64 },
    /// An invalid empty element.
    Empty(u64),
    /// An element that is no OpenMath element, or does not belong where it stands.
    UnexpectedTag(u64),
    /// The input holds no OpenMath object.
    NoObject,
    /// A text node was expected.
    ExpectedText,
    /// Text that is not UTF-8.
    Utf8(Utf8Error),
    /// An OMI whose text is no integer.
    InvalidInteger(String),
    /// An OMF whose `dec` is no float.
    InvalidFloat(String),
    /// The object read cannot be converted into the type asked for.
    NotFullyConvertible,
    /// A required attribute is missing.
    ExpectedAttribute(&'static str),
    /// An OMB whose text is no base64.
    Base64(Base64Error),
    /// An element that must be empty is not.
    EmptyExpectedFor(&'static str, u64),
    /// An element that must not be empty is.
    NonEmptyExpectedFor(&'static str, u64),
    /// The input cannot be borrowed from.
    RequiresAllocating(u64),
    /// Hexadecimal integers and floats are not supported.
    Hex,
    /// An OMATP key without its value.
    AttributeValue(u64),
}

impl View for XmlReadError {
    type V = ReadErr;

    open spec fn view(&self) -> ReadErr {
        match self {
            XmlReadError::Xml { .. } => ReadErr::Xml,
            XmlReadError::Empty(p) => ReadErr::Empty(*p),
            XmlReadError::UnexpectedTag(p) => ReadErr::UnexpectedTag(*p),
            XmlReadError::NoObject => ReadErr::NoObject,
            XmlReadError::ExpectedText => ReadErr::ExpectedText,
            XmlReadError::Utf8(_) => ReadErr::Utf8,
            XmlReadError::InvalidInteger(s) => ReadErr::InvalidInteger(s@),
            XmlReadError::InvalidFloat(s) => ReadErr::InvalidFloat(s@),
            XmlReadError::NotFullyConvertible => ReadErr::NotFullyConvertible,
            XmlReadError::ExpectedAttribute(s) => ReadErr::ExpectedAttribute(s@),
            XmlReadError::Base64(e) => ReadErr::Base64(*e),
            XmlReadError::EmptyExpectedFor(s, p) => ReadErr::EmptyExpectedFor(s@, *p),
            XmlReadError::NonEmptyExpectedFor(s, p) => ReadErr::NonEmptyExpectedFor(s@, *p),
            XmlReadError::RequiresAllocating(p) => ReadErr::RequiresAllocating(*p),
            XmlReadError::Hex => ReadErr::Hex,
            XmlReadError::AttributeValue(p) => ReadErr::AttributeValue(*p),
        }
    }
}

/// The attributes of a tag as byte sequences.
pub open spec fn attrs_seq(a: Seq<Option<(Vec<u8>, Vec<u8>)>>) -> Seq<Option<(Seq<u8>, Seq<u8>)>> {
    a.map_values(
        |o: Option<(Vec<u8>, Vec<u8>)>|
            match o {
                Some((k, v)) => Some((k@, v@)),
                None => None,
            },
    )
}

/// A start or empty tag, copied out of the reader.
pub struct Tag {
    pub name: Vec<u8>,
    pub local: Vec<u8>,
    pub attrs: Vec<Option<(Vec<u8>, Vec<u8>)>>,
}

impl View for Tag {
    type V = TagView;

    open spec fn view(&self) -> TagView {
        TagView { name: self.name@, local: self.local@, attrs: attrs_seq(self.attrs@) }
    }
}

/// An event, copied out of the reader.
pub enum XmlEvent {
    Start(Tag),
    Empty(Tag),
    End(Vec<u8>),
    Text(Vec<u8>),
    Eof,
    Other,
}

impl View for XmlEvent {
    type V = EventView;

    open spec fn view(&self) -> EventView {
        match self {
            XmlEvent::Start(g) => EventView::Start(g@),
            XmlEvent::Empty(g) => EventView::Empty(g@),
            XmlEvent::End(n) => EventView::End(n@),
            XmlEvent::Text(b) => EventView::Text(b@),
            XmlEvent::Eof => EventView::Eof,
            XmlEvent::Other => EventView::Other,
        }
    }
}

/// Copies a tag out of the reader.
fn tag_of(b: &quick_xml::events::BytesStart) -> (t: Tag)
    ensures
        t@ == tag_view(*b),
{
    let name = start_name(b);
    let local = start_local(b);
    let attrs = start_attrs(b);
    assert(attrs_seq(attrs@) =~= start_attrs_of(*b)) by {
        assert forall|i: int| 0 <= i < attrs@.len() implies #[trigger] attrs_seq(attrs@)[i]
            == start_attrs_of(*b)[i] by {
            let x = attrs@[i];
            let y = start_attrs_of(*b)[i];
            match (x, y) {
                (Some((k, v)), Some((k2, v2))) => {},
                _ => {},
            }
        }
    }
    Tag { name, local, attrs }
}

/// Copies an event out of the reader.
fn event_of(e: RawEvent) -> (r: XmlEvent)
    ensures
        r@ == raw_view(e),
{
    match e {
        RawEvent::Start(b) => XmlEvent::Start(tag_of(&b)),
        RawEvent::Empty(b) => XmlEvent::Empty(tag_of(&b)),
        RawEvent::End(b) => XmlEvent::End(end_name(&b)),
        RawEvent::Text(b) => XmlEvent::Text(text_bytes(&b)),
        RawEvent::Eof => XmlEvent::Eof,
        RawEvent::Other => XmlEvent::Other,
    }
}

/// Where `to_end` stops, it stops at an end tag.
proof fn lemma_to_end(t: Seq<TokenView>, k: int, name: Seq<u8>, depth: nat)
    ensures
        to_end(t, k, name, depth) matches Some(j) ==> k <= j < t.len() && (t[j].event matches Some(
            EventView::End(_),
        )),
    decreases t.len() - k,
{
    if 0 <= k < t.len() {
        match t[k].event {
            Some(EventView::Start(g)) => if g.name == name {
                lemma_to_end(t, k + 1, name, depth + 1);
            } else {
                lemma_to_end(t, k + 1, name, depth);
            },
            Some(EventView::End(n)) => if n == name {
                if depth != 0 {
                    lemma_to_end(t, k + 1, name, (depth - 1) as nat);
                }
            } else {
                lemma_to_end(t, k + 1, name, depth);
            },
            None => {},
            Some(EventView::Eof) => {},
            _ => {
                lemma_to_end(t, k + 1, name, depth);
            },
        }
    }
}

/// The first well-formed attribute named `key`.
fn find_attr<'a>(attrs: &'a Vec<Option<(Vec<u8>, Vec<u8>)>>, key: &str) -> (r: Option<&'a Vec<u8>>)
    ensures
        match r {
            Some(v) => get_attr(attrs_seq(attrs@), ascii(key@)) == Some(v@),
            None => get_attr(attrs_seq(attrs@), ascii(key@)) is None,
        },
{
    let ghost a = attrs_seq(attrs@);
    let ghost k = ascii(key@);
    let mut i: usize = 0;
    assert(a.skip(0) =~= a);
    while i < attrs.len()
        invariant
            i <= attrs.len(),
            a == attrs_seq(attrs@),
            k == ascii(key@),
            get_attr(a, k) == get_attr(a.skip(i as int), k),
        decreases attrs.len() - i,
    {
        assert(a.skip(i as int)[0] == a[i as int]);
        assert(a.skip(i as int).drop_first() =~= a.skip(i + 1));
        match &attrs[i] {
            Some((kk, v)) => {
                if bytes_eq_str(kk.as_slice(), key) {
                    return Some(v);
                }
            },
            None => {},
        }
        i = i + 1;
    }
    assert(a.skip(i as int).len() == 0);
    None
}

/// The first of the attributes `hex` and `dec`: `Some(None)` for `hex`,
/// `Some(Some(v))` for `dec` with value `v`.
fn float_attr_of<'a>(attrs: &'a Vec<Option<(Vec<u8>, Vec<u8>)>>) -> (r: Option<Option<&'a Vec<u8>>>)
    ensures
        match r {
            None => float_attr(attrs_seq(attrs@)) is None,
            Some(None) => float_attr(attrs_seq(attrs@)) == Some(None::<Seq<u8>>),
            Some(Some(v)) => float_attr(attrs_seq(attrs@)) == Some(Some(v@)),
        },
{
    let ghost a = attrs_seq(attrs@);
    let mut i: usize = 0;
    assert(a.skip(0) =~= a);
    while i < attrs.len()
        invariant
            i <= attrs.len(),
            a == attrs_seq(attrs@),
            float_attr(a) == float_attr(a.skip(i as int)),
        decreases attrs.len() - i,
    {
        assert(a.skip(i as int)[0] == a[i as int]);
        assert(a.skip(i as int).drop_first() =~= a.skip(i + 1));
        match &attrs[i] {
            Some((kk, v)) => {
                if bytes_eq_str(kk.as_slice(), "hex") {
                    return Some(None);
                } else if bytes_eq_str(kk.as_slice(), "dec") {
                    return Some(Some(v));
                }
            },
            None => {},
        }
        i = i + 1;
    }
    assert(a.skip(i as int).len() == 0);
    None
}

/// An optional attribute as text.
fn attr_string(g: &Tag, key: &str) -> (r: Result<Option<String>, XmlReadError>)
    ensures
        attr_text(g@, key@) == match r {
            Ok(Some(s)) => Ok(Some(s@)),
            Ok(None) => Ok(None),
            Err(e) => Err(e@),
        },
{
    match find_attr(&g.attrs, key) {
        None => Ok(None),
        Some(v) => match decode_str(v.as_slice()) {
            Ok(s) => Ok(Some(unescape_str(s))),
            Err(e) => Err(XmlReadError::Utf8(e)),
        },
    }
}

/// A required attribute as text.
fn req_string(g: &Tag, key: &'static str) -> (r: Result<String, XmlReadError>)
    ensures
        req_attr(g@, key@) == match r {
            Ok(s) => Ok(s@),
            Err(e) => Err(e@),
        },
{
    match find_attr(&g.attrs, key) {
        None => Err(XmlReadError::ExpectedAttribute(key)),
        Some(v) => match decode_str(v.as_slice()) {
            Ok(s) => Ok(unescape_str(s)),
            Err(e) => Err(XmlReadError::Utf8(e)),
        },
    }
}

/// The cdbase in effect inside an element.
fn scoped(g: &Tag, cdbase: &str) -> (r: Result<String, XmlReadError>)
    ensures
        scoped_cdbase(g@, cdbase@) == match r {
            Ok(s) => Ok(s@),
            Err(e) => Err(e@),
        },
{
    match attr_string(g, "cdbase") {
        Err(e) => Err(e),
        Ok(Some(c)) => Ok(c),
        Ok(None) => Ok(cdbase.to_owned()),
    }
}

/// Whether a tag has the given name, without namespace prefix.
fn tag_is(g: &Tag, name: &str) -> (r: bool)
    ensures
        r == is_tag(g@, name@),
{
    bytes_eq_str(g.local.as_slice(), name)
}

/// Whether an integer text is hexadecimal.
fn hex_text(s: &str) -> (r: bool)
    ensures
        r == is_hex_text(s@),
{
    let cs = str_chars(s);
    (cs.len() > 0 && cs[0] == 'x') || (cs.len() > 1 && cs[0] == '-' && cs[1] == 'x')
}

/// All decoded bytes, or the first error.
pub(crate) fn collect_decoded(v: Vec<Result<u8, Base64Error>>) -> (r: Result<Vec<u8>, Base64Error>)
    ensures
        match r {
            Ok(b) => collect_bytes(v@) == Ok::<Seq<u8>, Base64Error>(b@),
            Err(e) => collect_bytes(v@) == Err::<Seq<u8>, Base64Error>(e),
        },
{
    let mut out: Vec<u8> = Vec::new();
    let mut i: usize = 0;
    assert(v@.skip(0) =~= v@);
    assert forall|rest: Seq<u8>| #[trigger] (out@ + rest) == rest by {
        assert(out@ + rest =~= rest);
    }
    while i < v.len()
        invariant
            i <= v.len(),
            collect_bytes(v@) == match collect_bytes(v@.skip(i as int)) {
                Ok(rest) => Ok(out@ + rest),
                Err(e) => Err(e),
            },
        decreases v.len() - i,
    {
        let ghost o = out@;
        assert(v@.skip(i as int)[0] == v@[i as int]);
        assert(v@.skip(i as int).drop_first() =~= v@.skip(i + 1));
        match v[i] {
            Ok(x) => {
                out.push(x);
                assert forall|rest: Seq<u8>| #[trigger] (o + (seq![x] + rest)) == out@ + rest by {
                    assert(o + (seq![x] + rest) =~= out@ + rest);
                }
            },
            Err(e) => {
                return Err(e);
            },
        }
        i = i + 1;
    }
    assert(v@.skip(i as int).len() == 0);
    assert(out@ + seq![] =~= out@);
    Ok(out)
}

/// An object read from an element, or the error.
pub open spec fn om_res(r: Result<OpenMath, XmlReadError>) -> Result<OMView, ReadErr> {
    match r {
        Ok(o) => Ok(om_view(o)),
        Err(e) => Err(e@),
    }
}

/// An object read up to `s`, or the error.
pub open spec fn om_at(r: Result<OpenMath, XmlReadError>, s: St) -> Result<(OMView, St), ReadErr> {
    match r {
        Ok(o) => Ok((om_view(o), s)),
        Err(e) => Err(e@),
    }
}

/// An OMF from its tag.
fn omf<'s>(g: &Tag, attrs: Attrs<'s>) -> (r: Result<OpenMath<'s>, XmlReadError>)
    ensures
        p_omf(g@, attrs_view(attrs@)) == om_res(r),
{
    match float_attr_of(&g.attrs) {
        None => Err(XmlReadError::ExpectedAttribute("dec")),
        Some(None) => Err(XmlReadError::Hex),
        Some(Some(v)) => match decode_str(v.as_slice()) {
            Err(e) => Err(XmlReadError::Utf8(e)),
            Ok(s) => if float_text_ok(s) {
                Ok(OpenMath::OMF { float: Cow::Owned(s.to_owned()), attributes: attrs })
            } else {
                Err(XmlReadError::InvalidFloat(s.to_owned()))
            },
        },
    }
}

/// An OMV from its tag.
fn omv<'s>(g: &Tag, attrs: Attrs<'s>) -> (r: Result<OpenMath<'s>, XmlReadError>)
    ensures
        p_omv(g@, attrs_view(attrs@)) == om_res(r),
{
    match req_string(g, "name") {
        Err(e) => Err(e),
        Ok(name) => Ok(OpenMath::OMV { name: Cow::Owned(name), attributes: attrs }),
    }
}

/// An OMS from its tag; its cdbase is the one in effect.
fn oms<'s>(g: &Tag, cdbase: &str, attrs: Attrs<'s>) -> (r: Result<OpenMath<'s>, XmlReadError>)
    ensures
        p_oms(g@, cdbase@, attrs_view(attrs@)) == om_res(r),
{
    let name = match req_string(g, "name") {
        Err(e) => {
            return Err(e);
        },
        Ok(n) => n,
    };
    let cd = match req_string(g, "cd") {
        Err(e) => {
            return Err(e);
        },
        Ok(c) => c,
    };
    match scoped(g, cdbase) {
        Err(e) => Err(e),
        Ok(cb) => Ok(
            OpenMath::OMS {
                cd: Cow::Owned(cd),
                name: Cow::Owned(name),
                cdbase: Some(Cow::Owned(cb)),
                attributes: attrs,
            },
        ),
    }
}

/// The next item where an object is expected, or the error.
pub open spec fn cf_at(r: Result<ControlFlow<OpenMath, bool>, XmlReadError>, s: St) -> Result<
    (ControlFlow<OMView, bool>, St),
    ReadErr,
> {
    match r {
        Ok(ControlFlow::Break(o)) => Ok((ControlFlow::Break(om_view(o)), s)),
        Ok(ControlFlow::Continue(b)) => Ok((ControlFlow::Continue(b), s)),
        Err(e) => Err(e@),
    }
}

/// The next item where an object or OMFOREIGN is expected, or the error.
pub open spec fn cf_foreign_at(
    r: Result<ControlFlow<OMMaybeForeign<OpenMath>, bool>, XmlReadError>,
    s: St,
) -> Result<(ControlFlow<ForeignView, bool>, St), ReadErr> {
    match r {
        Ok(ControlFlow::Break(o)) => Ok((ControlFlow::Break(foreign_view(o)), s)),
        Ok(ControlFlow::Continue(b)) => Ok((ControlFlow::Continue(b), s)),
        Err(e) => Err(e@),
    }
}

/// The view of an optional bound variable.
pub open spec fn opt_var(o: Option<BoundVariable>) -> Option<VarView> {
    match o {
        Some(v) => Some(var_view(v)),
        None => None,
    }
}

/// A read object as the next item.
fn brk_exec<'s>(r: Result<OpenMath<'s>, XmlReadError>) -> (c: Result<
    ControlFlow<OpenMath<'s>, bool>,
    XmlReadError,
>)
    ensures
        c == match r {
            Ok(o) => Ok(ControlFlow::<OpenMath<'s>, bool>::Break(o)),
            Err(e) => Err(e),
        },
{
    match r {
        Ok(o) => Ok(ControlFlow::Break(o)),
        Err(e) => Err(e),
    }
}

/// A read object as the next object-or-OMFOREIGN.
fn brk_foreign<'s>(r: Result<OpenMath<'s>, XmlReadError>) -> (c: Result<
    ControlFlow<OMMaybeForeign<'s, OpenMath<'s>>, bool>,
    XmlReadError,
>)
    ensures
        c == match r {
            Ok(o) => Ok(ControlFlow::<OMMaybeForeign<'s, OpenMath<'s>>, bool>::Break(OMMaybeForeign::OM(o))),
            Err(e) => Err(e),
        },
{
    match r {
        Ok(o) => Ok(ControlFlow::Break(OMMaybeForeign::OM(o))),
        Err(e) => Err(e),
    }
}

/// An optional owned string as text.
fn owned_opt<'s>(o: Option<String>) -> (r: Option<Cow<'s, str>>)
    ensures
        crate::om::opt_view(r) == match o {
            Some(s) => Some(s@),
            None => None::<Seq<char>>,
        },
{
    match o {
        Some(s) => Some(Cow::Owned(s)),
        None => None,
    }
}

/// A reader of OpenMath XML over a string: the XML reader, the input it reads,
/// and the position before the last read.
pub struct FromString<'s> {
    orig: &'s [u8],
    inner: Reader<&'s [u8]>,
    position: u64,
    toks: Ghost<Seq<TokenView>>,
    idx: Ghost<int>,
}

impl<'s> FromString<'s> {
    /// All reads of the XML reader over the input.
    pub closed spec fn tokens(&self) -> Seq<TokenView> {
        self.toks@
    }

    /// The bytes of the input.
    pub closed spec fn input(&self) -> Seq<u8> {
        self.orig@
    }

    /// Where reading stands.
    pub closed spec fn st(&self) -> St {
        St { i: self.idx@, now: self.position }
    }

    /// Another read can be made, and the XML reader's reads still to come
    /// are those from where reading stands.
    pub closed spec fn wf(&self) -> bool {
        &&& tokens_wf(self.toks@, self.orig@.len())
        &&& 0 <= self.idx@ < self.toks@.len()
        &&& reader_events(self.inner) == self.toks@.skip(self.idx@)
    }

    /// Both read the same input.
    pub open spec fn same(&self, other: &Self) -> bool {
        self.tokens() == other.tokens() && self.input() == other.input()
    }

    /// A reader at the start of `input`.
    pub fn new(input: &'s str) -> (r: Self)
        ensures
            r.wf(),
            r.tokens() == xml_tokens(input@),
            r.input() == input.spec_bytes(),
            r.st() == (St { i: 0, now: 0 }),
    {
        let inner = reader_from_str(input);
        let ghost t = reader_events(inner);
        let r = FromString {
            orig: input.as_bytes(),
            inner,
            position: 0,
            toks: Ghost(t),
            idx: Ghost(0),
        };
        assert(t.skip(0) =~= t);
        r
    }

    /// The position before the last read.
    pub fn now(&self) -> (p: u64)
        ensures
            p == self.st().now,
    {
        self.position
    }

    /// The next read.
    fn next(&mut self) -> (r: Result<XmlEvent, XmlReadError>)
        requires
            old(self).wf(),
        ensures
            final(self).same(old(self)),
            final(self).st() == adv(old(self).tokens(), old(self).st()),
            match r {
                Ok(e) => ev(old(self).tokens(), old(self).st().i) == Some(e@) && (e@
                    != EventView::Eof ==> final(self).wf()),
                Err(e) => ev(old(self).tokens(), old(self).st().i) is None && e@ == ReadErr::Xml,
            },
    {
        let ghost t = self.toks@;
        let ghost i = self.idx@;
        self.position = buffer_position(&self.inner);
        let r = read_event(&mut self.inner);
        self.idx = Ghost(i + 1);
        assert(t.skip(i).drop_first() =~= t.skip(i + 1));
        assert(t.skip(i)[0] == t[i]);
        match r {
            Ok(e) => Ok(event_of(e)),
            Err(error) => {
                let position = error_position(&self.inner);
                Err(XmlReadError::Xml { error, position })
            },
        }
    }

    /// The next read that is not whitespace text, and the position before the
    /// read before it.
    fn next_nonws(&mut self) -> (r: Result<(XmlEvent, u64), XmlReadError>)
        requires
            old(self).wf(),
        ensures
            final(self).same(old(self)),
            ({
                let t = old(self).tokens();
                let q = skip_ws(t, old(self).st());
                &&& final(self).st() == adv(t, q)
                &&& old(self).st().i <= q.i
                &&& match r {
                    Ok((e, now)) => ev(t, q.i) == Some(e@) && now == q.now && (e@ != EventView::Eof
                        ==> final(self).wf()),
                    Err(e) => ev(t, q.i) is None && e@ == ReadErr::Xml,
                }
            }),
    {
        let ghost t = self.toks@;
        let ghost s0 = self.st();
        loop
            invariant
                self.wf(),
                self.toks@ == t,
                self.same(old(self)),
                t == old(self).tokens(),
                s0 == old(self).st(),
                s0.i <= self.st().i,
                skip_ws(t, self.st()) == skip_ws(t, s0),
            decreases t.len() - self.idx@,
        {
            let now = self.position;
            let ghost before = self.st();
            let e = match self.next() {
                Ok(e) => e,
                Err(e) => {
                    assert(skip_ws(t, before) == before);
                    return Err(e);
                },
            };
            if let XmlEvent::Text(b) = &e {
                if bytes_all_ws(b.as_slice()) {
                    assert(skip_ws(t, before) == skip_ws(t, self.st()));
                    continue ;
                }
            }
            assert(skip_ws(t, before) == before);
            return Ok((e, now));
        }
    }

    /// The end tag of the element whose content was read.
    fn need_end(&mut self) -> (r: Result<(), XmlReadError>)
        requires
            old(self).wf(),
        ensures
            final(self).same(old(self)),
            need_end(old(self).tokens(), old(self).st()) == match r {
                Ok(_) => Ok(final(self).st()),
                Err(e) => Err(e@),
            },
            r is Ok ==> final(self).went_on(old(self)),
    {
        let (e, now) = match self.next_nonws() {
            Ok(x) => x,
            Err(e) => {
                return Err(e);
            },
        };
        match e {
            XmlEvent::End(_) => Ok(()),
            _ => Err(XmlReadError::UnexpectedTag(now)),
        }
    }

    /// Reads up to the end tag named `name` that closes the element whose
    /// start tag was the last read; the input in between, with ASCII
    /// whitespace trimmed. The position stays where it was.
    /// Whether reading went on from `old`: it made at least one read, and
    /// another can be made.
    pub open spec fn went_on(&self, old: &Self) -> bool {
        self.wf() && self.same(old) && old.st().i < self.st().i
    }

    /// An OMI, after its start tag.
    fn omi(&mut self, attrs: Attrs<'s>) -> (r: Result<OpenMath<'s>, XmlReadError>)
        requires
            old(self).wf(),
        ensures
            final(self).same(old(self)),
            p_omi(old(self).tokens(), old(self).st(), attrs_view(attrs@)) == om_at(r, final(self).st()),
            r is Ok ==> final(self).went_on(old(self)),
    {
        let (e, _) = match self.next_nonws() {
            Ok(x) => x,
            Err(e) => {
                return Err(e);
            },
        };
        let integer = match e {
            XmlEvent::Text(b) => match decode_str(b.as_slice()) {
                Err(e) => {
                    return Err(XmlReadError::Utf8(e));
                },
                Ok(s) => {
                    if hex_text(s) {
                        return Err(XmlReadError::Hex);
                    }
                    match Int::from_string(s.to_owned()) {
                        None => {
                            return Err(XmlReadError::InvalidInteger(s.to_owned()));
                        },
                        Some(i) => i,
                    }
                },
            },
            _ => {
                return Err(XmlReadError::ExpectedText);
            },
        };
        match self.need_end() {
            Ok(()) => {},
            Err(e) => {
                return Err(e);
            },
        }
        Ok(OpenMath::OMI { int: integer, attributes: attrs })
    }

    /// An OMB, after its start tag: its text decoded as base64.
    fn omb(&mut self, attrs: Attrs<'s>) -> (r: Result<OpenMath<'s>, XmlReadError>)
        requires
            old(self).wf(),
        ensures
            final(self).same(old(self)),
            p_omb(old(self).tokens(), old(self).st(), attrs_view(attrs@)) == om_at(r, final(self).st()),
            r is Ok ==> final(self).went_on(old(self)),
    {
        let (e, _) = match self.next_nonws() {
            Ok(x) => x,
            Err(e) => {
                return Err(e);
            },
        };
        let bytes = match e {
            XmlEvent::Text(b) => match collect_decoded(Base64Decoder::new(b).flat()) {
                Err(e) => {
                    return Err(XmlReadError::Base64(e));
                },
                Ok(v) => v,
            },
            XmlEvent::End(_) => {
                return Ok(OpenMath::OMB { bytes: Cow::Owned(Vec::new()), attributes: attrs });
            },
            _ => {
                return Err(XmlReadError::ExpectedText);
            },
        };
        match self.need_end() {
            Ok(()) => {},
            Err(e) => {
                return Err(e);
            },
        }
        Ok(OpenMath::OMB { bytes: Cow::Owned(bytes), attributes: attrs })
    }

    /// An OMSTR, after its start tag: its text, or the end tag of an empty string.
    fn omstr(&mut self, attrs: Attrs<'s>) -> (r: Result<OpenMath<'s>, XmlReadError>)
        requires
            old(self).wf(),
        ensures
            final(self).same(old(self)),
            p_omstr(old(self).tokens(), old(self).st(), attrs_view(attrs@)) == om_at(r, final(self).st()),
            r is Ok ==> final(self).went_on(old(self)),
    {
        let e = match self.next() {
            Ok(x) => x,
            Err(e) => {
                return Err(e);
            },
        };
        let string = match e {
            XmlEvent::Text(b) => match decode_str(b.as_slice()) {
                Err(e) => {
                    return Err(XmlReadError::Utf8(e));
                },
                Ok(s) => unescape_str(s),
            },
            XmlEvent::End(_) => {
                return Ok(OpenMath::OMSTR { string: Cow::Owned(String::new()), attributes: attrs });
            },
            _ => {
                return Err(XmlReadError::ExpectedText);
            },
        };
        match self.need_end() {
            Ok(()) => {},
            Err(e) => {
                return Err(e);
            },
        }
        Ok(OpenMath::OMSTR { string: Cow::Owned(string), attributes: attrs })
    }

    fn until(&mut self, name: &Vec<u8>) -> (r: Result<&'s [u8], XmlReadError>)
        requires
            old(self).wf(),
        ensures
            final(self).same(old(self)),
            ({
                let t = old(self).tokens();
                let i = old(self).st().i;
                match to_end(t.skip(i), 0, name@, 0) {
                    None => r matches Err(e) && (e matches XmlReadError::Xml { position, .. }
                        && position == old(self).st().now),
                    Some(k) => {
                        &&& r matches Ok(b) && b@ == trim_ascii(
                            old(self).input().subrange(t[i].before as int, t[i + k].before as int),
                        )
                        &&& final(self).st() == (St { i: i + k + 1, now: old(self).st().now })
                        &&& final(self).went_on(old(self))
                    },
                }
            }),
    {
        let ghost t = self.toks@;
        let ghost i = self.idx@;
        proof {
            lemma_to_end(t.skip(i), 0, name@, 0);
        }
        match read_to_end(&mut self.inner, name.as_slice()) {
            Err(error) => Err(XmlReadError::Xml { error, position: self.position }),
            Ok((start, end)) => {
                let ghost k = to_end(t.skip(i), 0, name@, 0)->Some_0;
                assert(t.skip(i)[k] == t[i + k]);
                assert(t.skip(i)[0] == t[i]);
                assert(t.skip(i).skip(k + 1) =~= t.skip(i + k + 1));
                assert(!crate::de::events::is_last(t[i + k]));
                assert(start == t[i].before);
                assert(end == t[i + k].before);
                assert(t[i].before <= t[i + k].before);
                assert(t[i + k].before <= self.orig@.len());
                self.idx = Ghost(i + k + 1);
                let n = self.orig.len();
                assert(n as int == self.orig@.len());
                let s = vstd::slice::slice_subrange(self.orig, start as usize, end as usize);
                let (lo, hi) = trim_range(s, 0, s.len());
                assert(s@.subrange(0, s@.len() as int) =~= s@);
                Ok(vstd::slice::slice_subrange(s, lo, hi))
            },
        }
    }
    /// The next item where an object is expected: the object (with `attrs`
    /// as its attributes), or `Continue(true)` at an end tag,
    /// `Continue(false)` at any other event that is no object. Whitespace
    /// text is skipped.
    #[verifier::spinoff_prover]
    #[verifier::rlimit(60)]
    fn handle_next(&mut self, cdbase: &str, attrs: Attrs<'s>) -> (r: Result<
        ControlFlow<OpenMath<'s>, bool>,
        XmlReadError,
    >)
        requires
            old(self).wf(),
        ensures
            final(self).same(old(self)),
            handle_next(
                old(self).tokens(),
                old(self).input(),
                old(self).st(),
                cdbase@,
                attrs_view(attrs@),
            ) == cf_at(r, final(self).st()),
            r is Ok ==> final(self).went_on(old(self)),
        decreases old(self).tokens().len() - old(self).st().i, 0int,
    {
        let ghost t = self.toks@;
        let ghost inp = self.orig@;
        let ghost s0 = self.st();
        let ghost av = attrs_view(attrs@);
        loop
            invariant
                self.wf(),
                self.same(old(self)),
                t == old(self).tokens(),
                inp == old(self).input(),
                s0 == old(self).st(),
                av == attrs_view(attrs@),
                s0.i <= self.st().i,
                handle_next(t, inp, self.st(), cdbase@, av) == handle_next(t, inp, s0, cdbase@, av),
            decreases t.len() - self.st().i,
        {
            let now = self.position;
            let e = match self.next() {
                Ok(e) => e,
                Err(e) => {
                    return Err(e);
                },
            };
            match e {
                XmlEvent::Empty(g) => {
                    if tag_is(&g, "OMF") {
                        return brk_exec(omf(&g, attrs));
                    }
                    if tag_is(&g, "OMV") {
                        return brk_exec(omv(&g, attrs));
                    }
                    if tag_is(&g, "OMS") {
                        return brk_exec(oms(&g, cdbase, attrs));
                    }
                    if tag_is(&g, "OME") {
                        return Err(XmlReadError::NonEmptyExpectedFor("OME", now));
                    }
                    if tag_is(&g, "OMA") {
                        return Err(XmlReadError::NonEmptyExpectedFor("OMA", now));
                    }
                    if tag_is(&g, "OMBIND") {
                        return Err(XmlReadError::NonEmptyExpectedFor("OMBIND", now));
                    }
                    if tag_is(&g, "OMSTR") {
                        return Err(XmlReadError::NonEmptyExpectedFor("OMSTR", now));
                    }
                    if tag_is(&g, "OMI") {
                        return Err(XmlReadError::NonEmptyExpectedFor("OMI", now));
                    }
                    if tag_is(&g, "OMB") {
                        return Err(XmlReadError::NonEmptyExpectedFor("OMB", now));
                    }
                    if tag_is(&g, "OMATTR") {
                        return Err(XmlReadError::NonEmptyExpectedFor("OMATTR", now));
                    }
                    return Err(XmlReadError::UnexpectedTag(now));
                },
                XmlEvent::Start(g) => {
                    if tag_is(&g, "OMI") {
                        return brk_exec(self.omi(attrs));
                    }
                    if tag_is(&g, "OMB") {
                        return brk_exec(self.omb(attrs));
                    }
                    if tag_is(&g, "OMSTR") {
                        return brk_exec(self.omstr(attrs));
                    }
                    if tag_is(&g, "OMA") || tag_is(&g, "OMBIND") || tag_is(&g, "OME") || tag_is(
                        &g,
                        "OMATTR",
                    ) {
                        let cb = match scoped(&g, cdbase) {
                            Err(e) => {
                                return Err(e);
                            },
                            Ok(c) => c,
                        };
                        if tag_is(&g, "OMA") {
                            return brk_exec(self.oma(cb.as_str(), now, attrs));
                        }
                        if tag_is(&g, "OMBIND") {
                            return brk_exec(self.ombind(cb.as_str(), now, attrs));
                        }
                        if tag_is(&g, "OME") {
                            return brk_exec(self.ome(cb.as_str(), now, attrs));
                        }
                        return brk_exec(self.omattr(cb.as_str(), attrs));
                    }
                    if tag_is(&g, "OMS") {
                        return Err(XmlReadError::EmptyExpectedFor("OMS", now));
                    }
                    if tag_is(&g, "OMF") {
                        return Err(XmlReadError::EmptyExpectedFor("OMF", now));
                    }
                    if tag_is(&g, "OMV") {
                        return Err(XmlReadError::EmptyExpectedFor("OMV", now));
                    }
                    return Err(XmlReadError::UnexpectedTag(now));
                },
                XmlEvent::Text(b) => {
                    if !bytes_all_ws(b.as_slice()) {
                        return Ok(ControlFlow::Continue(false));
                    }
                },
                XmlEvent::Eof => {
                    return Err(XmlReadError::NoObject);
                },
                XmlEvent::End(_) => {
                    return Ok(ControlFlow::Continue(true));
                },
                XmlEvent::Other => {
                    return Ok(ControlFlow::Continue(false));
                },
            }
        }
    }

    /// The next item where an object or an OMFOREIGN is expected; like
    /// `handle_next`, with no attributes.
    #[verifier::spinoff_prover]
    #[verifier::rlimit(60)]
    fn next_omforeign(&mut self, cdbase: &str) -> (r: Result<
        ControlFlow<OMMaybeForeign<'s, OpenMath<'s>>, bool>,
        XmlReadError,
    >)
        requires
            old(self).wf(),
        ensures
            final(self).same(old(self)),
            next_foreign(old(self).tokens(), old(self).input(), old(self).st(), cdbase@)
                == cf_foreign_at(r, final(self).st()),
            r is Ok ==> final(self).went_on(old(self)),
        decreases old(self).tokens().len() - old(self).st().i, 0int,
    {
        let ghost t = self.toks@;
        let ghost inp = self.orig@;
        let ghost s0 = self.st();
        loop
            invariant
                self.wf(),
                self.same(old(self)),
                t == old(self).tokens(),
                inp == old(self).input(),
                s0 == old(self).st(),
                s0.i <= self.st().i,
                next_foreign(t, inp, self.st(), cdbase@) == next_foreign(t, inp, s0, cdbase@),
            decreases t.len() - self.st().i,
        {
            let now = self.position;
            let e = match self.next() {
                Ok(e) => e,
                Err(e) => {
                    return Err(e);
                },
            };
            match e {
                XmlEvent::Empty(g) => {
                    if tag_is(&g, "OMF") {
                        return brk_foreign(omf(&g, Vec::new()));
                    }
                    if tag_is(&g, "OMV") {
                        return brk_foreign(omv(&g, Vec::new()));
                    }
                    if tag_is(&g, "OMS") {
                        return brk_foreign(oms(&g, cdbase, Vec::new()));
                    }
                    if tag_is(&g, "OMATTR") {
                        return Err(XmlReadError::NonEmptyExpectedFor("OMATTR", now));
                    }
                    if tag_is(&g, "OME") {
                        return Err(XmlReadError::NonEmptyExpectedFor("OME", now));
                    }
                    if tag_is(&g, "OMA") {
                        return Err(XmlReadError::NonEmptyExpectedFor("OMA", now));
                    }
                    if tag_is(&g, "OMBIND") {
                        return Err(XmlReadError::NonEmptyExpectedFor("OMBIND", now));
                    }
                    if tag_is(&g, "OMSTR") {
                        return Err(XmlReadError::NonEmptyExpectedFor("OMSTR", now));
                    }
                    if tag_is(&g, "OMI") {
                        return Err(XmlReadError::NonEmptyExpectedFor("OMI", now));
                    }
                    if tag_is(&g, "OMB") {
                        return Err(XmlReadError::NonEmptyExpectedFor("OMB", now));
                    }
                    if tag_is(&g, "OMFOREIGN") {
                        return Err(XmlReadError::NonEmptyExpectedFor("OMFOREIGN", now));
                    }
                    return Err(XmlReadError::UnexpectedTag(now));
                },
                XmlEvent::Start(g) => {
                    if tag_is(&g, "OMFOREIGN") {
                        let encoding = match attr_string(&g, "encoding") {
                            Err(e) => {
                                return Err(e);
                            },
                            Ok(x) => x,
                        };
                        let raw = match self.until(&g.name) {
                            Err(e) => {
                                return Err(e);
                            },
                            Ok(b) => b,
                        };
                        let value = match decode_str(raw) {
                            Err(e) => {
                                return Err(XmlReadError::Utf8(e));
                            },
                            Ok(v) => v,
                        };
                        return Ok(
                            ControlFlow::Break(
                                OMMaybeForeign::Foreign {
                                    encoding: owned_opt(encoding),
                                    value: Cow::Borrowed(value),
                                },
                            ),
                        );
                    }
                    if tag_is(&g, "OMI") {
                        return brk_foreign(self.omi(Vec::new()));
                    }
                    if tag_is(&g, "OMB") {
                        return brk_foreign(self.omb(Vec::new()));
                    }
                    if tag_is(&g, "OMSTR") {
                        return brk_foreign(self.omstr(Vec::new()));
                    }
                    if tag_is(&g, "OMA") || tag_is(&g, "OMBIND") || tag_is(&g, "OME") || tag_is(
                        &g,
                        "OMATTR",
                    ) {
                        let cb = match scoped(&g, cdbase) {
                            Err(e) => {
                                return Err(e);
                            },
                            Ok(c) => c,
                        };
                        if tag_is(&g, "OMA") {
                            return brk_foreign(self.oma(cb.as_str(), now, Vec::new()));
                        }
                        if tag_is(&g, "OMBIND") {
                            return brk_foreign(self.ombind(cb.as_str(), now, Vec::new()));
                        }
                        if tag_is(&g, "OME") {
                            return brk_foreign(self.ome(cb.as_str(), now, Vec::new()));
                        }
                        return brk_foreign(self.omattr(cb.as_str(), Vec::new()));
                    }
                    if tag_is(&g, "OMS") {
                        return Err(XmlReadError::EmptyExpectedFor("OMS", now));
                    }
                    if tag_is(&g, "OMF") {
                        return Err(XmlReadError::EmptyExpectedFor("OMF", now));
                    }
                    if tag_is(&g, "OMV") {
                        return Err(XmlReadError::EmptyExpectedFor("OMV", now));
                    }
                    return Err(XmlReadError::UnexpectedTag(now));
                },
                XmlEvent::Text(b) => {
                    if !bytes_all_ws(b.as_slice()) {
                        return Ok(ControlFlow::Continue(false));
                    }
                },
                XmlEvent::Eof => {
                    return Err(XmlReadError::NoObject);
                },
                XmlEvent::End(_) => {
                    return Ok(ControlFlow::Continue(true));
                },
                XmlEvent::Other => {
                    return Ok(ControlFlow::Continue(false));
                },
            }
        }
    }

    /// An OMA, after its start tag at `off`: the applicant, then the
    /// arguments up to the end tag.
    fn oma(&mut self, cdbase: &str, off: u64, attrs: Attrs<'s>) -> (r: Result<
        OpenMath<'s>,
        XmlReadError,
    >)
        requires
            old(self).wf(),
        ensures
            final(self).same(old(self)),
            p_oma(
                old(self).tokens(),
                old(self).input(),
                old(self).st(),
                cdbase@,
                off,
                attrs_view(attrs@),
            ) == om_at(r, final(self).st()),
            r is Ok ==> final(self).went_on(old(self)),
        decreases old(self).tokens().len() - old(self).st().i, 1int,
    {
        let head = match self.handle_next(cdbase, Vec::new()) {
            Err(e) => {
                return Err(e);
            },
            Ok(ControlFlow::Continue(_)) => {
                return Err(XmlReadError::NonEmptyExpectedFor("OMA Applicant", off));
            },
            Ok(ControlFlow::Break(h)) => h,
        };
        match self.oma_args(cdbase, off) {
            Err(e) => Err(e),
            Ok(args) => Ok(
                OpenMath::OMA { applicant: Box::new(head), arguments: args, attributes: attrs },
            ),
        }
    }

    /// The arguments of an OMA, up to and including its end tag.
    fn oma_args(&mut self, cdbase: &str, off: u64) -> (r: Result<Vec<OpenMath<'s>>, XmlReadError>)
        requires
            old(self).wf(),
        ensures
            final(self).same(old(self)),
            oma_args(old(self).tokens(), old(self).input(), old(self).st(), cdbase@, off)
                == match r {
                Ok(v) => Ok((oms_view(v@), final(self).st())),
                Err(e) => Err(e@),
            },
            r is Ok ==> final(self).went_on(old(self)),
        decreases old(self).tokens().len() - old(self).st().i, 1int,
    {
        let ghost t = self.toks@;
        let ghost inp = self.orig@;
        let ghost s0 = self.st();
        let mut args: Vec<OpenMath<'s>> = Vec::new();
        assert forall|rest: Seq<OMView>| #[trigger] (oms_view(args@) + rest) == rest by {
            assert(oms_view(args@) + rest =~= rest);
        }
        loop
            invariant
                self.wf(),
                self.same(old(self)),
                t == old(self).tokens(),
                inp == old(self).input(),
                s0 == old(self).st(),
                s0.i <= self.st().i,
                oma_args(t, inp, s0, cdbase@, off) == match oma_args(
                    t,
                    inp,
                    self.st(),
                    cdbase@,
                    off,
                ) {
                    Ok((rest, s3)) => Ok((oms_view(args@) + rest, s3)),
                    Err(e) => Err(e),
                },
            decreases t.len() - self.st().i,
        {
            match self.handle_next(cdbase, Vec::new()) {
                Err(e) => {
                    return Err(e);
                },
                Ok(ControlFlow::Continue(true)) => {
                    assert(oms_view(args@) + seq![] =~= oms_view(args@));
                    return Ok(args);
                },
                Ok(ControlFlow::Continue(false)) => {
                    return Err(XmlReadError::UnexpectedTag(off));
                },
                Ok(ControlFlow::Break(a)) => {
                    proof {
                        lemma_oms_view_push(args@, a);
                    }
                    args.push(a);
                },
            }
        }
    }

    /// An OME, after its start tag at `now`: its symbol, then objects and
    /// OMFOREIGNs up to the end tag.
    fn ome(&mut self, cdbase: &str, now: u64, attrs: Attrs<'s>) -> (r: Result<
        OpenMath<'s>,
        XmlReadError,
    >)
        requires
            old(self).wf(),
        ensures
            final(self).same(old(self)),
            p_ome(
                old(self).tokens(),
                old(self).input(),
                old(self).st(),
                cdbase@,
                now,
                attrs_view(attrs@),
            ) == om_at(r, final(self).st()),
            r is Ok ==> final(self).went_on(old(self)),
        decreases old(self).tokens().len() - old(self).st().i, 1int,
    {
        let (e, _) = match self.next_nonws() {
            Ok(x) => x,
            Err(e) => {
                return Err(e);
            },
        };
        let (ocdbase, cd, name) = match e {
            XmlEvent::Empty(g) => {
                if !tag_is(&g, "OMS") {
                    return Err(XmlReadError::UnexpectedTag(now));
                }
                let name = match req_string(&g, "name") {
                    Err(e) => {
                        return Err(e);
                    },
                    Ok(n) => n,
                };
                let cd = match req_string(&g, "cd") {
                    Err(e) => {
                        return Err(e);
                    },
                    Ok(c) => c,
                };
                let cb = match attr_string(&g, "cdbase") {
                    Err(e) => {
                        return Err(e);
                    },
                    Ok(c) => c,
                };
                (cb, cd, name)
            },
            _ => {
                return Err(XmlReadError::UnexpectedTag(now));
            },
        };
        match self.ome_args(cdbase, now) {
            Err(e) => Err(e),
            Ok(arguments) => Ok(
                OpenMath::OME {
                    cd: Cow::Owned(cd),
                    name: Cow::Owned(name),
                    cdbase: owned_opt(ocdbase),
                    arguments,
                    attributes: attrs,
                },
            ),
        }
    }

    /// The arguments of an OME, up to and including its end tag.
    fn ome_args(&mut self, cdbase: &str, now: u64) -> (r: Result<
        Vec<OMMaybeForeign<'s, OpenMath<'s>>>,
        XmlReadError,
    >)
        requires
            old(self).wf(),
        ensures
            final(self).same(old(self)),
            ome_args(old(self).tokens(), old(self).input(), old(self).st(), cdbase@, now)
                == match r {
                Ok(v) => Ok((foreigns_view(v@), final(self).st())),
                Err(e) => Err(e@),
            },
            r is Ok ==> final(self).went_on(old(self)),
        decreases old(self).tokens().len() - old(self).st().i, 1int,
    {
        let ghost t = self.toks@;
        let ghost inp = self.orig@;
        let ghost s0 = self.st();
        let mut arguments: Vec<OMMaybeForeign<'s, OpenMath<'s>>> = Vec::new();
        assert forall|rest: Seq<ForeignView>| #[trigger] (foreigns_view(arguments@) + rest)
            == rest by {
            assert(foreigns_view(arguments@) + rest =~= rest);
        }
        loop
            invariant
                self.wf(),
                self.same(old(self)),
                t == old(self).tokens(),
                inp == old(self).input(),
                s0 == old(self).st(),
                s0.i <= self.st().i,
                ome_args(t, inp, s0, cdbase@, now) == match ome_args(
                    t,
                    inp,
                    self.st(),
                    cdbase@,
                    now,
                ) {
                    Ok((rest, s3)) => Ok((foreigns_view(arguments@) + rest, s3)),
                    Err(e) => Err(e),
                },
            decreases t.len() - self.st().i,
        {
            match self.next_omforeign(cdbase) {
                Err(e) => {
                    return Err(e);
                },
                Ok(ControlFlow::Continue(true)) => {
                    assert(foreigns_view(arguments@) + seq![] =~= foreigns_view(arguments@));
                    return Ok(arguments);
                },
                Ok(ControlFlow::Continue(false)) => {
                    return Err(XmlReadError::UnexpectedTag(now));
                },
                Ok(ControlFlow::Break(a)) => {
                    proof {
                        lemma_foreigns_view_push(arguments@, a);
                    }
                    arguments.push(a);
                },
            }
        }
    }

    /// The key-value pairs of an OMATP, after its start tag, up to and
    /// including its end tag; each is added to `attrs`.
    fn omattr_pairs(&mut self, cdbase: &str, attrs: &mut Attrs<'s>) -> (r: Result<(), XmlReadError>)
        requires
            old(self).wf(),
        ensures
            final(self).same(old(self)),
            omattr_pairs(
                old(self).tokens(),
                old(self).input(),
                old(self).st(),
                cdbase@,
                attrs_view(old(attrs)@),
            ) == match r {
                Ok(_) => Ok((attrs_view(final(attrs)@), final(self).st())),
                Err(e) => Err(e@),
            },
            r is Ok ==> final(self).went_on(old(self)),
        decreases old(self).tokens().len() - old(self).st().i, 1int,
    {
        let ghost t = self.toks@;
        let ghost inp = self.orig@;
        let ghost s0 = self.st();
        let ghost a0 = attrs_view(attrs@);
        loop
            invariant
                self.wf(),
                self.same(old(self)),
                t == old(self).tokens(),
                inp == old(self).input(),
                s0 == old(self).st(),
                a0 == attrs_view(old(attrs)@),
                s0.i <= self.st().i,
                omattr_pairs(t, inp, s0, cdbase@, a0) == omattr_pairs(
                    t,
                    inp,
                    self.st(),
                    cdbase@,
                    attrs_view(attrs@),
                ),
            decreases t.len() - self.st().i,
        {
            let now = self.position;
            let e = match self.next() {
                Ok(e) => e,
                Err(e) => {
                    return Err(e);
                },
            };
            match e {
                XmlEvent::End(_) => {
                    return Ok(());
                },
                XmlEvent::Empty(g) => {
                    if !tag_is(&g, "OMS") {
                        return Err(XmlReadError::UnexpectedTag(now));
                    }
                    let name = match req_string(&g, "name") {
                        Err(e) => {
                            return Err(e);
                        },
                        Ok(n) => n,
                    };
                    let cd = match req_string(&g, "cd") {
                        Err(e) => {
                            return Err(e);
                        },
                        Ok(c) => c,
                    };
                    let cb = match attr_string(&g, "cdbase") {
                        Err(e) => {
                            return Err(e);
                        },
                        Ok(c) => c,
                    };
                    let now2 = self.position;
                    match self.next_omforeign(cdbase) {
                        Err(e) => {
                            return Err(e);
                        },
                        Ok(ControlFlow::Continue(true)) => {
                            return Err(XmlReadError::AttributeValue(now2));
                        },
                        Ok(ControlFlow::Continue(false)) => {
                            return Err(XmlReadError::UnexpectedTag(now2));
                        },
                        Ok(ControlFlow::Break(value)) => {
                            let a = Attr {
                                cdbase: owned_opt(cb),
                                cd: Cow::Owned(cd),
                                name: Cow::Owned(name),
                                value,
                            };
                            proof {
                                lemma_attrs_view_push(attrs@, a);
                            }
                            attrs.push(a);
                        },
                    }
                },
                XmlEvent::Text(b) => {
                    if !bytes_all_ws(b.as_slice()) {
                        return Err(XmlReadError::UnexpectedTag(now));
                    }
                },
                _ => {
                    return Err(XmlReadError::UnexpectedTag(now));
                },
            }
        }
    }

    /// The OMATP that opens an OMATTR: its pairs are added to `attrs`.
    fn omatp(&mut self, cdbase: &str, attrs: &mut Attrs<'s>) -> (r: Result<(), XmlReadError>)
        requires
            old(self).wf(),
        ensures
            final(self).same(old(self)),
            omatp(
                old(self).tokens(),
                old(self).input(),
                old(self).st(),
                cdbase@,
                attrs_view(old(attrs)@),
            ) == match r {
                Ok(_) => Ok((attrs_view(final(attrs)@), final(self).st())),
                Err(e) => Err(e@),
            },
            r is Ok ==> final(self).went_on(old(self)),
        decreases old(self).tokens().len() - old(self).st().i, 1int,
    {
        let (e, now) = match self.next_nonws() {
            Ok(x) => x,
            Err(e) => {
                return Err(e);
            },
        };
        match e {
            XmlEvent::Empty(g) => if tag_is(&g, "OMATP") {
                Ok(())
            } else {
                Err(XmlReadError::UnexpectedTag(now))
            },
            XmlEvent::Start(g) => if tag_is(&g, "OMATP") {
                self.omattr_pairs(cdbase, attrs)
            } else {
                Err(XmlReadError::UnexpectedTag(now))
            },
            _ => Err(XmlReadError::UnexpectedTag(now)),
        }
    }

    /// An OMATTR, after its start tag: the attributed object, with the pairs
    /// as attributes after those in `attrs`.
    fn omattr(&mut self, cdbase: &str, attrs: Attrs<'s>) -> (r: Result<OpenMath<'s>, XmlReadError>)
        requires
            old(self).wf(),
        ensures
            final(self).same(old(self)),
            p_omattr(
                old(self).tokens(),
                old(self).input(),
                old(self).st(),
                cdbase@,
                attrs_view(attrs@),
            ) == om_at(r, final(self).st()),
            r is Ok ==> final(self).went_on(old(self)),
        decreases old(self).tokens().len() - old(self).st().i, 2int,
    {
        let mut attrs = attrs;
        match self.omatp(cdbase, &mut attrs) {
            Err(e) => {
                return Err(e);
            },
            Ok(()) => {},
        }
        let now = self.position;
        let object = match self.handle_next(cdbase, attrs) {
            Err(e) => {
                return Err(e);
            },
            Ok(ControlFlow::Continue(_)) => {
                return Err(XmlReadError::NonEmptyExpectedFor("OMATTR", now));
            },
            Ok(ControlFlow::Break(o)) => o,
        };
        match self.need_end() {
            Err(e) => {
                return Err(e);
            },
            Ok(()) => {},
        }
        Ok(object)
    }

    /// A bound variable, or `None` at the end tag of the OMBVAR.
    fn omattr_or_var(&mut self, cdbase: &str, attrs: Attrs<'s>) -> (r: Result<
        Option<BoundVariable<'s>>,
        XmlReadError,
    >)
        requires
            old(self).wf(),
        ensures
            final(self).same(old(self)),
            omattr_or_var(
                old(self).tokens(),
                old(self).input(),
                old(self).st(),
                cdbase@,
                attrs_view(attrs@),
            ) == match r {
                Ok(o) => Ok((opt_var(o), final(self).st())),
                Err(e) => Err(e@),
            },
            r is Ok ==> final(self).went_on(old(self)),
        decreases old(self).tokens().len() - old(self).st().i, 1int,
    {
        let ghost t = self.toks@;
        let ghost inp = self.orig@;
        let ghost s0 = self.st();
        let ghost av = attrs_view(attrs@);
        loop
            invariant
                self.wf(),
                self.same(old(self)),
                t == old(self).tokens(),
                inp == old(self).input(),
                s0 == old(self).st(),
                av == attrs_view(attrs@),
                s0.i <= self.st().i,
                omattr_or_var(t, inp, self.st(), cdbase@, av) == omattr_or_var(
                    t,
                    inp,
                    s0,
                    cdbase@,
                    av,
                ),
            decreases t.len() - self.st().i,
        {
            let now = self.position;
            let e = match self.next() {
                Ok(e) => e,
                Err(e) => {
                    return Err(e);
                },
            };
            match e {
                XmlEvent::End(_) => {
                    return Ok(None);
                },
                XmlEvent::Start(g) => {
                    if !tag_is(&g, "OMATTR") {
                        return Err(XmlReadError::UnexpectedTag(now));
                    }
                    let cb = match scoped(&g, cdbase) {
                        Err(e) => {
                            return Err(e);
                        },
                        Ok(c) => c,
                    };
                    let mut attrs = attrs;
                    match self.omatp(cb.as_str(), &mut attrs) {
                        Err(e) => {
                            return Err(e);
                        },
                        Ok(()) => {},
                    }
                    let r = match self.omattr_or_var(cb.as_str(), attrs) {
                        Err(e) => {
                            return Err(e);
                        },
                        Ok(r) => r,
                    };
                    match self.need_end() {
                        Err(e) => {
                            return Err(e);
                        },
                        Ok(()) => {},
                    }
                    return Ok(r);
                },
                XmlEvent::Empty(g) => {
                    if !tag_is(&g, "OMV") {
                        return Err(XmlReadError::UnexpectedTag(now));
                    }
                    let name = match req_string(&g, "name") {
                        Err(e) => {
                            return Err(e);
                        },
                        Ok(n) => n,
                    };
                    return Ok(Some(BoundVariable { name: Cow::Owned(name), attributes: attrs }));
                },
                XmlEvent::Text(b) => {
                    if !bytes_all_ws(b.as_slice()) {
                        return Err(XmlReadError::UnexpectedTag(now));
                    }
                },
                _ => {
                    return Err(XmlReadError::UnexpectedTag(now));
                },
            }
        }
    }

    /// An OMBIND, after its start tag at `off`: binder, OMBVAR, body, end tag.
    fn ombind(&mut self, cdbase: &str, off: u64, attrs: Attrs<'s>) -> (r: Result<
        OpenMath<'s>,
        XmlReadError,
    >)
        requires
            old(self).wf(),
        ensures
            final(self).same(old(self)),
            p_ombind(
                old(self).tokens(),
                old(self).input(),
                old(self).st(),
                cdbase@,
                off,
                attrs_view(attrs@),
            ) == om_at(r, final(self).st()),
            r is Ok ==> final(self).went_on(old(self)),
        decreases old(self).tokens().len() - old(self).st().i, 1int,
    {
        let ghost t = self.toks@;
        let ghost inp = self.orig@;
        let ghost s0 = self.st();
        let binder = match self.handle_next(cdbase, Vec::new()) {
            Err(e) => {
                return Err(e);
            },
            Ok(ControlFlow::Continue(_)) => {
                return Err(XmlReadError::NonEmptyExpectedFor("OMBIND", off));
            },
            Ok(ControlFlow::Break(b)) => b,
        };
        let ghost s2 = self.st();
        let (e, now) = match self.next_nonws() {
            Ok(x) => x,
            Err(e) => {
                return Err(e);
            },
        };
        let ombvar = match e {
            XmlEvent::Empty(g) => if tag_is(&g, "OMBVAR") {
                false
            } else {
                return Err(XmlReadError::UnexpectedTag(now));
            },
            XmlEvent::Start(g) => if tag_is(&g, "OMBVAR") {
                true
            } else {
                return Err(XmlReadError::UnexpectedTag(now));
            },
            _ => {
                return Err(XmlReadError::UnexpectedTag(now));
            },
        };
        let variables = if ombvar {
            match self.bvars(cdbase) {
                Err(e) => {
                    return Err(e);
                },
                Ok(v) => v,
            }
        } else {
            Vec::new()
        };
        let ghost s4 = self.st();
        proof {
            let q = skip_ws(t, s2);
            let s3 = adv(t, q);
            let vars: Result<(Seq<VarView>, St), ReadErr> = match ev(t, q.i) {
                None => Err(ReadErr::Xml),
                Some(EventView::Empty(g)) => if is_tag(g, "OMBVAR"@) {
                    Ok((seq![], s3))
                } else {
                    Err(ReadErr::UnexpectedTag(q.now))
                },
                Some(EventView::Start(g)) => if is_tag(g, "OMBVAR"@) {
                    if !progress(t, s0, s3) {
                        Err(ReadErr::Xml)
                    } else {
                        bvars(t, inp, s3, cdbase@)
                    }
                } else {
                    Err(ReadErr::UnexpectedTag(q.now))
                },
                _ => Err(ReadErr::UnexpectedTag(q.now)),
            };
            assert(vars == Ok::<(Seq<VarView>, St), ReadErr>((vars_view(variables@), s4)));
            assert(progress(t, s0, s4));
        }
        let now = self.position;
        let object = match self.handle_next(cdbase, Vec::new()) {
            Err(e) => {
                return Err(e);
            },
            Ok(ControlFlow::Continue(_)) => {
                return Err(XmlReadError::NonEmptyExpectedFor("OMBIND", now));
            },
            Ok(ControlFlow::Break(o)) => o,
        };
        match self.need_end() {
            Err(e) => {
                return Err(e);
            },
            Ok(()) => {},
        }
        Ok(
            OpenMath::OMBIND {
                binder: Box::new(binder),
                variables,
                object: Box::new(object),
                attributes: attrs,
            },
        )
    }
    /// The bound variables of an OMBVAR, after its start tag, up to its end tag.
    fn bvars(&mut self, cdbase: &str) -> (r: Result<Vec<BoundVariable<'s>>, XmlReadError>)
        requires
            old(self).wf(),
        ensures
            final(self).same(old(self)),
            bvars(old(self).tokens(), old(self).input(), old(self).st(), cdbase@) == match r {
                Ok(v) => Ok((vars_view(v@), final(self).st())),
                Err(e) => Err(e@),
            },
            r is Ok ==> final(self).went_on(old(self)),
        decreases old(self).tokens().len() - old(self).st().i, 2int,
    {
        let ghost t = self.toks@;
        let ghost inp = self.orig@;
        let ghost s0 = self.st();
        let mut variables: Vec<BoundVariable<'s>> = Vec::new();
        assert forall|rest: Seq<VarView>| #[trigger] (vars_view(variables@) + rest) == rest by {
            assert(vars_view(variables@) + rest =~= rest);
        }
        loop
            invariant
                self.wf(),
                self.same(old(self)),
                t == old(self).tokens(),
                inp == old(self).input(),
                s0 == old(self).st(),
                s0.i <= self.st().i,
                bvars(t, inp, s0, cdbase@) == match bvars(t, inp, self.st(), cdbase@) {
                    Ok((rest, s4)) => Ok((vars_view(variables@) + rest, s4)),
                    Err(e) => Err(e),
                },
            decreases t.len() - self.st().i,
        {
            match self.omattr_or_var(cdbase, Vec::new()) {
                Err(e) => {
                    return Err(e);
                },
                Ok(None) => {
                    assert(vars_view(variables@) + seq![] =~= vars_view(variables@));
                    return Ok(variables);
                },
                Ok(Some(v)) => {
                    proof {
                        lemma_vars_view_push(variables@, v);
                    }
                    variables.push(v);
                },
            }
        }
    }

    /// Reads an object, skipping whatever comes before it; `cdbase` is the
    /// cdbase in effect, [`CD_BASE`] where it is `None`.
    #[verifier::loop_isolation(false)]
    pub fn read(self, cdbase: Option<&str>) -> (r: Result<OpenMath<'s>, XmlReadError>)
        requires
            self.wf(),
        ensures
            read_om(
                self.tokens(),
                self.input(),
                self.st(),
                match cdbase {
                    Some(c) => c@,
                    None => CD_BASE@,
                },
            ) == om_res(r),
    {
        let cb = match cdbase {
            Some(c) => c,
            None => CD_BASE,
        };
        let mut this = self;
        let ghost t = this.toks@;
        let ghost inp = this.orig@;
        let ghost s0 = this.st();
        loop
            invariant
                this.wf(),
                t == this.tokens(),
                inp == this.input(),
                read_om(t, inp, this.st(), cb@) == read_om(t, inp, s0, cb@),
            decreases t.len() - this.st().i,
        {
            match this.handle_next(cb, Vec::new()) {
                Err(e) => {
                    return Err(e);
                },
                Ok(ControlFlow::Break(b)) => {
                    return Ok(b);
                },
                Ok(ControlFlow::Continue(_)) => {},
            }
        }
    }

    /// Reads the object of an OMOBJ: before the OMOBJ start tag, only
    /// whitespace text and events that are no tags may stand.
    #[verifier::loop_isolation(false)]
    pub fn read_obj(self) -> (r: Result<OpenMath<'s>, XmlReadError>)
        requires
            self.wf(),
        ensures
            read_obj(self.tokens(), self.input(), self.st()) == om_res(r),
    {
        let mut this = self;
        let ghost t = this.toks@;
        let ghost inp = this.orig@;
        let ghost s0 = this.st();
        loop
            invariant
                this.wf(),
                t == this.tokens(),
                inp == this.input(),
                read_obj(t, inp, this.st()) == read_obj(t, inp, s0),
            decreases t.len() - this.st().i,
        {
            let now = this.position;
            let e = match this.next() {
                Ok(e) => e,
                Err(e) => {
                    return Err(e);
                },
            };
            match e {
                XmlEvent::Start(g) => {
                    if bytes_eq_str(g.name.as_slice(), "OMOBJ") {
                        let cb = match scoped(&g, CD_BASE) {
                            Err(e) => {
                                return Err(e);
                            },
                            Ok(c) => c,
                        };
                        return this.read(Some(cb.as_str()));
                    }
                },
                XmlEvent::Text(b) => {
                    if !bytes_all_ws(b.as_slice()) {
                        return Err(XmlReadError::UnexpectedTag(now));
                    }
                },
                XmlEvent::Eof => {
                    return Err(XmlReadError::NoObject);
                },
                XmlEvent::End(_) => {
                    return Err(XmlReadError::UnexpectedTag(now));
                },
                XmlEvent::Empty(_) => {
                    return Err(XmlReadError::UnexpectedTag(now));
                },
                XmlEvent::Other => {},
            }
        }
    }
}

} // verus!
