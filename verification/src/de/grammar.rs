//! What reading OpenMath XML yields for a sequence of reads of the XML
//! reader: the object, or the error at which reading stops.
use std::ops::ControlFlow;
use vstd::prelude::*;

use crate::base64::{decoded, Error as Base64Error};
use crate::de::events::{to_end, EventView, TagView, TokenView};
use crate::integer::parse_int;
use crate::om::{AttrView, ForeignView, OMView, VarView};
use crate::text::{all_ws, ascii, is_float_text, trim_ascii, unescape, utf8};
use crate::CD_BASE;

verus! {

/// Where reading stands: the index of the next read, and the position before
/// the last read (which the reader reports as the current position).
pub ghost struct St {
    pub i: int,
    pub now: u64,
}

/// What went wrong, as the errors of [`XmlReadError`](crate::de::XmlReadError)
/// describe it; `Xml` is a failed read of the XML reader.
pub ghost enum ReadErr {
    Xml,
    Empty(u64),
    UnexpectedTag(u64),
    NoObject,
    ExpectedText,
    Utf8,
    InvalidInteger(Seq<char>),
    InvalidFloat(Seq<char>),
    NotFullyConvertible,
    ExpectedAttribute(Seq<char>),
    Base64(Base64Error),
    EmptyExpectedFor(Seq<char>, u64),
    NonEmptyExpectedFor(Seq<char>, u64),
    RequiresAllocating(u64),
    Hex,
    AttributeValue(u64),
}

/// The event of read `i`, or `None` if the read failed (or there is none).
pub open spec fn ev(t: Seq<TokenView>, i: int) -> Option<EventView> {
    if 0 <= i < t.len() {
        t[i].event
    } else {
        None
    }
}

/// The state after one more read.
pub open spec fn adv(t: Seq<TokenView>, s: St) -> St {
    St { i: s.i + 1, now: if 0 <= s.i < t.len() { t[s.i].before } else { s.now } }
}

/// Skips reads of text that is all whitespace.
pub open spec fn skip_ws(t: Seq<TokenView>, s: St) -> St
    decreases t.len() - s.i,
{
    if 0 <= s.i < t.len() && (t[s.i].event matches Some(EventView::Text(b)) && all_ws(b)) {
        skip_ws(t, adv(t, s))
    } else {
        s
    }
}

/// Reading went on from `s` to `s2`: it made at least one more read, and no
/// more than there are.
pub open spec fn progress(t: Seq<TokenView>, s: St, s2: St) -> bool {
    s.i < s2.i <= t.len()
}

/// The first well-formed attribute with the given key.
pub open spec fn get_attr(a: Seq<Option<(Seq<u8>, Seq<u8>)>>, key: Seq<u8>) -> Option<Seq<u8>>
    decreases a.len(),
{
    if a.len() == 0 {
        None
    } else {
        match a[0] {
            Some((k, v)) => if k == key {
                Some(v)
            } else {
                get_attr(a.drop_first(), key)
            },
            None => get_attr(a.drop_first(), key),
        }
    }
}

/// An optional attribute as text: absent, its text, or a UTF-8 error.
pub open spec fn attr_text(g: TagView, key: Seq<char>) -> Result<Option<Seq<char>>, ReadErr> {
    match get_attr(g.attrs, ascii(key)) {
        None => Ok(None),
        Some(v) => match utf8(v) {
            Some(s) => Ok(Some(unescape(s))),
            None => Err(ReadErr::Utf8),
        },
    }
}

/// A required attribute as text.
pub open spec fn req_attr(g: TagView, key: Seq<char>) -> Result<Seq<char>, ReadErr> {
    match get_attr(g.attrs, ascii(key)) {
        None => Err(ReadErr::ExpectedAttribute(key)),
        Some(v) => match utf8(v) {
            Some(s) => Ok(unescape(s)),
            None => Err(ReadErr::Utf8),
        },
    }
}

/// The cdbase in effect inside an element: its own `cdbase` attribute, if any.
pub open spec fn scoped_cdbase(g: TagView, cdbase: Seq<char>) -> Result<Seq<char>, ReadErr> {
    match attr_text(g, "cdbase"@) {
        Err(e) => Err(e),
        Ok(Some(c)) => Ok(c),
        Ok(None) => Ok(cdbase),
    }
}

/// Whether a tag has the given name (without namespace prefix).
pub open spec fn is_tag(g: TagView, name: Seq<char>) -> bool {
    g.local == ascii(name)
}

/// The first of `hex` and `dec` among the attributes of an OMF: `Some(None)`
/// for `hex`, `Some(Some(v))` for `dec` with value `v`.
pub open spec fn float_attr(a: Seq<Option<(Seq<u8>, Seq<u8>)>>) -> Option<Option<Seq<u8>>>
    decreases a.len(),
{
    if a.len() == 0 {
        None
    } else {
        match a[0] {
            Some((k, v)) => if k == ascii("hex"@) {
                Some(None)
            } else if k == ascii("dec"@) {
                Some(Some(v))
            } else {
                float_attr(a.drop_first())
            },
            None => float_attr(a.drop_first()),
        }
    }
}

/// All decoded bytes, or the first error.
pub open spec fn collect_bytes(r: Seq<Result<u8, Base64Error>>) -> Result<Seq<u8>, Base64Error>
    decreases r.len(),
{
    if r.len() == 0 {
        Ok(seq![])
    } else {
        match r[0] {
            Err(e) => Err(e),
            Ok(b) => match collect_bytes(r.drop_first()) {
                Ok(rest) => Ok(seq![b] + rest),
                Err(e) => Err(e),
            },
        }
    }
}

/// Whether an integer text is hexadecimal (`x...` or `-x...`).
pub open spec fn is_hex_text(s: Seq<char>) -> bool {
    (s.len() > 0 && s[0] == 'x') || (s.len() > 1 && s[0] == '-' && s[1] == 'x')
}

/// The end tag of an element whose content was read: `s` after it.
pub open spec fn need_end(t: Seq<TokenView>, s: St) -> Result<St, ReadErr> {
    let q = skip_ws(t, s);
    match ev(t, q.i) {
        None => Err(ReadErr::Xml),
        Some(EventView::End(_)) => Ok(adv(t, q)),
        _ => Err(ReadErr::UnexpectedTag(q.now)),
    }
}

/// An OMF from its (empty) tag.
pub open spec fn p_omf(g: TagView, attrs: Seq<AttrView>) -> Result<OMView, ReadErr> {
    match float_attr(g.attrs) {
        None => Err(ReadErr::ExpectedAttribute("dec"@)),
        Some(None) => Err(ReadErr::Hex),
        Some(Some(v)) => match utf8(v) {
            None => Err(ReadErr::Utf8),
            Some(s) => if is_float_text(s) {
                Ok(OMView::OMF { float: s, attrs })
            } else {
                Err(ReadErr::InvalidFloat(s))
            },
        },
    }
}

/// An OMV from its (empty) tag.
pub open spec fn p_omv(g: TagView, attrs: Seq<AttrView>) -> Result<OMView, ReadErr> {
    match req_attr(g, "name"@) {
        Err(e) => Err(e),
        Ok(name) => Ok(OMView::OMV { name, attrs }),
    }
}

/// An OMS from its (empty) tag; its cdbase is the one in effect.
pub open spec fn p_oms(g: TagView, cdbase: Seq<char>, attrs: Seq<AttrView>) -> Result<OMView, ReadErr> {
    match req_attr(g, "name"@) {
        Err(e) => Err(e),
        Ok(name) => match req_attr(g, "cd"@) {
            Err(e) => Err(e),
            Ok(cd) => match scoped_cdbase(g, cdbase) {
                Err(e) => Err(e),
                Ok(cb) => Ok(OMView::OMS { cd, name, cdbase: Some(cb), attrs }),
            },
        },
    }
}

/// An OMI, after its start tag.
pub open spec fn p_omi(t: Seq<TokenView>, s: St, attrs: Seq<AttrView>) -> Result<(OMView, St), ReadErr> {
    let q = skip_ws(t, s);
    match ev(t, q.i) {
        None => Err(ReadErr::Xml),
        Some(EventView::Text(b)) => match utf8(b) {
            None => Err(ReadErr::Utf8),
            Some(text) => if is_hex_text(text) {
                Err(ReadErr::Hex)
            } else {
                match parse_int(text) {
                    None => Err(ReadErr::InvalidInteger(text)),
                    Some(v) => match need_end(t, adv(t, q)) {
                        Err(e) => Err(e),
                        Ok(s2) => Ok((OMView::OMI { integer: v, attrs }, s2)),
                    },
                }
            },
        },
        _ => Err(ReadErr::ExpectedText),
    }
}

/// An OMB, after its start tag: its text decoded as base64, or the end tag
/// of an empty byte string.
pub open spec fn p_omb(t: Seq<TokenView>, s: St, attrs: Seq<AttrView>) -> Result<(OMView, St), ReadErr> {
    let q = skip_ws(t, s);
    match ev(t, q.i) {
        None => Err(ReadErr::Xml),
        Some(EventView::End(_)) => Ok((OMView::OMB { bytes: seq![], attrs }, adv(t, q))),
        Some(EventView::Text(b)) => match collect_bytes(decoded(b)) {
            Err(e) => Err(ReadErr::Base64(e)),
            Ok(bytes) => match need_end(t, adv(t, q)) {
                Err(e) => Err(e),
                Ok(s2) => Ok((OMView::OMB { bytes, attrs }, s2)),
            },
        },
        _ => Err(ReadErr::ExpectedText),
    }
}

/// An OMSTR, after its start tag: the very next read is its text, character
/// data whose entity references stand for their characters, or the end tag
/// of an empty string.
pub open spec fn p_omstr(t: Seq<TokenView>, s: St, attrs: Seq<AttrView>) -> Result<(OMView, St), ReadErr> {
    match ev(t, s.i) {
        None => Err(ReadErr::Xml),
        Some(EventView::Text(b)) => match utf8(b) {
            None => Err(ReadErr::Utf8),
            Some(text) => match need_end(t, adv(t, s)) {
                Err(e) => Err(e),
                Ok(s2) => Ok((OMView::OMSTR { string: unescape(text), attrs }, s2)),
            },
        },
        Some(EventView::End(_)) => Ok((OMView::OMSTR { string: seq![], attrs }, adv(t, s))),
        _ => Err(ReadErr::ExpectedText),
    }
}

/// The tags that must not be empty where an object is expected.
pub open spec fn nonempty_tag(g: TagView) -> Option<Seq<char>> {
    if is_tag(g, "OME"@) {
        Some("OME"@)
    } else if is_tag(g, "OMA"@) {
        Some("OMA"@)
    } else if is_tag(g, "OMBIND"@) {
        Some("OMBIND"@)
    } else if is_tag(g, "OMSTR"@) {
        Some("OMSTR"@)
    } else if is_tag(g, "OMI"@) {
        Some("OMI"@)
    } else if is_tag(g, "OMB"@) {
        Some("OMB"@)
    } else if is_tag(g, "OMATTR"@) {
        Some("OMATTR"@)
    } else {
        None
    }
}

/// The tags that must be empty.
pub open spec fn empty_tag(g: TagView) -> Option<Seq<char>> {
    if is_tag(g, "OMS"@) {
        Some("OMS"@)
    } else if is_tag(g, "OMF"@) {
        Some("OMF"@)
    } else if is_tag(g, "OMV"@) {
        Some("OMV"@)
    } else {
        None
    }
}

/// An object from an empty tag.
pub open spec fn p_empty(g: TagView, cdbase: Seq<char>, attrs: Seq<AttrView>) -> Option<Result<OMView, ReadErr>> {
    if is_tag(g, "OMF"@) {
        Some(p_omf(g, attrs))
    } else if is_tag(g, "OMV"@) {
        Some(p_omv(g, attrs))
    } else if is_tag(g, "OMS"@) {
        Some(p_oms(g, cdbase, attrs))
    } else {
        None
    }
}

/// Wraps a read object as the next item.
pub open spec fn brk(r: Result<(OMView, St), ReadErr>) -> Result<(ControlFlow<OMView, bool>, St), ReadErr> {
    match r {
        Ok((v, s)) => Ok((ControlFlow::Break(v), s)),
        Err(e) => Err(e),
    }
}

/// Wraps an object read from an empty tag as the next item.
pub open spec fn brk_at(r: Result<OMView, ReadErr>, s: St) -> Result<(ControlFlow<OMView, bool>, St), ReadErr> {
    match r {
        Ok(v) => Ok((ControlFlow::Break(v), s)),
        Err(e) => Err(e),
    }
}

/// The next item where an object is expected: an object (with `attrs` as its
/// attributes), or `Continue(true)` at an end tag, `Continue(false)` at any
/// other event that is no object.
pub open spec fn handle_next(t: Seq<TokenView>, inp: Seq<u8>, s: St, cdbase: Seq<char>, attrs: Seq<AttrView>) -> Result<(ControlFlow<OMView, bool>, St), ReadErr>
    decreases t.len() - s.i, 0int,
{
    let now = s.now;
    let s1 = adv(t, s);
    match ev(t, s.i) {
        None => Err(ReadErr::Xml),
        Some(EventView::Empty(g)) => match p_empty(g, cdbase, attrs) {
            Some(r) => brk_at(r, s1),
            None => match nonempty_tag(g) {
                Some(n) => Err(ReadErr::NonEmptyExpectedFor(n, now)),
                None => Err(ReadErr::UnexpectedTag(now)),
            },
        },
        Some(EventView::Start(g)) => if is_tag(g, "OMI"@) {
            brk(p_omi(t, s1, attrs))
        } else if is_tag(g, "OMB"@) {
            brk(p_omb(t, s1, attrs))
        } else if is_tag(g, "OMSTR"@) {
            brk(p_omstr(t, s1, attrs))
        } else if is_tag(g, "OMA"@) || is_tag(g, "OMBIND"@) || is_tag(g, "OME"@) || is_tag(
            g,
            "OMATTR"@,
        ) {
            match scoped_cdbase(g, cdbase) {
                Err(e) => Err(e),
                Ok(cb) => if is_tag(g, "OMA"@) {
                    brk(p_oma(t, inp, s1, cb, now, attrs))
                } else if is_tag(g, "OMBIND"@) {
                    brk(p_ombind(t, inp, s1, cb, now, attrs))
                } else if is_tag(g, "OME"@) {
                    brk(p_ome(t, inp, s1, cb, now, attrs))
                } else {
                    brk(p_omattr(t, inp, s1, cb, attrs))
                },
            }
        } else {
            match empty_tag(g) {
                Some(n) => Err(ReadErr::EmptyExpectedFor(n, now)),
                None => Err(ReadErr::UnexpectedTag(now)),
            }
        },
        Some(EventView::Text(b)) => if all_ws(b) {
            handle_next(t, inp, s1, cdbase, attrs)
        } else {
            Ok((ControlFlow::Continue(false), s1))
        },
        Some(EventView::Eof) => Err(ReadErr::NoObject),
        Some(EventView::End(_)) => Ok((ControlFlow::Continue(true), s1)),
        Some(EventView::Other) => Ok((ControlFlow::Continue(false), s1)),
    }
}

/// An OMA, after its start tag: the applicant, then the arguments up to the end tag.
pub open spec fn p_oma(t: Seq<TokenView>, inp: Seq<u8>, s: St, cdbase: Seq<char>, off: u64, attrs: Seq<AttrView>) -> Result<(OMView, St), ReadErr>
    decreases t.len() - s.i, 1int,
{
    match handle_next(t, inp, s, cdbase, seq![]) {
        Err(e) => Err(e),
        Ok((ControlFlow::Continue(_), _)) => Err(ReadErr::NonEmptyExpectedFor("OMA Applicant"@, off)),
        Ok((ControlFlow::Break(head), s2)) => if !progress(t, s, s2) {
            Err(ReadErr::Xml)
        } else {
            match oma_args(t, inp, s2, cdbase, off) {
                Err(e) => Err(e),
                Ok((arguments, s3)) => Ok(
                    (OMView::OMA { applicant: Box::new(head), arguments, attrs }, s3),
                ),
            }
        },
    }
}

/// The arguments of an OMA, up to and including its end tag.
pub open spec fn oma_args(t: Seq<TokenView>, inp: Seq<u8>, s: St, cdbase: Seq<char>, off: u64) -> Result<(Seq<OMView>, St), ReadErr>
    decreases t.len() - s.i, 1int,
{
    match handle_next(t, inp, s, cdbase, seq![]) {
        Err(e) => Err(e),
        Ok((ControlFlow::Continue(true), s2)) => Ok((seq![], s2)),
        Ok((ControlFlow::Continue(false), _)) => Err(ReadErr::UnexpectedTag(off)),
        Ok((ControlFlow::Break(a), s2)) => if !progress(t, s, s2) {
            Err(ReadErr::Xml)
        } else {
            match oma_args(t, inp, s2, cdbase, off) {
                Err(e) => Err(e),
                Ok((rest, s3)) => Ok((seq![a] + rest, s3)),
            }
        },
    }
}

/// The symbol of an OME: its cd, name and own cdbase, if any.
pub open spec fn ome_symbol(g: TagView) -> Result<(Option<Seq<char>>, Seq<char>, Seq<char>), ReadErr> {
    match req_attr(g, "name"@) {
        Err(e) => Err(e),
        Ok(name) => match req_attr(g, "cd"@) {
            Err(e) => Err(e),
            Ok(cd) => match attr_text(g, "cdbase"@) {
                Err(e) => Err(e),
                Ok(cb) => Ok((cb, cd, name)),
            },
        },
    }
}

/// An OME, after its start tag: its symbol, then objects and OMFOREIGNs up to the end tag.
pub open spec fn p_ome(t: Seq<TokenView>, inp: Seq<u8>, s: St, cdbase: Seq<char>, now: u64, attrs: Seq<AttrView>) -> Result<(OMView, St), ReadErr>
    decreases t.len() - s.i, 1int,
{
    let q = skip_ws(t, s);
    match ev(t, q.i) {
        None => Err(ReadErr::Xml),
        Some(EventView::Empty(g)) => if is_tag(g, "OMS"@) {
            match ome_symbol(g) {
                Err(e) => Err(e),
                Ok((cb, cd, name)) => if !progress(t, s, adv(t, q)) {
                    Err(ReadErr::Xml)
                } else {
                    match ome_args(t, inp, adv(t, q), cdbase, now) {
                        Err(e) => Err(e),
                        Ok((arguments, s2)) => Ok(
                            (OMView::OME { cd, name, cdbase: cb, arguments, attrs }, s2),
                        ),
                    }
                },
            }
        } else {
            Err(ReadErr::UnexpectedTag(now))
        },
        _ => Err(ReadErr::UnexpectedTag(now)),
    }
}

/// The arguments of an OME, up to and including its end tag.
pub open spec fn ome_args(t: Seq<TokenView>, inp: Seq<u8>, s: St, cdbase: Seq<char>, now: u64) -> Result<(Seq<ForeignView>, St), ReadErr>
    decreases t.len() - s.i, 1int,
{
    match next_foreign(t, inp, s, cdbase) {
        Err(e) => Err(e),
        Ok((ControlFlow::Continue(true), s2)) => Ok((seq![], s2)),
        Ok((ControlFlow::Continue(false), _)) => Err(ReadErr::UnexpectedTag(now)),
        Ok((ControlFlow::Break(a), s2)) => if !progress(t, s, s2) {
            Err(ReadErr::Xml)
        } else {
            match ome_args(t, inp, s2, cdbase, now) {
                Err(e) => Err(e),
                Ok((rest, s3)) => Ok((seq![a] + rest, s3)),
            }
        },
    }
}

/// Wraps a read object as the next object-or-OMFOREIGN.
pub open spec fn brk_om(r: Result<(OMView, St), ReadErr>) -> Result<(ControlFlow<ForeignView, bool>, St), ReadErr> {
    match r {
        Ok((v, s)) => Ok((ControlFlow::Break(ForeignView::OM(v)), s)),
        Err(e) => Err(e),
    }
}

/// The tags that must not be empty where an object or OMFOREIGN is expected.
pub open spec fn nonempty_foreign_tag(g: TagView) -> Option<Seq<char>> {
    if is_tag(g, "OMATTR"@) {
        Some("OMATTR"@)
    } else if is_tag(g, "OME"@) {
        Some("OME"@)
    } else if is_tag(g, "OMA"@) {
        Some("OMA"@)
    } else if is_tag(g, "OMBIND"@) {
        Some("OMBIND"@)
    } else if is_tag(g, "OMSTR"@) {
        Some("OMSTR"@)
    } else if is_tag(g, "OMI"@) {
        Some("OMI"@)
    } else if is_tag(g, "OMB"@) {
        Some("OMB"@)
    } else if is_tag(g, "OMFOREIGN"@) {
        Some("OMFOREIGN"@)
    } else {
        None
    }
}

/// The content of an OMFOREIGN whose start tag named `name` was the last
/// read: the raw input up to the matching end tag, with ASCII whitespace
/// trimmed, and the state after the end tag (the position is not updated).
pub open spec fn p_foreign_value(t: Seq<TokenView>, inp: Seq<u8>, s: St, name: Seq<u8>) -> Result<(Seq<char>, St), ReadErr> {
    match to_end(t.skip(s.i), 0, name, 0) {
        None => Err(ReadErr::Xml),
        Some(k) => {
            let start = t[s.i].before;
            let end = t[s.i + k].before;
            match utf8(trim_ascii(inp.subrange(start as int, end as int))) {
                None => Err(ReadErr::Utf8),
                Some(v) => Ok((v, St { i: s.i + k + 1, now: s.now })),
            }
        },
    }
}

/// The next item where an object or OMFOREIGN is expected.
pub open spec fn next_foreign(t: Seq<TokenView>, inp: Seq<u8>, s: St, cdbase: Seq<char>) -> Result<(ControlFlow<ForeignView, bool>, St), ReadErr>
    decreases t.len() - s.i, 0int,
{
    let now = s.now;
    let s1 = adv(t, s);
    match ev(t, s.i) {
        None => Err(ReadErr::Xml),
        Some(EventView::Empty(g)) => match p_empty(g, cdbase, seq![]) {
            Some(Ok(v)) => Ok((ControlFlow::Break(ForeignView::OM(v)), s1)),
            Some(Err(e)) => Err(e),
            None => match nonempty_foreign_tag(g) {
                Some(n) => Err(ReadErr::NonEmptyExpectedFor(n, now)),
                None => Err(ReadErr::UnexpectedTag(now)),
            },
        },
        Some(EventView::Start(g)) => if is_tag(g, "OMFOREIGN"@) {
            match attr_text(g, "encoding"@) {
                Err(e) => Err(e),
                Ok(encoding) => match p_foreign_value(t, inp, s1, g.name) {
                    Err(e) => Err(e),
                    Ok((value, s2)) => Ok(
                        (ControlFlow::Break(ForeignView::Foreign { encoding, value }), s2),
                    ),
                },
            }
        } else if is_tag(g, "OMI"@) {
            brk_om(p_omi(t, s1, seq![]))
        } else if is_tag(g, "OMB"@) {
            brk_om(p_omb(t, s1, seq![]))
        } else if is_tag(g, "OMSTR"@) {
            brk_om(p_omstr(t, s1, seq![]))
        } else if is_tag(g, "OMA"@) || is_tag(g, "OMBIND"@) || is_tag(g, "OME"@) || is_tag(
            g,
            "OMATTR"@,
        ) {
            match scoped_cdbase(g, cdbase) {
                Err(e) => Err(e),
                Ok(cb) => if is_tag(g, "OMA"@) {
                    brk_om(p_oma(t, inp, s1, cb, now, seq![]))
                } else if is_tag(g, "OMBIND"@) {
                    brk_om(p_ombind(t, inp, s1, cb, now, seq![]))
                } else if is_tag(g, "OME"@) {
                    brk_om(p_ome(t, inp, s1, cb, now, seq![]))
                } else {
                    brk_om(p_omattr(t, inp, s1, cb, seq![]))
                },
            }
        } else {
            match empty_tag(g) {
                Some(n) => Err(ReadErr::EmptyExpectedFor(n, now)),
                None => Err(ReadErr::UnexpectedTag(now)),
            }
        },
        Some(EventView::Text(b)) => if all_ws(b) {
            next_foreign(t, inp, s1, cdbase)
        } else {
            Ok((ControlFlow::Continue(false), s1))
        },
        Some(EventView::Eof) => Err(ReadErr::NoObject),
        Some(EventView::End(_)) => Ok((ControlFlow::Continue(true), s1)),
        Some(EventView::Other) => Ok((ControlFlow::Continue(false), s1)),
    }
}

/// The key-value pairs of an OMATP, after its start tag, up to and including
/// its end tag; each is added to `attrs`.
pub open spec fn omattr_pairs(t: Seq<TokenView>, inp: Seq<u8>, s: St, cdbase: Seq<char>, attrs: Seq<AttrView>) -> Result<(Seq<AttrView>, St), ReadErr>
    decreases t.len() - s.i, 1int,
{
    let now = s.now;
    let s1 = adv(t, s);
    match ev(t, s.i) {
        None => Err(ReadErr::Xml),
        Some(EventView::End(_)) => Ok((attrs, s1)),
        Some(EventView::Empty(g)) => if is_tag(g, "OMS"@) {
            match ome_symbol(g) {
                Err(e) => Err(e),
                Ok((cb, cd, name)) => match next_foreign(t, inp, s1, cdbase) {
                    Err(e) => Err(e),
                    Ok((ControlFlow::Continue(true), _)) => Err(ReadErr::AttributeValue(s1.now)),
                    Ok((ControlFlow::Continue(false), _)) => Err(ReadErr::UnexpectedTag(s1.now)),
                    Ok((ControlFlow::Break(value), s2)) => if !progress(t, s, s2) {
                        Err(ReadErr::Xml)
                    } else {
                        omattr_pairs(
                            t,
                            inp,
                            s2,
                            cdbase,
                            attrs.push(AttrView { cdbase: cb, cd, name, value }),
                        )
                    },
                },
            }
        } else {
            Err(ReadErr::UnexpectedTag(now))
        },
        Some(EventView::Text(b)) => if all_ws(b) {
            omattr_pairs(t, inp, s1, cdbase, attrs)
        } else {
            Err(ReadErr::UnexpectedTag(now))
        },
        _ => Err(ReadErr::UnexpectedTag(now)),
    }
}

/// The OMATP of an OMATTR, after the OMATTR's start tag: the attributes with
/// its pairs added.
pub open spec fn omatp(t: Seq<TokenView>, inp: Seq<u8>, s: St, cdbase: Seq<char>, attrs: Seq<AttrView>) -> Result<(Seq<AttrView>, St), ReadErr>
    decreases t.len() - s.i, 1int,
{
    let q = skip_ws(t, s);
    match ev(t, q.i) {
        None => Err(ReadErr::Xml),
        Some(EventView::Empty(g)) => if is_tag(g, "OMATP"@) {
            Ok((attrs, adv(t, q)))
        } else {
            Err(ReadErr::UnexpectedTag(q.now))
        },
        Some(EventView::Start(g)) => if is_tag(g, "OMATP"@) {
            if !progress(t, s, adv(t, q)) {
                Err(ReadErr::Xml)
            } else {
                omattr_pairs(t, inp, adv(t, q), cdbase, attrs)
            }
        } else {
            Err(ReadErr::UnexpectedTag(q.now))
        },
        _ => Err(ReadErr::UnexpectedTag(q.now)),
    }
}

/// An OMATTR, after its start tag: the attributed object, with the pairs as
/// attributes after those in `attrs`.
pub open spec fn p_omattr(t: Seq<TokenView>, inp: Seq<u8>, s: St, cdbase: Seq<char>, attrs: Seq<AttrView>) -> Result<(OMView, St), ReadErr>
    decreases t.len() - s.i, 2int,
{
    match omatp(t, inp, s, cdbase, attrs) {
        Err(e) => Err(e),
        Ok((attrs2, s2)) => if !progress(t, s, s2) {
            Err(ReadErr::Xml)
        } else {
            match handle_next(t, inp, s2, cdbase, attrs2) {
                Err(e) => Err(e),
                Ok((ControlFlow::Continue(_), _)) => Err(
                    ReadErr::NonEmptyExpectedFor("OMATTR"@, s2.now),
                ),
                Ok((ControlFlow::Break(o), s3)) => match need_end(t, s3) {
                    Err(e) => Err(e),
                    Ok(s4) => Ok((o, s4)),
                },
            }
        },
    }
}

/// A bound variable, or `None` at the end tag of the OMBVAR.
pub open spec fn omattr_or_var(t: Seq<TokenView>, inp: Seq<u8>, s: St, cdbase: Seq<char>, attrs: Seq<AttrView>) -> Result<(Option<VarView>, St), ReadErr>
    decreases t.len() - s.i, 1int,
{
    let now = s.now;
    let s1 = adv(t, s);
    match ev(t, s.i) {
        None => Err(ReadErr::Xml),
        Some(EventView::End(_)) => Ok((None, s1)),
        Some(EventView::Start(g)) => if is_tag(g, "OMATTR"@) {
            match scoped_cdbase(g, cdbase) {
                Err(e) => Err(e),
                Ok(cb) => match omatp(t, inp, s1, cb, attrs) {
                    Err(e) => Err(e),
                    Ok((attrs2, s2)) => if !progress(t, s, s2) {
                        Err(ReadErr::Xml)
                    } else {
                        match omattr_or_var(t, inp, s2, cb, attrs2) {
                            Err(e) => Err(e),
                            Ok((r, s3)) => match need_end(t, s3) {
                                Err(e) => Err(e),
                                Ok(s4) => Ok((r, s4)),
                            },
                        }
                    },
                },
            }
        } else {
            Err(ReadErr::UnexpectedTag(now))
        },
        Some(EventView::Empty(g)) => if is_tag(g, "OMV"@) {
            match req_attr(g, "name"@) {
                Err(e) => Err(e),
                Ok(name) => Ok((Some(VarView { name, attrs }), s1)),
            }
        } else {
            Err(ReadErr::UnexpectedTag(now))
        },
        Some(EventView::Text(b)) => if all_ws(b) {
            omattr_or_var(t, inp, s1, cdbase, attrs)
        } else {
            Err(ReadErr::UnexpectedTag(now))
        },
        _ => Err(ReadErr::UnexpectedTag(now)),
    }
}

/// The bound variables of an OMBVAR, after its start tag, up to its end tag.
pub open spec fn bvars(t: Seq<TokenView>, inp: Seq<u8>, s: St, cdbase: Seq<char>) -> Result<(Seq<VarView>, St), ReadErr>
    decreases t.len() - s.i, 2int,
{
    match omattr_or_var(t, inp, s, cdbase, seq![]) {
        Err(e) => Err(e),
        Ok((None, s2)) => Ok((seq![], s2)),
        Ok((Some(v), s2)) => if !progress(t, s, s2) {
            Err(ReadErr::Xml)
        } else {
            match bvars(t, inp, s2, cdbase) {
                Err(e) => Err(e),
                Ok((rest, s3)) => Ok((seq![v] + rest, s3)),
            }
        },
    }
}

/// An OMBIND, after its start tag: binder, OMBVAR, body, end tag.
pub open spec fn p_ombind(t: Seq<TokenView>, inp: Seq<u8>, s: St, cdbase: Seq<char>, off: u64, attrs: Seq<AttrView>) -> Result<(OMView, St), ReadErr>
    decreases t.len() - s.i, 1int,
{
    match handle_next(t, inp, s, cdbase, seq![]) {
        Err(e) => Err(e),
        Ok((ControlFlow::Continue(_), _)) => Err(ReadErr::NonEmptyExpectedFor("OMBIND"@, off)),
        Ok((ControlFlow::Break(binder), s2)) => {
            let q = skip_ws(t, s2);
            let s3 = adv(t, q);
            let vars: Result<(Seq<VarView>, St), ReadErr> = match ev(t, q.i) {
                None => Err(ReadErr::Xml),
                Some(EventView::Empty(g)) => if is_tag(g, "OMBVAR"@) {
                    Ok((seq![], s3))
                } else {
                    Err(ReadErr::UnexpectedTag(q.now))
                },
                Some(EventView::Start(g)) => if is_tag(g, "OMBVAR"@) {
                    if !progress(t, s, s3) {
                        Err(ReadErr::Xml)
                    } else {
                        bvars(t, inp, s3, cdbase)
                    }
                } else {
                    Err(ReadErr::UnexpectedTag(q.now))
                },
                _ => Err(ReadErr::UnexpectedTag(q.now)),
            };
            match vars {
                Err(e) => Err(e),
                Ok((variables, s4)) => if !progress(t, s, s4) {
                    Err(ReadErr::Xml)
                } else {
                    match handle_next(t, inp, s4, cdbase, seq![]) {
                        Err(e) => Err(e),
                        Ok((ControlFlow::Continue(_), _)) => Err(
                            ReadErr::NonEmptyExpectedFor("OMBIND"@, s4.now),
                        ),
                        Ok((ControlFlow::Break(object), s5)) => match need_end(t, s5) {
                            Err(e) => Err(e),
                            Ok(s6) => Ok(
                                (
                                    OMView::OMBIND {
                                        binder: Box::new(binder),
                                        variables,
                                        object: Box::new(object),
                                        attrs,
                                    },
                                    s6,
                                ),
                            ),
                        },
                    }
                },
            }
        },
    }
}

/// Reading an object from `s` on, skipping whatever comes before it.
pub open spec fn read_om(t: Seq<TokenView>, inp: Seq<u8>, s: St, cdbase: Seq<char>) -> Result<OMView, ReadErr>
    decreases t.len() - s.i,
{
    match handle_next(t, inp, s, cdbase, seq![]) {
        Err(e) => Err(e),
        Ok((ControlFlow::Break(b), _)) => Ok(b),
        Ok((ControlFlow::Continue(_), s2)) => if !progress(t, s, s2) {
            Err(ReadErr::Xml)
        } else {
            read_om(t, inp, s2, cdbase)
        },
    }
}

/// Reading the object of an OMOBJ: everything before the OMOBJ start tag is
/// skipped but for non-whitespace text, end tags, empty tags and the end of input.
pub open spec fn read_obj(t: Seq<TokenView>, inp: Seq<u8>, s: St) -> Result<OMView, ReadErr>
    decreases t.len() - s.i,
{
    let now = s.now;
    let s1 = adv(t, s);
    match ev(t, s.i) {
        None => Err(ReadErr::Xml),
        Some(EventView::Start(g)) => if g.name == ascii("OMOBJ"@) {
            match scoped_cdbase(g, CD_BASE@) {
                Err(e) => Err(e),
                Ok(cb) => read_om(t, inp, s1, cb),
            }
        } else {
            read_obj(t, inp, s1)
        },
        Some(EventView::Text(b)) => if !all_ws(b) {
            Err(ReadErr::UnexpectedTag(now))
        } else {
            read_obj(t, inp, s1)
        },
        Some(EventView::Eof) => Err(ReadErr::NoObject),
        Some(EventView::End(_)) => Err(ReadErr::UnexpectedTag(now)),
        Some(EventView::Empty(_)) => Err(ReadErr::UnexpectedTag(now)),
        Some(EventView::Other) => read_obj(t, inp, s1),
    }
}

} // verus!
