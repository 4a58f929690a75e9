//! The XML that the writer writes, piece by piece: each piece is a tag or a
//! text, with the read that the XML reader makes of it. The text of the
//! pieces one after the other is what the writer writes, pretty-printed or
//! not (see the sibling module `law` for what the reader makes of their reads).
use vstd::prelude::*;
use vstd::utf8::encode_utf8;

use crate::base64::encode;
use crate::de::events::{EventView, TagView};
use crate::integer::int_text;
use crate::om::{attributes_of, opt_view, Attr, BoundVariable, OMMaybeForeign, OpenMath};
use crate::ser::xml::{
    after_ind, close_tag, deeper, ind, inner, omattr_open, open_tag, opened, uri_cdbase, xml_args,
    xml_attrs,
    xml_foreign, xml_foreigns, xml_om, xml_ombvar, xml_omobj, xml_oms, xml_omv, xml_plain, xml_var,
    xml_vars, obj_ctx, XmlCtx,
};
use crate::{OPENMATH_BASE_URI, XML_NAMESPACE};
use crate::text::{ascii, escaped, text_escaped};

verus! {

/// An attribute of a tag, its value as the text between the quotes.
pub open spec fn xattr(key: Seq<char>, value: Seq<char>) -> Option<(Seq<u8>, Seq<u8>)> {
    Some((ascii(key), encode_utf8(value)))
}

/// A tag with no namespace prefix.
pub open spec fn xtag(name: Seq<char>, attrs: Seq<Option<(Seq<u8>, Seq<u8>)>>) -> TagView {
    TagView { name: ascii(name), local: ascii(name), attrs }
}

/// An end tag.
pub open spec fn close_ev(name: Seq<char>) -> EventView {
    EventView::End(ascii(name))
}

/// A text.
pub open spec fn text_ev(s: Seq<char>) -> EventView {
    EventView::Text(encode_utf8(s))
}

/// A piece of XML: a start tag, an empty tag, an end tag or a text; tags
/// with their name and their attributes (key and the text between the quotes).
pub ghost enum XmlPiece {
    Open(Seq<char>, Seq<(Seq<char>, Seq<char>)>),
    Empty(Seq<char>, Seq<(Seq<char>, Seq<char>)>),
    Close(Seq<char>),
    Text(Seq<char>),
}

/// The attributes of a tag as written: a space, the key, `="`, the value, `"`.
pub open spec fn attrs_text(a: Seq<(Seq<char>, Seq<char>)>) -> Seq<char>
    decreases a.len(),
{
    if a.len() == 0 {
        seq![]
    } else {
        seq![' '] + a[0].0 + seq!['=', '"'] + a[0].1 + seq!['"'] + attrs_text(a.drop_first())
    }
}

/// The text of a piece.
pub open spec fn piece_text(p: XmlPiece) -> Seq<char> {
    match p {
        XmlPiece::Open(n, a) => seq!['<'] + n + attrs_text(a) + seq!['>'],
        XmlPiece::Empty(n, a) => seq!['<'] + n + attrs_text(a) + seq!['/', '>'],
        XmlPiece::Close(n) => seq!['<', '/'] + n + seq!['>'],
        XmlPiece::Text(s) => s,
    }
}

/// The attributes of a tag as the reader hands them out.
pub open spec fn attrs_read(a: Seq<(Seq<char>, Seq<char>)>) -> Seq<Option<(Seq<u8>, Seq<u8>)>> {
    a.map_values(|x: (Seq<char>, Seq<char>)| xattr(x.0, x.1))
}

/// The read that the XML reader makes of a piece.
pub open spec fn piece_event(p: XmlPiece) -> EventView {
    match p {
        XmlPiece::Open(n, a) => EventView::Start(xtag(n, attrs_read(a))),
        XmlPiece::Empty(n, a) => EventView::Empty(xtag(n, attrs_read(a))),
        XmlPiece::Close(n) => close_ev(n),
        XmlPiece::Text(s) => text_ev(s),
    }
}

/// The text of pieces one after the other.
pub open spec fn text_of(p: Seq<XmlPiece>) -> Seq<char>
    decreases p.len(),
{
    if p.len() == 0 {
        seq![]
    } else {
        piece_text(p[0]) + text_of(p.drop_first())
    }
}

/// The reads of pieces one after the other.
pub open spec fn events_of(p: Seq<XmlPiece>) -> Seq<EventView> {
    p.map_values(|x: XmlPiece| piece_event(x))
}

/// A start tag without attributes.
pub open spec fn open_p(n: Seq<char>) -> XmlPiece {
    XmlPiece::Open(n, seq![])
}

/// A text, as pieces: none where it is empty.
pub open spec fn text_p(s: Seq<char>) -> Seq<XmlPiece> {
    if s.len() == 0 {
        seq![]
    } else {
        seq![XmlPiece::Text(s)]
    }
}

/// The attributes of the OMS tag of a symbol.
pub open spec fn oms_pattrs(cb: Option<Seq<char>>, cd: Seq<char>, name: Seq<char>, cur: Seq<char>) -> Seq<(Seq<char>, Seq<char>)> {
    match uri_cdbase(cb, cur) {
        Some(b) => seq![("cdbase"@, escaped(b)), ("cd"@, escaped(cd)), ("name"@, escaped(name))],
        None => seq![("cd"@, escaped(cd)), ("name"@, escaped(name))],
    }
}

/// The OMS tag of a symbol.
pub open spec fn oms_p(cb: Option<Seq<char>>, cd: Seq<char>, name: Seq<char>, cur: Seq<char>) -> XmlPiece {
    XmlPiece::Empty("OMS"@, oms_pattrs(cb, cd, name, cur))
}

/// The OMV tag of a variable.
pub open spec fn omv_p(name: Seq<char>) -> XmlPiece {
    XmlPiece::Empty("OMV"@, seq![("name"@, escaped(name))])
}

/// The context of the children of an element that does not declare them
/// elements of their own: one level deeper.
pub open spec fn deep(c: XmlCtx) -> XmlCtx {
    XmlCtx { indent: deeper(c.indent), ..c }
}

/// What the writer puts before an element, as pieces.
pub open spec fn ws_p(i: Option<(bool, Seq<char>)>) -> Seq<XmlPiece> {
    text_p(ind(i))
}

/// The pieces of the XML of an object, written in the context `c`.
pub open spec fn om_pieces(o: OpenMath, c: XmlCtx) -> Seq<XmlPiece>
    decreases o, 1int,
{
    let a = attributes_of(o)@;
    if a.len() > 0 {
        let ci = inner(c);
        ws_p(c.indent) + seq![open_p("OMATTR"@)] + ws_p(ci.indent) + seq![open_p("OMATP"@)]
            + pair_pieces(a, deep(ci)) + ws_p(ci.indent) + seq![XmlPiece::Close("OMATP"@)]
            + plain_pieces(o, ci) + ws_p(opened(c).indent) + seq![XmlPiece::Close("OMATTR"@)]
    } else {
        plain_pieces(o, c)
    }
}

/// The pieces of an object without its attributes.
pub open spec fn plain_pieces(o: OpenMath, c: XmlCtx) -> Seq<XmlPiece>
    decreases o, 0int,
{
    let ci = inner(c);
    let w = ws_p(c.indent);
    match o {
        OpenMath::OMI { int: i, .. } => w + seq![open_p("OMI"@)] + seq![
            XmlPiece::Text(int_text(i@)),
        ] + seq![XmlPiece::Close("OMI"@)],
        OpenMath::OMF { float, .. } => w + seq![
            XmlPiece::Empty("OMF"@, seq![("dec"@, float@)]),
        ],
        OpenMath::OMSTR { string, .. } => w + seq![open_p("OMSTR"@)] + text_p(text_escaped(string@))
            + seq![XmlPiece::Close("OMSTR"@)],
        OpenMath::OMB { bytes, .. } => w + seq![open_p("OMB"@)] + text_p(
            encode(bytes@).map_values(|b: u8| b as char),
        ) + seq![XmlPiece::Close("OMB"@)],
        OpenMath::OMV { name, .. } => w + seq![omv_p(name@)],
        OpenMath::OMS { cd, name, cdbase, .. } => w + seq![
            oms_p(opt_view(cdbase), cd@, name@, c.current_ns),
        ],
        OpenMath::OMA { applicant, arguments, .. } => w + seq![open_p("OMA"@)] + om_pieces(
            *applicant,
            ci,
        ) + args_pieces(arguments@, ci) + ws_p(opened(c).indent) + seq![XmlPiece::Close("OMA"@)],
        OpenMath::OME { cd, name, cdbase, arguments, .. } => w + seq![open_p("OME"@)] + (ws_p(
            ci.indent,
        ) + seq![oms_p(opt_view(cdbase), cd@, name@, ci.current_ns)]) + foreigns_pieces(
            arguments@,
            ci,
        ) + ws_p(opened(c).indent) + seq![XmlPiece::Close("OME"@)],
        OpenMath::OMBIND { binder, variables, object, .. } => w + seq![open_p("OMBIND"@)]
            + om_pieces(*binder, ci) + bvar_pieces(variables@, ci) + om_pieces(*object, ci) + ws_p(
            opened(c).indent,
        ) + seq![XmlPiece::Close("OMBIND"@)],
    }
}

/// The text between the tags of an OMFOREIGN.
pub open spec fn foreign_text(value: Seq<char>, c: XmlCtx) -> Seq<char> {
    if c.indent is Some {
        ind(after_ind(c.indent)) + "  "@ + value + ind(after_ind(c.indent))
    } else {
        value
    }
}

/// The layout the writer puts before an OMFOREIGN value.
pub open spec fn foreign_lead(c: XmlCtx) -> Seq<char> {
    if c.indent is Some {
        ind(after_ind(c.indent)) + "  "@
    } else {
        seq![]
    }
}

/// The layout the writer puts after an OMFOREIGN value.
pub open spec fn foreign_trail(c: XmlCtx) -> Seq<char> {
    if c.indent is Some {
        ind(after_ind(c.indent))
    } else {
        seq![]
    }
}

/// A tag name inside OMFOREIGN markup: ASCII letters and digits, so that its
/// UTF-8 bytes are its ASCII bytes, other than `OMFOREIGN` itself.
pub open spec fn markup_name(n: Seq<char>) -> bool {
    &&& n.len() > 0
    &&& forall|k: int|
        0 <= k < n.len() ==> ('a' <= #[trigger] n[k] <= 'z' || 'A' <= n[k] <= 'Z' || '0' <= n[k]
            <= '9')
    &&& encode_utf8(n) == ascii(n)
    &&& ascii(n) != ascii("OMFOREIGN"@)
}

/// A piece of OMFOREIGN markup: a tag without attributes with such a name,
/// or a text that is not empty and holds no `<`.
pub open spec fn markup_piece(p: XmlPiece) -> bool {
    match p {
        XmlPiece::Open(n, a) => markup_name(n) && a.len() == 0,
        XmlPiece::Empty(n, a) => markup_name(n) && a.len() == 0,
        XmlPiece::Close(n) => markup_name(n),
        XmlPiece::Text(s) => s.len() > 0 && forall|k: int| 0 <= k < s.len() ==> #[trigger] s[k] != '<',
    }
}

/// OMFOREIGN markup: pieces of markup, that begin and end with a tag, with no
/// two texts in a row.
pub open spec fn markup_ok(ps: Seq<XmlPiece>) -> bool {
    &&& ps.len() > 0
    &&& !(ps[0] is Text)
    &&& !(ps.last() is Text)
    &&& forall|k: int| 0 <= k < ps.len() ==> markup_piece(#[trigger] ps[k])
    &&& forall|k: int| 0 <= k < ps.len() - 1 ==> !(#[trigger] ps[k] is Text && ps[k + 1] is Text)
}

/// The pieces of an OMFOREIGN value that is markup, `None` where it is not.
#[verifier::opaque]
pub open spec fn markup(v: Seq<char>) -> Option<Seq<XmlPiece>> {
    if exists|ps: Seq<XmlPiece>| markup_ok(ps) && text_of(ps) == v {
        Some(choose|ps: Seq<XmlPiece>| markup_ok(ps) && text_of(ps) == v)
    } else {
        None
    }
}

/// Where a value is markup, its pieces are markup and spell it.
pub(crate) proof fn lemma_markup(v: Seq<char>)
    ensures
        markup(v) matches Some(ps) ==> markup_ok(ps) && text_of(ps) == v,
        (exists|ps: Seq<XmlPiece>| markup_ok(ps) && text_of(ps) == v) ==> markup(v) is Some,
{
    reveal(markup);
}

/// The pieces between the tags of an OMFOREIGN: its layout and the markup of
/// its value, or one text where the value is not markup.
pub open spec fn foreign_body(value: Seq<char>, c: XmlCtx) -> Seq<XmlPiece> {
    match markup(value) {
        Some(ps) => text_p(foreign_lead(c)) + ps + text_p(foreign_trail(c)),
        None => text_p(foreign_text(value, c)),
    }
}

/// The pieces of an object or OMFOREIGN.
pub open spec fn foreign_pieces(f: OMMaybeForeign<OpenMath>, c: XmlCtx) -> Seq<XmlPiece>
    decreases f, 1int,
{
    match f {
        OMMaybeForeign::OM(o) => om_pieces(o, c),
        OMMaybeForeign::Foreign { encoding, value } => ws_p(c.indent) + seq![
            XmlPiece::Open(
                "OMFOREIGN"@,
                match encoding {
                    Some(e) => seq![("encoding"@, escaped(e@))],
                    None => seq![],
                },
            ),
        ] + foreign_body(value@, c) + seq![XmlPiece::Close("OMFOREIGN"@)],
    }
}

/// The pieces of the key-value pairs of an OMATP.
pub open spec fn pair_pieces(s: Seq<Attr<OMMaybeForeign<OpenMath>>>, c: XmlCtx) -> Seq<XmlPiece>
    decreases s, 1int,
{
    if s.len() == 0 {
        seq![]
    } else {
        (ws_p(c.indent) + seq![oms_p(opt_view(s[0].cdbase), s[0].cd@, s[0].name@, c.current_ns)])
            + foreign_pieces(s[0].value, c) + pair_pieces(s.drop_first(), c)
    }
}

/// The pieces of a sequence of objects.
pub open spec fn args_pieces(s: Seq<OpenMath>, c: XmlCtx) -> Seq<XmlPiece>
    decreases s, 1int,
{
    if s.len() == 0 {
        seq![]
    } else {
        om_pieces(s[0], c) + args_pieces(s.drop_first(), c)
    }
}

/// The pieces of a sequence of objects and OMFOREIGNs.
pub open spec fn foreigns_pieces(s: Seq<OMMaybeForeign<OpenMath>>, c: XmlCtx) -> Seq<XmlPiece>
    decreases s, 1int,
{
    if s.len() == 0 {
        seq![]
    } else {
        foreign_pieces(s[0], c) + foreigns_pieces(s.drop_first(), c)
    }
}

/// The pieces of the OMBVAR of an OMBIND.
pub open spec fn bvar_pieces(s: Seq<BoundVariable>, c: XmlCtx) -> Seq<XmlPiece>
    decreases s, 2int,
{
    ws_p(c.indent) + if s.len() == 0 {
        seq![XmlPiece::Empty("OMBVAR"@, seq![])]
    } else {
        seq![open_p("OMBVAR"@)] + vars_pieces(s, deep(c)) + ws_p(c.indent) + seq![
            XmlPiece::Close("OMBVAR"@),
        ]
    }
}

/// The pieces of bound variables.
pub open spec fn vars_pieces(s: Seq<BoundVariable>, c: XmlCtx) -> Seq<XmlPiece>
    decreases s, 1int,
{
    if s.len() == 0 {
        seq![]
    } else {
        var_pieces(s[0], c) + vars_pieces(s.drop_first(), c)
    }
}

/// The pieces of one bound variable: an OMV, inside an OMATTR where it has
/// attributes.
pub open spec fn var_pieces(v: BoundVariable, c: XmlCtx) -> Seq<XmlPiece>
    decreases v, 1int,
{
    let a = v.attributes@;
    if a.len() == 0 {
        ws_p(c.indent) + seq![omv_p(v.name@)]
    } else {
        let ci = inner(c);
        ws_p(c.indent) + seq![open_p("OMATTR"@)] + ws_p(ci.indent) + seq![open_p("OMATP"@)]
            + pair_pieces(a, deep(ci)) + ws_p(ci.indent) + seq![XmlPiece::Close("OMATP"@)] + (ws_p(
            ci.indent,
        ) + seq![omv_p(v.name@)]) + ws_p(opened(c).indent) + seq![XmlPiece::Close("OMATTR"@)]
    }
}

/// The text of pieces one after the other is the text of each.
proof fn lemma_text_concat(a: Seq<XmlPiece>, b: Seq<XmlPiece>)
    ensures
        text_of(a + b) == text_of(a) + text_of(b),
    decreases a.len(),
{
    if a.len() == 0 {
        assert(a + b =~= b);
        assert(text_of(a) + text_of(b) =~= text_of(b));
    } else {
        lemma_text_concat(a.drop_first(), b);
        assert((a + b).drop_first() =~= a.drop_first() + b);
        assert((a + b)[0] == a[0]);
        assert(text_of(a + b) =~= text_of(a) + text_of(b));
    }
}

/// The text of pieces one after the other, for all pieces.
pub(crate) proof fn lemma_text_concat_all()
    ensures
        forall|a: Seq<XmlPiece>, b: Seq<XmlPiece>| #[trigger]
            text_of(a + b) == text_of(a) + text_of(b),
{
    assert forall|a: Seq<XmlPiece>, b: Seq<XmlPiece>| #[trigger]
        text_of(a + b) == text_of(a) + text_of(b) by {
        lemma_text_concat(a, b);
    }
}

/// The text of a single piece.
pub(crate) proof fn lemma_text_single(p: XmlPiece)
    ensures
        text_of(seq![p]) == piece_text(p),
{
    assert(seq![p].drop_first() =~= Seq::<XmlPiece>::empty());
    assert(text_of(seq![p].drop_first()) =~= Seq::<char>::empty());
    assert(text_of(seq![p]) =~= piece_text(p));
}

/// The text of a text, as pieces.
proof fn lemma_text_p(t: Seq<char>)
    ensures
        text_of(text_p(t)) == t,
{
    if t.len() > 0 {
        lemma_text_single(XmlPiece::Text(t));
    }
}

/// The text of a start tag without attributes.
proof fn lemma_text_open(n: Seq<char>)
    ensures
        text_of(seq![open_p(n)]) == seq!['<'] + n + seq!['>'],
{
    lemma_text_single(open_p(n));
    assert(attrs_text(Seq::<(Seq<char>, Seq<char>)>::empty()) == Seq::<char>::empty());
    assert(piece_text(open_p(n)) =~= seq!['<'] + n + seq!['>']);
}

/// The text of an end tag.
proof fn lemma_text_close(n: Seq<char>)
    ensures
        text_of(seq![XmlPiece::Close(n)]) == seq!['<', '/'] + n + seq!['>'],
{
    lemma_text_single(XmlPiece::Close(n));
}

/// The text of what the writer puts before an element.
proof fn lemma_text_ws(i: Option<(bool, Seq<char>)>)
    ensures
        text_of(ws_p(i)) == ind(i),
{
    lemma_text_p(ind(i));
}

/// Concatenation is associative.
proof fn lemma_assoc(a: Seq<char>, b: Seq<char>, c: Seq<char>)
    ensures
        (a + b) + c == a + (b + c),
{
    assert((a + b) + c =~= a + (b + c));
}

/// The tags that the writer writes around an element in a context that
/// declares no cdbase: its start tag, and its end tag.
proof fn lemma_tags(n: Seq<char>, c: XmlCtx)
    requires
        c.next_ns is None,
    ensures
        open_tag(n, c) == ind(c.indent) + text_of(seq![open_p(n)]),
        close_tag(n, c) == ind(opened(c).indent) + text_of(seq![XmlPiece::Close(n)]),
{
    lemma_text_open(n);
    lemma_text_close(n);
    reveal_strlit("</");
    assert("</"@ =~= seq!['<', '/']);
    assert(close_tag(n, c) =~= ind(opened(c).indent) + (seq!['<', '/'] + n + seq!['>']));
}

/// The text of the first attribute of a tag, and of the rest.
proof fn lemma_attrs_text(k: Seq<char>, v: Seq<char>, rest: Seq<(Seq<char>, Seq<char>)>)
    ensures
        attrs_text(seq![(k, v)] + rest) == seq![' '] + k + seq!['=', '"'] + v + seq!['"'] + attrs_text(rest),
{
    assert((seq![(k, v)] + rest).drop_first() =~= rest);
}

/// The literals the writer writes around leaves.
proof fn lemma_literals()
    ensures
        "<OMI>"@ == seq!['<'] + "OMI"@ + seq!['>'],
        "</OMI>"@ == seq!['<', '/'] + "OMI"@ + seq!['>'],
        "<OMSTR>"@ == seq!['<'] + "OMSTR"@ + seq!['>'],
        "</OMSTR>"@ == seq!['<', '/'] + "OMSTR"@ + seq!['>'],
        "<OMB>"@ == seq!['<'] + "OMB"@ + seq!['>'],
        "</OMB>"@ == seq!['<', '/'] + "OMB"@ + seq!['>'],
        "<OMATP>"@ == seq!['<'] + "OMATP"@ + seq!['>'],
        "</OMATP>"@ == seq!['<', '/'] + "OMATP"@ + seq!['>'],
        "</OMBVAR>"@ == seq!['<', '/'] + "OMBVAR"@ + seq!['>'],
        "<OMFOREIGN>"@ == seq!['<'] + "OMFOREIGN"@ + seq!['>'],
        "</OMFOREIGN>"@ == seq!['<', '/'] + "OMFOREIGN"@ + seq!['>'],
        "<OMF dec=\""@ == seq!['<'] + "OMF"@ + seq![' '] + "dec"@ + seq!['=', '"'],
        "<OMV name=\""@ == seq!['<'] + "OMV"@ + seq![' '] + "name"@ + seq!['=', '"'],
        "\"/>"@ == seq!['"', '/', '>'],
        "<OMS "@ == seq!['<'] + "OMS"@ + seq![' '],
        "cdbase=\""@ == "cdbase"@ + seq!['=', '"'],
        "\" "@ == seq!['"', ' '],
        "cd=\""@ == "cd"@ + seq!['=', '"'],
        "\" name=\""@ == seq!['"', ' '] + "name"@ + seq!['=', '"'],
        "<OMBVAR"@ == seq!['<'] + "OMBVAR"@,
        "/>"@ == seq!['/', '>'],
        ">"@ == seq!['>'],
        "<OMFOREIGN encoding=\""@ == seq!['<'] + "OMFOREIGN"@ + seq![' '] + "encoding"@ + seq!['=', '"'],
        "\">"@ == seq!['"', '>'],
        "  "@ == seq![' ', ' '],
        "</"@ == seq!['<', '/'],
{
    reveal_strlit("OMI");
    reveal_strlit("OMSTR");
    reveal_strlit("OMB");
    reveal_strlit("OMATP");
    reveal_strlit("OMBVAR");
    reveal_strlit("OMFOREIGN");
    reveal_strlit("OMF");
    reveal_strlit("OMV");
    reveal_strlit("OMS");
    reveal_strlit("dec");
    reveal_strlit("name");
    reveal_strlit("cdbase");
    reveal_strlit("cd");
    reveal_strlit("encoding");
    reveal_strlit("<OMI>");
    reveal_strlit("</OMI>");
    reveal_strlit("<OMSTR>");
    reveal_strlit("</OMSTR>");
    reveal_strlit("<OMB>");
    reveal_strlit("</OMB>");
    reveal_strlit("<OMATP>");
    reveal_strlit("</OMATP>");
    reveal_strlit("</OMBVAR>");
    reveal_strlit("<OMFOREIGN>");
    reveal_strlit("</OMFOREIGN>");
    reveal_strlit("<OMF dec=\"");
    reveal_strlit("<OMV name=\"");
    reveal_strlit("\"/>");
    reveal_strlit("<OMS ");
    reveal_strlit("cdbase=\"");
    reveal_strlit("\" ");
    reveal_strlit("cd=\"");
    reveal_strlit("\" name=\"");
    reveal_strlit("<OMBVAR");
    reveal_strlit("/>");
    reveal_strlit(">");
    reveal_strlit("<OMFOREIGN encoding=\"");
    reveal_strlit("\">");
    reveal_strlit("  ");
    reveal_strlit("</");
    assert("<OMI>"@ =~= seq!['<'] + "OMI"@ + seq!['>']);
    assert("</OMI>"@ =~= seq!['<', '/'] + "OMI"@ + seq!['>']);
    assert("<OMSTR>"@ =~= seq!['<'] + "OMSTR"@ + seq!['>']);
    assert("</OMSTR>"@ =~= seq!['<', '/'] + "OMSTR"@ + seq!['>']);
    assert("<OMB>"@ =~= seq!['<'] + "OMB"@ + seq!['>']);
    assert("</OMB>"@ =~= seq!['<', '/'] + "OMB"@ + seq!['>']);
    assert("<OMATP>"@ =~= seq!['<'] + "OMATP"@ + seq!['>']);
    assert("</OMATP>"@ =~= seq!['<', '/'] + "OMATP"@ + seq!['>']);
    assert("</OMBVAR>"@ =~= seq!['<', '/'] + "OMBVAR"@ + seq!['>']);
    assert("<OMFOREIGN>"@ =~= seq!['<'] + "OMFOREIGN"@ + seq!['>']);
    assert("</OMFOREIGN>"@ =~= seq!['<', '/'] + "OMFOREIGN"@ + seq!['>']);
    assert("<OMF dec=\""@ =~= seq!['<'] + "OMF"@ + seq![' '] + "dec"@ + seq!['=', '"']);
    assert("<OMV name=\""@ =~= seq!['<'] + "OMV"@ + seq![' '] + "name"@ + seq!['=', '"']);
    assert("\"/>"@ =~= seq!['"', '/', '>']);
    assert("<OMS "@ =~= seq!['<'] + "OMS"@ + seq![' ']);
    assert("cdbase=\""@ =~= "cdbase"@ + seq!['=', '"']);
    assert("\" "@ =~= seq!['"', ' ']);
    assert("cd=\""@ =~= "cd"@ + seq!['=', '"']);
    assert("\" name=\""@ =~= seq!['"', ' '] + "name"@ + seq!['=', '"']);
    assert("<OMBVAR"@ =~= seq!['<'] + "OMBVAR"@);
    assert("/>"@ =~= seq!['/', '>']);
    assert(">"@ =~= seq!['>']);
    assert("<OMFOREIGN encoding=\""@ =~= seq!['<'] + "OMFOREIGN"@ + seq![' '] + "encoding"@ + seq!['=', '"']);
    assert("\">"@ =~= seq!['"', '>']);
    assert("  "@ =~= seq![' ', ' ']);
    assert("</"@ =~= seq!['<', '/']);
}


/// What the writer writes of a symbol after the indentation.
pub open spec fn oms_tail(cb: Option<Seq<char>>, cd: Seq<char>, name: Seq<char>, cur: Seq<char>) -> Seq<char> {
    "<OMS "@ + match uri_cdbase(cb, cur) {
        Some(n) => "cdbase=\""@ + escaped(n) + "\" "@,
        None => seq![],
    } + "cd=\""@ + escaped(cd) + "\" name=\""@ + escaped(name) + "\"/>"@
}

/// The text of a symbol's tag.
proof fn lemma_oms_piece(cb: Option<Seq<char>>, cd: Seq<char>, name: Seq<char>, cur: Seq<char>)
    ensures
        piece_text(oms_p(cb, cd, name, cur)) == oms_tail(cb, cd, name, cur),
{
    lemma_literals();
    let cdp = seq![("cd"@, escaped(cd)), ("name"@, escaped(name))];
    let np = seq![("name"@, escaped(name))];
    lemma_attrs_text("name"@, escaped(name), Seq::<(Seq<char>, Seq<char>)>::empty());
    assert(seq![("name"@, escaped(name))] + Seq::<(Seq<char>, Seq<char>)>::empty() =~= np);
    lemma_attrs_text("cd"@, escaped(cd), np);
    assert(seq![("cd"@, escaped(cd))] + np =~= cdp);
    match uri_cdbase(cb, cur) {
        Some(b) => {
            lemma_attrs_text("cdbase"@, escaped(b), cdp);
            assert(seq![("cdbase"@, escaped(b))] + cdp =~= oms_pattrs(cb, cd, name, cur));
            assert(piece_text(oms_p(cb, cd, name, cur)) =~= oms_tail(cb, cd, name, cur));
        },
        None => {
            assert(cdp =~= oms_pattrs(cb, cd, name, cur));
            assert(piece_text(oms_p(cb, cd, name, cur)) =~= oms_tail(cb, cd, name, cur));
        },
    }
}

/// What the writer writes of a symbol, in a context that declares no cdbase.
proof fn lemma_xml_oms_tail(cb: Option<Seq<char>>, cd: Seq<char>, name: Seq<char>, c: XmlCtx)
    requires
        c.next_ns is None,
    ensures
        xml_oms(cb, cd, name, c) == ind(c.indent) + oms_tail(cb, cd, name, c.current_ns),
{
    assert(xml_oms(cb, cd, name, c) =~= ind(c.indent) + oms_tail(cb, cd, name, c.current_ns));
}

/// The text of a symbol's tag is what the writer writes for it, in a
/// context that declares no cdbase.
proof fn lemma_text_oms(cb: Option<Seq<char>>, cd: Seq<char>, name: Seq<char>, c: XmlCtx)
    requires
        c.next_ns is None,
    ensures
        text_of(ws_p(c.indent) + seq![oms_p(cb, cd, name, c.current_ns)]) == xml_oms(cb, cd, name, c),
{
    lemma_text_concat(ws_p(c.indent), seq![oms_p(cb, cd, name, c.current_ns)]);
    lemma_text_ws(c.indent);
    lemma_text_single(oms_p(cb, cd, name, c.current_ns));
    lemma_oms_piece(cb, cd, name, c.current_ns);
    lemma_xml_oms_tail(cb, cd, name, c);
}

/// The text of a variable's tag is what the writer writes for it.
proof fn lemma_text_omv(name: Seq<char>, c: XmlCtx)
    ensures
        text_of(ws_p(c.indent) + seq![omv_p(name)]) == xml_omv(name, c),
{
    lemma_literals();
    lemma_text_concat(ws_p(c.indent), seq![omv_p(name)]);
    lemma_text_ws(c.indent);
    lemma_text_single(omv_p(name));
    lemma_attrs_text("name"@, escaped(name), Seq::<(Seq<char>, Seq<char>)>::empty());
    assert(seq![("name"@, escaped(name))] + Seq::<(Seq<char>, Seq<char>)>::empty() =~= seq![
        ("name"@, escaped(name)),
    ]);
    assert(ind(c.indent) + piece_text(omv_p(name)) =~= xml_omv(name, c));
}


/// The pieces of key-value pairs, the last one last.
proof fn lemma_pairs_last(s: Seq<Attr<OMMaybeForeign<OpenMath>>>, c: XmlCtx)
    requires
        s.len() > 0,
    ensures
        pair_pieces(s, c) == pair_pieces(s.drop_last(), c) + ((ws_p(c.indent) + seq![
            oms_p(opt_view(s.last().cdbase), s.last().cd@, s.last().name@, c.current_ns),
        ]) + foreign_pieces(s.last().value, c)),
    decreases s.len(),
{
    let x = s.last();
    let lp = (ws_p(c.indent) + seq![oms_p(opt_view(x.cdbase), x.cd@, x.name@, c.current_ns)])
        + foreign_pieces(x.value, c);
    if s.len() == 1 {
        assert(s.drop_first() =~= Seq::<Attr<OMMaybeForeign<OpenMath>>>::empty());
        assert(s.drop_last() =~= Seq::<Attr<OMMaybeForeign<OpenMath>>>::empty());
        assert(pair_pieces(s, c) =~= pair_pieces(s.drop_last(), c) + lp);
    } else {
        lemma_pairs_last(s.drop_first(), c);
        assert(s.drop_first().drop_last() =~= s.drop_last().drop_first());
        assert(s.drop_first().last() == x);
        assert(s.drop_last()[0] == s[0]);
        assert(pair_pieces(s, c) =~= pair_pieces(s.drop_last(), c) + lp);
    }
}

/// The pieces of objects, the last one last.
proof fn lemma_args_last(s: Seq<OpenMath>, c: XmlCtx)
    requires
        s.len() > 0,
    ensures
        args_pieces(s, c) == args_pieces(s.drop_last(), c) + om_pieces(s.last(), c),
    decreases s.len(),
{
    if s.len() == 1 {
        assert(s.drop_first() =~= Seq::<OpenMath>::empty());
        assert(s.drop_last() =~= Seq::<OpenMath>::empty());
        assert(args_pieces(s, c) =~= args_pieces(s.drop_last(), c) + om_pieces(s.last(), c));
    } else {
        lemma_args_last(s.drop_first(), c);
        assert(s.drop_first().drop_last() =~= s.drop_last().drop_first());
        assert(s.drop_first().last() == s.last());
        assert(s.drop_last()[0] == s[0]);
        assert(args_pieces(s, c) =~= args_pieces(s.drop_last(), c) + om_pieces(s.last(), c));
    }
}

/// The pieces of objects and OMFOREIGNs, the last one last.
proof fn lemma_foreigns_last(s: Seq<OMMaybeForeign<OpenMath>>, c: XmlCtx)
    requires
        s.len() > 0,
    ensures
        foreigns_pieces(s, c) == foreigns_pieces(s.drop_last(), c) + foreign_pieces(s.last(), c),
    decreases s.len(),
{
    if s.len() == 1 {
        assert(s.drop_first() =~= Seq::<OMMaybeForeign<OpenMath>>::empty());
        assert(s.drop_last() =~= Seq::<OMMaybeForeign<OpenMath>>::empty());
        assert(foreigns_pieces(s, c) =~= foreigns_pieces(s.drop_last(), c) + foreign_pieces(
            s.last(),
            c,
        ));
    } else {
        lemma_foreigns_last(s.drop_first(), c);
        assert(s.drop_first().drop_last() =~= s.drop_last().drop_first());
        assert(s.drop_first().last() == s.last());
        assert(s.drop_last()[0] == s[0]);
        assert(foreigns_pieces(s, c) =~= foreigns_pieces(s.drop_last(), c) + foreign_pieces(
            s.last(),
            c,
        ));
    }
}

/// The pieces of bound variables, the last one last.
proof fn lemma_vars_last(s: Seq<BoundVariable>, c: XmlCtx)
    requires
        s.len() > 0,
    ensures
        vars_pieces(s, c) == vars_pieces(s.drop_last(), c) + var_pieces(s.last(), c),
    decreases s.len(),
{
    if s.len() == 1 {
        assert(s.drop_first() =~= Seq::<BoundVariable>::empty());
        assert(s.drop_last() =~= Seq::<BoundVariable>::empty());
        assert(vars_pieces(s, c) =~= vars_pieces(s.drop_last(), c) + var_pieces(s.last(), c));
    } else {
        lemma_vars_last(s.drop_first(), c);
        assert(s.drop_first().drop_last() =~= s.drop_last().drop_first());
        assert(s.drop_first().last() == s.last());
        assert(s.drop_last()[0] == s[0]);
        assert(vars_pieces(s, c) =~= vars_pieces(s.drop_last(), c) + var_pieces(s.last(), c));
    }
}

/// The contexts the writer passes on declare no cdbase where the context
/// they come from declares none.
proof fn lemma_ctx(c: XmlCtx)
    requires
        c.next_ns is None,
    ensures
        inner(c).next_ns is None,
        deep(inner(c)).next_ns is None,
        deep(c).next_ns is None,
        inner(c).current_ns == c.current_ns,
        deep(inner(c)) == (XmlCtx { indent: deeper(inner(c).indent), ..inner(c) }),
        deep(c) == (XmlCtx { indent: deeper(c.indent), ..c }),
{
}

/// The text of the pieces of the OMATTR around an object, given the text of
/// its pairs and of the object.
#[verifier::spinoff_prover]
proof fn lemma_text_omattr(a: Seq<Attr<OMMaybeForeign<OpenMath>>>, inner_pieces: Seq<XmlPiece>, inner_text: Seq<char>, c: XmlCtx)
    requires
        c.next_ns is None,
        text_of(pair_pieces(a, deep(inner(c)))) == xml_attrs(a, deep(inner(c))),
        text_of(inner_pieces) == inner_text,
    ensures
        text_of(
            ws_p(c.indent) + seq![open_p("OMATTR"@)] + ws_p(inner(c).indent) + seq![open_p("OMATP"@)]
                + pair_pieces(a, deep(inner(c))) + ws_p(inner(c).indent) + seq![
                XmlPiece::Close("OMATP"@),
            ] + inner_pieces + ws_p(opened(c).indent) + seq![XmlPiece::Close("OMATTR"@)],
        ) == omattr_open(a, c) + inner_text + close_tag("OMATTR"@, c),
{
    let ci = inner(c);
    lemma_text_concat_all();
    lemma_text_ws(c.indent);
    lemma_text_ws(ci.indent);
    lemma_text_ws(opened(c).indent);
    lemma_text_open("OMATTR"@);
    lemma_text_open("OMATP"@);
    lemma_text_close("OMATP"@);
    lemma_text_close("OMATTR"@);
    lemma_tags("OMATTR"@, c);
    lemma_literals();
    let x = omattr_open(a, c) + inner_text;
    lemma_assoc(x, ind(opened(c).indent), text_of(seq![XmlPiece::Close("OMATTR"@)]));
}

/// The text of the pieces of an object is what the writer writes.
proof fn lemma_text_om(o: OpenMath, c: XmlCtx)
    requires
        c.next_ns is None,
    ensures
        text_of(om_pieces(o, c)) == xml_om(o, c),
    decreases o, 2int,
{
    lemma_ctx(c);
    lemma_text_plain(o, c);
    lemma_text_plain(o, inner(c));
    let a = attributes_of(o)@;
    if a.len() > 0 {
        lemma_text_pairs(a, deep(inner(c)));
        lemma_text_omattr(a, plain_pieces(o, inner(c)), xml_plain(o, inner(c)), c);
    }
}

/// The text of the pieces of what an object holds.
#[verifier::spinoff_prover]
#[verifier::rlimit(60)]
proof fn lemma_text_plain(o: OpenMath, c: XmlCtx)
    requires
        c.next_ns is None,
    ensures
        text_of(plain_pieces(o, c)) == xml_plain(o, c),
    decreases o, 1int,
{
    lemma_ctx(c);
    lemma_text_concat_all();
    lemma_literals();
    lemma_text_ws(c.indent);
    lemma_text_ws(opened(c).indent);
    let ci = inner(c);
    let w = ind(c.indent);
    match o {
        OpenMath::OMI { int: i, .. } => {
            lemma_text_open("OMI"@);
            lemma_text_close("OMI"@);
            lemma_text_single(XmlPiece::Text(int_text(i@)));
        },
        OpenMath::OMF { float, .. } => {
            let e = XmlPiece::Empty("OMF"@, seq![("dec"@, float@)]);
            lemma_text_single(e);
            lemma_attrs_text("dec"@, float@, Seq::<(Seq<char>, Seq<char>)>::empty());
            assert(seq![("dec"@, float@)] + Seq::<(Seq<char>, Seq<char>)>::empty() =~= seq![
                ("dec"@, float@),
            ]);
            assert(w + piece_text(e) =~= xml_plain(o, c));
        },
        OpenMath::OMSTR { string, .. } => {
            lemma_text_open("OMSTR"@);
            lemma_text_close("OMSTR"@);
            lemma_text_p(text_escaped(string@));
        },
        OpenMath::OMB { bytes, .. } => {
            lemma_text_open("OMB"@);
            lemma_text_close("OMB"@);
            lemma_text_p(encode(bytes@).map_values(|b: u8| b as char));
        },
        OpenMath::OMV { name, .. } => {
            lemma_text_omv(name@, c);
        },
        OpenMath::OMS { cd, name, cdbase, .. } => {
            lemma_text_oms(opt_view(cdbase), cd@, name@, c);
        },
        OpenMath::OMA { applicant, arguments, .. } => {
            lemma_tags("OMA"@, c);
            lemma_text_om(*applicant, ci);
            lemma_text_args(arguments@, ci);
            let x = open_tag("OMA"@, c) + xml_om(*applicant, ci) + xml_args(arguments@, ci);
            lemma_assoc(x, ind(opened(c).indent), text_of(seq![XmlPiece::Close("OMA"@)]));
        },
        OpenMath::OME { cd, name, cdbase, arguments, .. } => {
            lemma_tags("OME"@, c);
            lemma_text_oms(opt_view(cdbase), cd@, name@, ci);
            lemma_text_foreigns(arguments@, ci);
            let x = open_tag("OME"@, c) + xml_oms(opt_view(cdbase), cd@, name@, ci) + xml_foreigns(
                arguments@,
                ci,
            );
            lemma_assoc(x, ind(opened(c).indent), text_of(seq![XmlPiece::Close("OME"@)]));
        },
        OpenMath::OMBIND { binder, variables, object, .. } => {
            lemma_tags("OMBIND"@, c);
            lemma_text_om(*binder, ci);
            lemma_text_om(*object, ci);
            lemma_text_bvar(variables@, ci);
            let x = open_tag("OMBIND"@, c) + xml_om(*binder, ci) + xml_ombvar(variables@, ci)
                + xml_om(*object, ci);
            lemma_assoc(x, ind(opened(c).indent), text_of(seq![XmlPiece::Close("OMBIND"@)]));
        },
    }
}

/// The text of the pieces of an object or OMFOREIGN.
#[verifier::spinoff_prover]
/// The text of the pieces between the tags of an OMFOREIGN.
pub(crate) proof fn lemma_text_body(v: Seq<char>, c: XmlCtx)
    ensures
        text_of(foreign_body(v, c)) == foreign_text(v, c),
        foreign_text(v, c) == foreign_lead(c) + v + foreign_trail(c),
{
    lemma_text_concat_all();
    lemma_text_p(foreign_text(v, c));
    lemma_text_p(foreign_lead(c));
    lemma_text_p(foreign_trail(c));
    if c.indent is Some {
        assert(foreign_text(v, c) =~= foreign_lead(c) + v + foreign_trail(c));
    } else {
        assert(foreign_text(v, c) =~= foreign_lead(c) + v + foreign_trail(c));
    }
    lemma_markup(v);
    match markup(v) {
        Some(ps) => {
            assert(text_of(ps) == v);
        },
        None => {},
    }
}

#[verifier::spinoff_prover]
#[verifier::rlimit(40)]
proof fn lemma_text_foreign(f: OMMaybeForeign<OpenMath>, c: XmlCtx)
    requires
        c.next_ns is None,
    ensures
        text_of(foreign_pieces(f, c)) == xml_foreign(f, c),
    decreases f, 3int,
{
    match f {
        OMMaybeForeign::OM(o) => lemma_text_om(o, c),
        OMMaybeForeign::Foreign { encoding, value } => {
            lemma_text_concat_all();
            lemma_literals();
            lemma_text_ws(c.indent);
            lemma_text_close("OMFOREIGN"@);
            let ft = foreign_text(value@, c);
            lemma_text_p(ft);
            lemma_text_body(value@, c);
            let enc = match encoding {
                Some(e) => seq![("encoding"@, escaped(e@))],
                None => Seq::<(Seq<char>, Seq<char>)>::empty(),
            };
            let op = XmlPiece::Open("OMFOREIGN"@, enc);
            lemma_text_single(op);
            match encoding {
                Some(e) => {
                    lemma_attrs_text("encoding"@, escaped(e@), Seq::<(Seq<char>, Seq<char>)>::empty());
                    assert(seq![("encoding"@, escaped(e@))] + Seq::<(Seq<char>, Seq<char>)>::empty()
                        =~= enc);
                },
                None => {
                    assert(attrs_text(enc) == Seq::<char>::empty());
                },
            }
            assert(ind(c.indent) + piece_text(op) + ft + (seq!['<', '/'] + "OMFOREIGN"@ + seq!['>'])
                =~= xml_foreign(f, c));
            assert(text_of(foreign_body(value@, c)) == ft);
        },
    }
}

/// The text of the pieces of key-value pairs.
proof fn lemma_text_pairs(s: Seq<Attr<OMMaybeForeign<OpenMath>>>, c: XmlCtx)
    requires
        c.next_ns is None,
    ensures
        text_of(pair_pieces(s, c)) == xml_attrs(s, c),
    decreases s, 2int,
{
    lemma_text_concat_all();
    if s.len() > 0 {
        let x = s.last();
        lemma_pairs_last(s, c);
        lemma_text_pairs(s.drop_last(), c);
        lemma_text_oms(opt_view(x.cdbase), x.cd@, x.name@, c);
        lemma_text_foreign(x.value, c);
        let a = xml_attrs(s.drop_last(), c);
        let b = xml_oms(opt_view(x.cdbase), x.cd@, x.name@, c);
        lemma_assoc(a, b, xml_foreign(x.value, c));
    } else {
        assert(text_of(pair_pieces(s, c)) == Seq::<char>::empty());
    }
}

/// The text of the pieces of objects.
proof fn lemma_text_args(s: Seq<OpenMath>, c: XmlCtx)
    requires
        c.next_ns is None,
    ensures
        text_of(args_pieces(s, c)) == xml_args(s, c),
    decreases s, 2int,
{
    lemma_text_concat_all();
    if s.len() > 0 {
        lemma_args_last(s, c);
        lemma_text_args(s.drop_last(), c);
        lemma_text_om(s.last(), c);
    } else {
        assert(text_of(args_pieces(s, c)) == Seq::<char>::empty());
    }
}

/// The text of the pieces of objects and OMFOREIGNs.
proof fn lemma_text_foreigns(s: Seq<OMMaybeForeign<OpenMath>>, c: XmlCtx)
    requires
        c.next_ns is None,
    ensures
        text_of(foreigns_pieces(s, c)) == xml_foreigns(s, c),
    decreases s, 2int,
{
    lemma_text_concat_all();
    if s.len() > 0 {
        lemma_foreigns_last(s, c);
        lemma_text_foreigns(s.drop_last(), c);
        lemma_text_foreign(s.last(), c);
    } else {
        assert(text_of(foreigns_pieces(s, c)) == Seq::<char>::empty());
    }
}

/// The text of the pieces of an OMBVAR.
#[verifier::spinoff_prover]
proof fn lemma_text_bvar(s: Seq<BoundVariable>, c: XmlCtx)
    requires
        c.next_ns is None,
    ensures
        text_of(bvar_pieces(s, c)) == xml_ombvar(s, c),
    decreases s, 3int,
{
    lemma_ctx(c);
    lemma_text_concat_all();
    lemma_text_ws(c.indent);
    reveal_strlit("<OMBVAR");
    reveal_strlit(">");
    reveal_strlit("/>");
    reveal_strlit("</OMBVAR>");
    reveal_strlit("OMBVAR");
    let w = ind(c.indent);
    let n = "OMBVAR"@;
    assert("<OMBVAR"@ =~= seq!['<'] + n);
    assert(">"@ =~= seq!['>']);
    assert("/>"@ =~= seq!['/', '>']);
    assert("</OMBVAR>"@ =~= seq!['<', '/'] + n + seq!['>']);
    if s.len() > 0 {
        lemma_text_vars(s, deep(c));
        lemma_text_open(n);
        lemma_text_close(n);
        let v = xml_vars(s, deep(c));
        assert(text_of(bvar_pieces(s, c)) == w + (seq!['<'] + n + seq!['>'] + v + w + (seq![
            '<',
            '/',
        ] + n + seq!['>'])));
        lemma_bvar_shape(w, n, v);
    } else {
        let e = XmlPiece::Empty(n, Seq::<(Seq<char>, Seq<char>)>::empty());
        lemma_text_single(e);
        assert(attrs_text(Seq::<(Seq<char>, Seq<char>)>::empty()) == Seq::<char>::empty());
        assert(w + piece_text(e) =~= xml_ombvar(s, c));
    }
}

/// The two ways the text of an OMBVAR is put together.
proof fn lemma_bvar_shape(w: Seq<char>, n: Seq<char>, v: Seq<char>)
    ensures
        w + (seq!['<'] + n + seq!['>'] + v + w + (seq!['<', '/'] + n + seq!['>'])) == w + (seq![
            '<',
        ] + n) + (seq!['>'] + v + w + (seq!['<', '/'] + n + seq!['>'])),
{
    assert(w + (seq!['<'] + n + seq!['>'] + v + w + (seq!['<', '/'] + n + seq!['>'])) =~= w + (
    seq!['<'] + n) + (seq!['>'] + v + w + (seq!['<', '/'] + n + seq!['>'])));
}

/// The text of the pieces of bound variables.
proof fn lemma_text_vars(s: Seq<BoundVariable>, c: XmlCtx)
    requires
        c.next_ns is None,
    ensures
        text_of(vars_pieces(s, c)) == xml_vars(s, c),
    decreases s, 2int,
{
    lemma_text_concat_all();
    if s.len() > 0 {
        lemma_vars_last(s, c);
        lemma_text_vars(s.drop_last(), c);
        lemma_text_var(s.last(), c);
    } else {
        assert(text_of(vars_pieces(s, c)) == Seq::<char>::empty());
    }
}

/// The text of the pieces of a bound variable.
proof fn lemma_text_var(v: BoundVariable, c: XmlCtx)
    requires
        c.next_ns is None,
    ensures
        text_of(var_pieces(v, c)) == xml_var(v, c),
    decreases v, 2int,
{
    lemma_ctx(c);
    lemma_text_omv(v.name@, c);
    lemma_text_omv(v.name@, inner(c));
    let a = v.attributes@;
    if a.len() > 0 {
        lemma_text_pairs(a, deep(inner(c)));
        lemma_text_omattr(
            a,
            ws_p(inner(c).indent) + seq![omv_p(v.name@)],
            xml_omv(v.name@, inner(c)),
            c,
        );
    }
}


/// The XML that the writer writes of an object, in a context that declares
/// no cdbase, pretty-printed or not, is the text of the object's pieces one
/// after the other.
pub proof fn lemma_xml_written(o: OpenMath, c: XmlCtx)
    requires
        c.next_ns is None,
    ensures
        text_of(om_pieces(o, c)) == xml_om(o, c),
{
    lemma_text_om(o, c);
}

/// The attributes of the OMOBJ tag: the version and, where it is declared,
/// the namespace.
pub open spec fn omobj_pattrs(insert_namespace: bool) -> Seq<(Seq<char>, Seq<char>)> {
    seq![("version"@, "2.0"@)] + if insert_namespace {
        seq![("xmlns"@, XML_NAMESPACE@)]
    } else {
        seq![]
    }
}

/// The pieces of the OMOBJ around an object, as the writer writes it without
/// a cdbase: the start tag, the object, a line break where pretty-printing,
/// the end tag.
pub open spec fn omobj_pieces(o: OpenMath, pretty: bool, insert_namespace: bool) -> Seq<XmlPiece> {
    seq![XmlPiece::Open("OMOBJ"@, omobj_pattrs(insert_namespace))] + om_pieces(
        o,
        obj_ctx(pretty, OPENMATH_BASE_URI@),
    ) + (if pretty {
        seq![XmlPiece::Text(seq!['\n'])]
    } else {
        seq![]
    }) + seq![XmlPiece::Close("OMOBJ"@)]
}

/// The text of the start tag of an OMOBJ.
proof fn lemma_omobj_open(insert_namespace: bool)
    ensures
        piece_text(XmlPiece::Open("OMOBJ"@, omobj_pattrs(insert_namespace))) == "<OMOBJ version=\"2.0\""@
            + (if insert_namespace {
            " xmlns=\""@ + XML_NAMESPACE@ + seq!['"']
        } else {
            seq![]
        }) + seq!['>'],
{
    reveal_strlit("<OMOBJ version=\"2.0\"");
    reveal_strlit(" xmlns=\"");
    reveal_strlit("OMOBJ");
    reveal_strlit("version");
    reveal_strlit("2.0");
    reveal_strlit("xmlns");
    let ns = if insert_namespace {
        seq![("xmlns"@, XML_NAMESPACE@)]
    } else {
        Seq::<(Seq<char>, Seq<char>)>::empty()
    };
    assert(omobj_pattrs(insert_namespace) == seq![("version"@, "2.0"@)] + ns);
    lemma_attrs_text("version"@, "2.0"@, ns);
    lemma_attrs_text("xmlns"@, XML_NAMESPACE@, Seq::<(Seq<char>, Seq<char>)>::empty());
    assert(seq![("xmlns"@, XML_NAMESPACE@)] + Seq::<(Seq<char>, Seq<char>)>::empty() =~= seq![
        ("xmlns"@, XML_NAMESPACE@),
    ]);
    assert(attrs_text(Seq::<(Seq<char>, Seq<char>)>::empty()) == Seq::<char>::empty());
    if insert_namespace {
        assert(piece_text(XmlPiece::Open("OMOBJ"@, omobj_pattrs(insert_namespace))) =~= "<OMOBJ version=\"2.0\""@
            + (" xmlns=\""@ + XML_NAMESPACE@ + seq!['"']) + seq!['>']);
    } else {
        assert(piece_text(XmlPiece::Open("OMOBJ"@, omobj_pattrs(insert_namespace))) =~= "<OMOBJ version=\"2.0\""@
            + Seq::<char>::empty() + seq!['>']);
    }
}

/// The text of what follows the object of an OMOBJ.
proof fn lemma_omobj_close(pretty: bool)
    ensures
        text_of(
            (if pretty {
                seq![XmlPiece::Text(seq!['\n'])]
            } else {
                seq![]
            }) + seq![XmlPiece::Close("OMOBJ"@)],
        ) == if pretty {
            "\n</OMOBJ>"@
        } else {
            "</OMOBJ>"@
        },
{
    reveal_strlit("</OMOBJ>");
    reveal_strlit("\n</OMOBJ>");
    reveal_strlit("OMOBJ");
    let nl = if pretty {
        seq![XmlPiece::Text(seq!['\n'])]
    } else {
        Seq::<XmlPiece>::empty()
    };
    lemma_text_concat(nl, seq![XmlPiece::Close("OMOBJ"@)]);
    lemma_text_close("OMOBJ"@);
    if pretty {
        lemma_text_single(XmlPiece::Text(seq!['\n']));
        assert(seq!['\n'] + (seq!['<', '/'] + "OMOBJ"@ + seq!['>']) =~= "\n</OMOBJ>"@);
    } else {
        assert(text_of(nl) =~= Seq::<char>::empty());
        assert(Seq::<char>::empty() + (seq!['<', '/'] + "OMOBJ"@ + seq!['>']) =~= "</OMOBJ>"@);
    }
}

/// The XML that the writer writes of the OMOBJ around an object, without a
/// cdbase, pretty-printed or not, is the text of its pieces one after the
/// other.
pub proof fn lemma_xml_omobj_written(o: OpenMath, pretty: bool, insert_namespace: bool)
    ensures
        text_of(omobj_pieces(o, pretty, insert_namespace)) == xml_omobj(o, pretty, insert_namespace, None),
{
    let c = obj_ctx(pretty, OPENMATH_BASE_URI@);
    lemma_text_om(o, c);
    let open = seq![XmlPiece::Open("OMOBJ"@, omobj_pattrs(insert_namespace))];
    let p = om_pieces(o, c);
    let nl = if pretty {
        seq![XmlPiece::Text(seq!['\n'])]
    } else {
        Seq::<XmlPiece>::empty()
    };
    let close = seq![XmlPiece::Close("OMOBJ"@)];
    assert(omobj_pieces(o, pretty, insert_namespace) =~= (open + p) + (nl + close));
    lemma_text_concat(open + p, nl + close);
    lemma_text_concat(open, p);
    lemma_text_single(XmlPiece::Open("OMOBJ"@, omobj_pattrs(insert_namespace)));
    lemma_omobj_open(insert_namespace);
    lemma_omobj_close(pretty);
    let a = "<OMOBJ version=\"2.0\""@;
    let n = if insert_namespace {
        " xmlns=\""@ + XML_NAMESPACE@ + seq!['"']
    } else {
        seq![]
    };
    let z = if pretty {
        "\n</OMOBJ>"@
    } else {
        "</OMOBJ>"@
    };
    assert(a + n + seq!['>'] + xml_om(o, c) + z =~= a + n + Seq::<char>::empty() + seq!['>'] + xml_om(o, c) + z);
}

} // verus!
