//! Reading back what the XML writer writes: for every object that reads
//! back, the reader's grammar turns the reads of the pieces of its XML (see
//! the sibling module `written`) into the object written, pretty-printed or
//! not.
use std::ops::ControlFlow;
use vstd::prelude::*;
use vstd::utf8::{
    encode_scalar, encode_utf8, has_width_3_encoding, last_continuation_byte, leading_byte_width_1,
    leading_byte_width_2, leading_byte_width_3, leading_byte_width_4,
};

use crate::base64::{encode, lemma_encode_shape, sextet, PAD};
use crate::de::events::{to_end, EventView, TagView, TokenView};
use crate::de::grammar::{
    adv, attr_text, bvars, ev, float_attr, get_attr, handle_next, is_hex_text, need_end, next_foreign,
    oma_args, omatp, omattr_or_var, omattr_pairs, ome_args, ome_symbol, p_omattr, p_oma, p_omb,
    p_ombind, p_ome, p_omf, p_omi, p_oms, p_omstr, p_omv, read_obj, read_om, req_attr, skip_ws, ReadErr,
    St, p_foreign_value,
};
use crate::de::written::{
    args_pieces, attrs_read, attrs_text, bvar_pieces, close_ev, deep, events_of, foreign_body,
    foreign_lead, foreign_trail,
    foreign_pieces, foreign_text, foreigns_pieces, lemma_markup, lemma_text_body, lemma_text_concat_all,
    lemma_text_single, lemma_xml_omobj_written, markup, markup_ok, markup_piece, piece_text, lemma_xml_written, om_pieces, omobj_pattrs,
    omobj_pieces, oms_p, oms_pattrs, omv_p, open_p, pair_pieces,
    piece_event, plain_pieces, text_ev, text_of, text_p, var_pieces, vars_pieces, ws_p, xattr, xtag,
    XmlPiece,
};
use crate::integer::{big_text, int_text, parse_int, IntView};
use crate::json::law::{lemma_base64_roundtrip, with_attrs};
use crate::om::{
    attr_view, attributes_of, attrs_view, foreign_view, foreigns_view, om_view, oms_view, opt_view,
    var_view, vars_view, Attr, AttrView, BoundVariable, ForeignView, OMMaybeForeign, OMView,
    OpenMath, VarView,
};
use crate::ser::xml::{
    after_ind, deeper, ind, inner, obj_ctx, opened, top_ctx, uri_cdbase, xml_om, xml_omobj, XmlCtx,
};
use crate::text::{
    all_digits, all_ws, ascii, escaped, is_ascii_ws, is_digit, is_float_text, parse_i128, utf8,
    lemma_unescape_escaped, lemma_unescape_text_escaped, text_escaped, trim_ascii, trim_end,
    trim_start,
};
use crate::{CD_BASE, OPENMATH_BASE_URI, XML_NAMESPACE};

verus! {

/// A text, as reads: one, none where it is empty.
pub open spec fn texts(s: Seq<char>) -> Seq<EventView> {
    if s.len() == 0 {
        seq![]
    } else {
        seq![text_ev(s)]
    }
}

/// The attributes of the OMS tag of a symbol, as the reader hands them out.
pub open spec fn oms_attrs(cb: Option<Seq<char>>, cd: Seq<char>, name: Seq<char>, cur: Seq<char>) -> Seq<Option<(Seq<u8>, Seq<u8>)>> {
    match uri_cdbase(cb, cur) {
        Some(b) => seq![xattr("cdbase"@, escaped(b)), xattr("cd"@, escaped(cd)), xattr("name"@, escaped(name))],
        None => seq![xattr("cd"@, escaped(cd)), xattr("name"@, escaped(name))],
    }
}

/// The reads from index `k` on are the events `e`.
pub open spec fn reads_at(t: Seq<TokenView>, k: int, e: Seq<EventView>) -> bool {
    &&& 0 <= k
    &&& k + e.len() <= t.len()
    &&& forall|j: int| 0 <= j < e.len() ==> t[k + j].event == Some(#[trigger] e[j])
}

/// Where reading stands once the reads before index `k` were made.
pub open spec fn after(t: Seq<TokenView>, k: int) -> St {
    St { i: k, now: t[k - 1].before }
}

/// The reads of two sequences of events one after the other.
proof fn lemma_reads_split(t: Seq<TokenView>, k: int, a: Seq<EventView>, b: Seq<EventView>)
    requires
        reads_at(t, k, a + b),
    ensures
        reads_at(t, k, a),
        reads_at(t, k + a.len(), b),
{
    assert forall|j: int| 0 <= j < a.len() implies t[k + j].event == Some(#[trigger] a[j]) by {
        assert((a + b)[j] == a[j]);
    }
    assert forall|j: int| 0 <= j < b.len() implies t[k + a.len() + j].event == Some(
        #[trigger] b[j],
    ) by {
        assert((a + b)[a.len() + j] == b[j]);
    }
}

/// The tag names and attribute keys of OpenMath XML, byte by byte.
proof fn lemma_names()
    ensures
        ascii("OMI"@).len() == 3,
        ascii("OMI"@)[0] == 79u8,
        ascii("OMI"@)[1] == 77u8,
        ascii("OMI"@)[2] == 73u8,
        ascii("OMF"@).len() == 3,
        ascii("OMF"@)[0] == 79u8,
        ascii("OMF"@)[1] == 77u8,
        ascii("OMF"@)[2] == 70u8,
        ascii("OMB"@).len() == 3,
        ascii("OMB"@)[0] == 79u8,
        ascii("OMB"@)[1] == 77u8,
        ascii("OMB"@)[2] == 66u8,
        ascii("OMV"@).len() == 3,
        ascii("OMV"@)[0] == 79u8,
        ascii("OMV"@)[1] == 77u8,
        ascii("OMV"@)[2] == 86u8,
        ascii("OMS"@).len() == 3,
        ascii("OMS"@)[0] == 79u8,
        ascii("OMS"@)[1] == 77u8,
        ascii("OMS"@)[2] == 83u8,
        ascii("OMA"@).len() == 3,
        ascii("OMA"@)[0] == 79u8,
        ascii("OMA"@)[1] == 77u8,
        ascii("OMA"@)[2] == 65u8,
        ascii("OME"@).len() == 3,
        ascii("OME"@)[0] == 79u8,
        ascii("OME"@)[1] == 77u8,
        ascii("OME"@)[2] == 69u8,
        ascii("OMSTR"@).len() == 5,
        ascii("OMSTR"@)[0] == 79u8,
        ascii("OMSTR"@)[1] == 77u8,
        ascii("OMSTR"@)[2] == 83u8,
        ascii("OMSTR"@)[3] == 84u8,
        ascii("OMSTR"@)[4] == 82u8,
        ascii("OMBIND"@).len() == 6,
        ascii("OMBIND"@)[0] == 79u8,
        ascii("OMBIND"@)[1] == 77u8,
        ascii("OMBIND"@)[2] == 66u8,
        ascii("OMBIND"@)[3] == 73u8,
        ascii("OMBIND"@)[4] == 78u8,
        ascii("OMBIND"@)[5] == 68u8,
        ascii("OMATTR"@).len() == 6,
        ascii("OMATTR"@)[0] == 79u8,
        ascii("OMATTR"@)[1] == 77u8,
        ascii("OMATTR"@)[2] == 65u8,
        ascii("OMATTR"@)[3] == 84u8,
        ascii("OMATTR"@)[4] == 84u8,
        ascii("OMATTR"@)[5] == 82u8,
        ascii("OMATP"@).len() == 5,
        ascii("OMATP"@)[0] == 79u8,
        ascii("OMATP"@)[1] == 77u8,
        ascii("OMATP"@)[2] == 65u8,
        ascii("OMATP"@)[3] == 84u8,
        ascii("OMATP"@)[4] == 80u8,
        ascii("OMBVAR"@).len() == 6,
        ascii("OMBVAR"@)[0] == 79u8,
        ascii("OMBVAR"@)[1] == 77u8,
        ascii("OMBVAR"@)[2] == 66u8,
        ascii("OMBVAR"@)[3] == 86u8,
        ascii("OMBVAR"@)[4] == 65u8,
        ascii("OMBVAR"@)[5] == 82u8,
        ascii("OMFOREIGN"@).len() == 9,
        ascii("OMFOREIGN"@)[0] == 79u8,
        ascii("OMFOREIGN"@)[1] == 77u8,
        ascii("OMFOREIGN"@)[2] == 70u8,
        ascii("OMFOREIGN"@)[3] == 79u8,
        ascii("OMFOREIGN"@)[4] == 82u8,
        ascii("OMFOREIGN"@)[5] == 69u8,
        ascii("OMFOREIGN"@)[6] == 73u8,
        ascii("OMFOREIGN"@)[7] == 71u8,
        ascii("OMFOREIGN"@)[8] == 78u8,
        ascii("cd"@).len() == 2,
        ascii("cd"@)[0] == 99u8,
        ascii("cd"@)[1] == 100u8,
        ascii("name"@).len() == 4,
        ascii("name"@)[0] == 110u8,
        ascii("name"@)[1] == 97u8,
        ascii("name"@)[2] == 109u8,
        ascii("name"@)[3] == 101u8,
        ascii("cdbase"@).len() == 6,
        ascii("cdbase"@)[0] == 99u8,
        ascii("cdbase"@)[1] == 100u8,
        ascii("cdbase"@)[2] == 98u8,
        ascii("cdbase"@)[3] == 97u8,
        ascii("cdbase"@)[4] == 115u8,
        ascii("cdbase"@)[5] == 101u8,
        ascii("dec"@).len() == 3,
        ascii("dec"@)[0] == 100u8,
        ascii("dec"@)[1] == 101u8,
        ascii("dec"@)[2] == 99u8,
        ascii("hex"@).len() == 3,
        ascii("hex"@)[0] == 104u8,
        ascii("hex"@)[1] == 101u8,
        ascii("hex"@)[2] == 120u8,
        ascii("encoding"@).len() == 8,
        ascii("encoding"@)[0] == 101u8,
        ascii("encoding"@)[1] == 110u8,
        ascii("encoding"@)[2] == 99u8,
        ascii("encoding"@)[3] == 111u8,
        ascii("encoding"@)[4] == 100u8,
        ascii("encoding"@)[5] == 105u8,
        ascii("encoding"@)[6] == 110u8,
        ascii("encoding"@)[7] == 103u8,
        ascii("OMOBJ"@).len() == 5,
        ascii("OMOBJ"@)[0] == 79u8,
        ascii("OMOBJ"@)[1] == 77u8,
        ascii("OMOBJ"@)[2] == 79u8,
        ascii("OMOBJ"@)[3] == 66u8,
        ascii("OMOBJ"@)[4] == 74u8,
        ascii("version"@).len() == 7,
        ascii("version"@)[0] == 118u8,
        ascii("version"@)[1] == 101u8,
        ascii("version"@)[2] == 114u8,
        ascii("version"@)[3] == 115u8,
        ascii("version"@)[4] == 105u8,
        ascii("version"@)[5] == 111u8,
        ascii("version"@)[6] == 110u8,
        ascii("xmlns"@).len() == 5,
        ascii("xmlns"@)[0] == 120u8,
        ascii("xmlns"@)[1] == 109u8,
        ascii("xmlns"@)[2] == 108u8,
        ascii("xmlns"@)[3] == 110u8,
        ascii("xmlns"@)[4] == 115u8,
{
    reveal_strlit("OMI");
    reveal_strlit("OMF");
    reveal_strlit("OMB");
    reveal_strlit("OMV");
    reveal_strlit("OMS");
    reveal_strlit("OMA");
    reveal_strlit("OME");
    reveal_strlit("OMSTR");
    reveal_strlit("OMBIND");
    reveal_strlit("OMATTR");
    reveal_strlit("OMATP");
    reveal_strlit("OMBVAR");
    reveal_strlit("OMFOREIGN");
    reveal_strlit("cd");
    reveal_strlit("name");
    reveal_strlit("cdbase");
    reveal_strlit("dec");
    reveal_strlit("hex");
    reveal_strlit("encoding");
    assert(ascii("OMI"@) =~= seq![79u8, 77u8, 73u8]);
    assert(ascii("OMF"@) =~= seq![79u8, 77u8, 70u8]);
    assert(ascii("OMB"@) =~= seq![79u8, 77u8, 66u8]);
    assert(ascii("OMV"@) =~= seq![79u8, 77u8, 86u8]);
    assert(ascii("OMS"@) =~= seq![79u8, 77u8, 83u8]);
    assert(ascii("OMA"@) =~= seq![79u8, 77u8, 65u8]);
    assert(ascii("OME"@) =~= seq![79u8, 77u8, 69u8]);
    assert(ascii("OMSTR"@) =~= seq![79u8, 77u8, 83u8, 84u8, 82u8]);
    assert(ascii("OMBIND"@) =~= seq![79u8, 77u8, 66u8, 73u8, 78u8, 68u8]);
    assert(ascii("OMATTR"@) =~= seq![79u8, 77u8, 65u8, 84u8, 84u8, 82u8]);
    assert(ascii("OMATP"@) =~= seq![79u8, 77u8, 65u8, 84u8, 80u8]);
    assert(ascii("OMBVAR"@) =~= seq![79u8, 77u8, 66u8, 86u8, 65u8, 82u8]);
    assert(ascii("OMFOREIGN"@) =~= seq![79u8, 77u8, 70u8, 79u8, 82u8, 69u8, 73u8, 71u8, 78u8]);
    assert(ascii("cd"@) =~= seq![99u8, 100u8]);
    assert(ascii("name"@) =~= seq![110u8, 97u8, 109u8, 101u8]);
    assert(ascii("cdbase"@) =~= seq![99u8, 100u8, 98u8, 97u8, 115u8, 101u8]);
    assert(ascii("dec"@) =~= seq![100u8, 101u8, 99u8]);
    assert(ascii("hex"@) =~= seq![104u8, 101u8, 120u8]);
    assert(ascii("encoding"@) =~= seq![101u8, 110u8, 99u8, 111u8, 100u8, 105u8, 110u8, 103u8]);
    reveal_strlit("OMOBJ");
    reveal_strlit("version");
    reveal_strlit("xmlns");
    assert(ascii("OMOBJ"@) =~= seq![79u8, 77u8, 79u8, 66u8, 74u8]);
    assert(ascii("version"@) =~= seq![118u8, 101u8, 114u8, 115u8, 105u8, 111u8, 110u8]);
    assert(ascii("xmlns"@) =~= seq![120u8, 109u8, 108u8, 110u8, 115u8]);
}

/// A text reads back from its UTF-8 bytes.
proof fn lemma_utf8(s: Seq<char>)
    ensures
        utf8(encode_utf8(s)) == Some(s),
{
    vstd::utf8::encode_utf8_valid_utf8(s);
    vstd::utf8::encode_utf8_decode_utf8(s);
}

/// A text whose first character is a visible ASCII character is not all
/// whitespace in UTF-8.
proof fn lemma_not_ws(s: Seq<char>)
    requires
        s.len() > 0,
        0x21 <= (s[0] as u32) < 0x80,
    ensures
        !all_ws(encode_utf8(s)),
{
    let c = s[0] as u32;
    assert(encode_utf8(s) == encode_scalar(c) + encode_utf8(s.drop_first()));
    assert(encode_scalar(c) == seq![leading_byte_width_1(c)]);
    assert(c as u8 == leading_byte_width_1(c)) by (bit_vector)
        requires
            c < 0x80,
    ;
    assert(encode_utf8(s)[0] == c as u8);
    assert(0x21 <= c as u8) by (bit_vector)
        requires
            0x21 <= c < 0x80,
    ;
    assert(!is_ascii_ws(encode_utf8(s)[0]));
}


/// Whether an object reads back from its XML, written and read with `cur`
/// as the cdbase in effect: its attributes and what it holds do.
pub open spec fn xml_ok(o: OpenMath, cur: Seq<char>) -> bool
    decreases o, 1int,
{
    xpairs_ok(attributes_of(o)@, cur) && xplain_ok(o, cur)
}

/// What an object holds reads back: integers are in the form they are read
/// in, floats are float texts, symbols declare their cdbase, error symbols
/// declare none or one other than `cur`, and the objects and OMFOREIGN
/// values inside read back.
pub open spec fn xplain_ok(o: OpenMath, cur: Seq<char>) -> bool
    decreases o, 0int,
{
    match o {
        OpenMath::OMI { int: i, .. } => parse_int(int_text(i@)) == Some(i@),
        OpenMath::OMF { float, .. } => is_float_text(float@),
        OpenMath::OMSTR { .. } => true,
        OpenMath::OMB { .. } => true,
        OpenMath::OMV { .. } => true,
        OpenMath::OMS { cdbase, .. } => cdbase is Some,
        OpenMath::OMA { applicant, arguments, .. } => xml_ok(*applicant, cur) && xargs_ok(
            arguments@,
            cur,
        ),
        OpenMath::OME { cdbase, arguments, .. } => opt_view(cdbase) != Some(cur) && xforeigns_ok(
            arguments@,
            cur,
        ),
        OpenMath::OMBIND { binder, variables, object, .. } => xml_ok(*binder, cur) && xvars_ok(
            variables@,
            cur,
        ) && xml_ok(*object, cur),
    }
}

/// An object or OMFOREIGN that reads back.
pub open spec fn xforeign_ok(f: OMMaybeForeign<OpenMath>, cur: Seq<char>) -> bool
    decreases f, 1int,
{
    match f {
        OMMaybeForeign::OM(o) => xml_ok(o, cur),
        OMMaybeForeign::Foreign { value, .. } => foreign_value_ok(value@),
    }
}

/// A character other than ASCII whitespace, which the reader's trimming
/// keeps.
pub open spec fn kept_char(c: char) -> bool {
    let u = c as u32;
    !(u == 32 || u == 9 || u == 10 || u == 12 || u == 13)
}

/// An OMFOREIGN value that is character data (no `<`) and, where it is not
/// empty, starts and ends with a character other than ASCII whitespace, so
/// that the reader's trimming takes off the writer's layout and nothing more.
pub open spec fn char_data(v: Seq<char>) -> bool {
    &&& v.len() > 0 ==> kept_char(v[0]) && kept_char(v.last())
    &&& forall|k: int| 0 <= k < v.len() ==> #[trigger] v[k] != '<'
}

/// An OMFOREIGN value that reads back: character data as above, or markup
/// ([`markup`]).
pub open spec fn foreign_value_ok(v: Seq<char>) -> bool {
    char_data(v) || markup(v) is Some
}

/// The bytes of the input that a read spans where the read is a text or a
/// tag without attributes: the text's bytes, or the tag written plainly.
pub open spec fn plain_bytes(e: EventView) -> Option<Seq<u8>> {
    match e {
        EventView::Text(b) => Some(b),
        EventView::Start(g) => if g.attrs.len() == 0 {
            Some(seq![60u8] + g.name + seq![62u8])
        } else {
            None
        },
        EventView::Empty(g) => if g.attrs.len() == 0 {
            Some(seq![60u8] + g.name + seq![47u8, 62u8])
        } else {
            None
        },
        EventView::End(n) => Some(seq![60u8, 47u8] + n + seq![62u8]),
        _ => None,
    }
}

/// Every read stands within the input, and every text read and every read of
/// a tag without attributes spans in the input exactly its bytes
/// ([`plain_bytes`]).
#[verifier::opaque]
pub open spec fn reads_span(t: Seq<TokenView>, inp: Seq<u8>) -> bool {
    &&& forall|j: int| 0 <= j < t.len() ==> #[trigger] t[j].before <= inp.len()
    &&& forall|j: int|
        0 <= j < t.len() - 1 ==> match #[trigger] t[j].event {
            Some(e) => match plain_bytes(e) {
                Some(b) => t[j].before <= t[j + 1].before <= inp.len() && inp.subrange(
                    t[j].before as int,
                    t[j + 1].before as int,
                ) == b,
                None => true,
            },
            None => true,
        }
}

/// Whether `Reader::read_to_end` reads past a read while it looks for the end
/// tag named `name`, at depth zero.
pub open spec fn passes(e: EventView, name: Seq<u8>) -> bool {
    match e {
        EventView::Start(g) => g.name != name,
        EventView::End(n) => n != name,
        EventView::Text(_) => true,
        EventView::Empty(_) => true,
        _ => false,
    }
}

/// A piece whose read spans its text and is passed over while looking for
/// the end tag named `name`.
pub open spec fn plain_piece(p: XmlPiece, name: Seq<u8>) -> bool {
    &&& plain_bytes(piece_event(p)) == Some(encode_utf8(piece_text(p)))
    &&& passes(piece_event(p), name)
}

/// The bytes of `<`, `/` and `>`.
proof fn lemma_utf8_marks()
    ensures
        encode_utf8(seq!['<']) == seq![60u8],
        encode_utf8(seq!['<', '/']) == seq![60u8, 47u8],
        encode_utf8(seq!['/', '>']) == seq![47u8, 62u8],
        encode_utf8(seq!['>']) == seq![62u8],
{
    lemma_utf8_ascii_char('<');
    lemma_utf8_ascii_char('/');
    lemma_utf8_ascii_char('>');
    assert(('<' as u32 as u8) == 60u8);
    assert(('/' as u32 as u8) == 47u8);
    assert(('>' as u32 as u8) == 62u8);
    lemma_utf8_concat(seq!['<'], seq!['/']);
    lemma_utf8_concat(seq!['/'], seq!['>']);
    assert(seq!['<'] + seq!['/'] =~= seq!['<', '/']);
    assert(seq!['/'] + seq!['>'] =~= seq!['/', '>']);
    assert(seq![60u8] + seq![47u8] =~= seq![60u8, 47u8]);
    assert(seq![47u8] + seq![62u8] =~= seq![47u8, 62u8]);
}

/// A text piece, or a piece of OMFOREIGN markup, spans its text and is passed
/// over while looking for the end of the OMFOREIGN.
proof fn lemma_plain_piece(p: XmlPiece)
    requires
        p is Text || markup_piece(p),
    ensures
        plain_piece(p, ascii("OMFOREIGN"@)),
{
    let empty = Seq::<(Seq<char>, Seq<char>)>::empty();
    match p {
        XmlPiece::Text(_) => {},
        XmlPiece::Open(n, a) => {
            assert(a =~= empty);
            assert(attrs_read(a).len() == 0);
            assert(attrs_text(a) =~= Seq::<char>::empty());
            lemma_utf8_marks();
            assert(piece_text(p) =~= seq!['<'] + n + seq!['>']);
            lemma_utf8_concat(seq!['<'] + n, seq!['>']);
            lemma_utf8_concat(seq!['<'], n);
        },
        XmlPiece::Empty(n, a) => {
            assert(a =~= empty);
            assert(attrs_read(a).len() == 0);
            assert(attrs_text(a) =~= Seq::<char>::empty());
            lemma_utf8_marks();
            assert(piece_text(p) =~= seq!['<'] + n + seq!['/', '>']);
            lemma_utf8_concat(seq!['<'] + n, seq!['/', '>']);
            lemma_utf8_concat(seq!['<'], n);
        },
        XmlPiece::Close(n) => {
            lemma_utf8_marks();
            lemma_utf8_concat(seq!['<', '/'] + n, seq!['>']);
            lemma_utf8_concat(seq!['<', '/'], n);
        },
    }
}

/// The first character of OMFOREIGN markup is `<`, its last `>`.
proof fn lemma_markup_ends(ps: Seq<XmlPiece>)
    requires
        markup_ok(ps),
    ensures
        text_of(ps).len() > 0,
        text_of(ps)[0] == '<',
        text_of(ps).last() == '>',
{
    lemma_text_concat_all();
    let p = ps[0];
    let l = ps.last();
    assert(ps =~= seq![p] + ps.drop_first());
    assert(ps =~= ps.drop_last() + seq![l]);
    lemma_text_single(p);
    lemma_text_single(l);
    assert(piece_text(p).len() > 0 && piece_text(p)[0] == '<');
    assert(piece_text(l).len() > 0 && piece_text(l).last() == '>');
    assert(text_of(ps) == piece_text(p) + text_of(ps.drop_first()));
    assert(text_of(ps) == text_of(ps.drop_last()) + piece_text(l));
}

/// The pieces between the tags of an OMFOREIGN whose value reads back are
/// texts and pieces of markup.
proof fn lemma_body_pieces(v: Seq<char>, c: XmlCtx)
    ensures
        forall|k: int|
            0 <= k < foreign_body(v, c).len() ==> (#[trigger] foreign_body(v, c)[k] is Text
                || markup_piece(foreign_body(v, c)[k])),
{
    let b = foreign_body(v, c);
    lemma_markup(v);
    match markup(v) {
        Some(ps) => {
            let a = text_p(foreign_lead(c));
            let z = text_p(foreign_trail(c));
            assert(markup_ok(ps));
            assert forall|k: int| 0 <= k < b.len() implies (#[trigger] b[k] is Text || markup_piece(
                b[k],
            )) by {
                if k < a.len() {
                    assert(b[k] == a[k]);
                } else if k < a.len() + ps.len() {
                    assert(b[k] == ps[k - a.len()]);
                } else {
                    assert(b[k] == z[k - a.len() - ps.len()]);
                }
            }
        },
        None => {},
    }
}

/// `Reader::read_to_end` reads past pieces that it passes over.
proof fn lemma_to_end_past(u: Seq<TokenView>, k: int, ps: Seq<XmlPiece>, name: Seq<u8>)
    requires
        0 <= k,
        k + ps.len() <= u.len(),
        forall|j: int| 0 <= j < ps.len() ==> u[k + j].event == Some(piece_event(#[trigger] ps[j])),
        forall|j: int| 0 <= j < ps.len() ==> plain_piece(#[trigger] ps[j], name),
    ensures
        to_end(u, k, name, 0) == to_end(u, k + ps.len(), name, 0),
    decreases ps.len(),
{
    if ps.len() > 0 {
        assert(u[k + 0].event == Some(piece_event(ps[0])));
        assert(plain_piece(ps[0], name));
        assert(to_end(u, k, name, 0) == to_end(u, k + 1, name, 0));
        let r = ps.drop_first();
        assert forall|j: int| 0 <= j < r.len() implies u[k + 1 + j].event == Some(
            piece_event(#[trigger] r[j]),
        ) by {
            assert(r[j] == ps[j + 1]);
            assert(u[k + (j + 1)].event == Some(piece_event(ps[j + 1])));
        }
        assert forall|j: int| 0 <= j < r.len() implies plain_piece(#[trigger] r[j], name) by {
            assert(r[j] == ps[j + 1]);
        }
        lemma_to_end_past(u, k + 1, r, name);
    }
}

/// The input that the reads of pieces span is the UTF-8 of their text.
proof fn lemma_span(t: Seq<TokenView>, inp: Seq<u8>, k: int, ps: Seq<XmlPiece>, name: Seq<u8>)
    requires
        reads_span(t, inp),
        0 <= k,
        ps.len() > 0,
        k + ps.len() < t.len(),
        forall|j: int| 0 <= j < ps.len() ==> t[k + j].event == Some(piece_event(#[trigger] ps[j])),
        forall|j: int| 0 <= j < ps.len() ==> plain_piece(#[trigger] ps[j], name),
    ensures
        t[k].before <= t[k + ps.len()].before <= inp.len(),
        inp.subrange(t[k].before as int, t[k + ps.len()].before as int) == encode_utf8(text_of(ps)),
    decreases ps.len(),
{
    reveal(reads_span);
    let p = ps[0];
    assert(t[k + 0].event == Some(piece_event(p)));
    assert(plain_piece(p, name));
    assert(t[k].before <= t[k + 1].before <= inp.len());
    let b0 = inp.subrange(t[k].before as int, t[k + 1].before as int);
    assert(b0 == encode_utf8(piece_text(p)));
    let r = ps.drop_first();
    if r.len() == 0 {
        assert(text_of(r) =~= Seq::<char>::empty());
        assert(text_of(ps) =~= piece_text(p));
    } else {
        assert forall|j: int| 0 <= j < r.len() implies t[k + 1 + j].event == Some(
            piece_event(#[trigger] r[j]),
        ) by {
            assert(r[j] == ps[j + 1]);
            assert(t[k + (j + 1)].event == Some(piece_event(ps[j + 1])));
        }
        assert forall|j: int| 0 <= j < r.len() implies plain_piece(#[trigger] r[j], name) by {
            assert(r[j] == ps[j + 1]);
        }
        lemma_span(t, inp, k + 1, r, name);
        let b1 = inp.subrange(t[k + 1].before as int, t[k + 1 + r.len()].before as int);
        assert(k + 1 + r.len() == k + ps.len());
        assert(inp.subrange(t[k].before as int, t[k + ps.len()].before as int) =~= b0 + b1);
        assert(text_of(ps) == piece_text(p) + text_of(r));
        lemma_utf8_concat(piece_text(p), text_of(r));
    }
}

/// The value of an OMFOREIGN reads back from the reads between its tags; the
/// reader goes on after its end tag.
#[verifier::spinoff_prover]
proof fn lemma_foreign_value(v: Seq<char>, c: XmlCtx, t: Seq<TokenView>, inp: Seq<u8>, s1: St)
    requires
        foreign_value_ok(v),
        ctx_ok(c),
        reads_span(t, inp),
        reads_at(t, s1.i, events_of(foreign_body(v, c) + seq![XmlPiece::Close("OMFOREIGN"@)])),
    ensures
        p_foreign_value(t, inp, s1, ascii("OMFOREIGN"@)) == Ok::<(Seq<char>, St), ReadErr>(
            (v, St { i: s1.i + foreign_body(v, c).len() + 1, now: s1.now }),
        ),
{
    let name = ascii("OMFOREIGN"@);
    let body = foreign_body(v, c);
    let close = XmlPiece::Close("OMFOREIGN"@);
    let all = body + seq![close];
    let m = body.len() as int;
    lemma_text_body(v, c);
    lemma_markup(v);
    // the value is character data or markup, and the trimming keeps its ends
    if char_data(v) {
        if markup(v) is Some {
            let ps = markup(v)->Some_0;
            lemma_markup_ends(ps);
            assert(v[0] != '<');
        }
        assert(body == text_p(foreign_text(v, c)));
    } else {
        let ps = markup(v)->Some_0;
        lemma_markup_ends(ps);
        assert(text_of(ps) == v);
        assert(kept_char(v[0]));
        assert(kept_char(v.last()));
    }
    // every piece of the body spans its text and is read past
    lemma_body_pieces(v, c);
    assert forall|j: int| 0 <= j < m implies plain_piece(#[trigger] body[j], name) by {
        lemma_plain_piece(body[j]);
    }
    assert forall|j: int| 0 <= j < m implies t[s1.i + j].event == Some(piece_event(#[trigger] body[j])) by {
        assert(all[j] == body[j]);
        assert(events_of(all)[j] == piece_event(all[j]));
    }
    assert(events_of(all)[m] == piece_event(close));
    assert(all[m] == close);
    assert(t[s1.i + m].event == Some(EventView::End(name)));
    // where read_to_end stops
    let u = t.skip(s1.i);
    assert forall|j: int| 0 <= j < m implies u[0 + j].event == Some(piece_event(#[trigger] body[j])) by {
        assert(u[0 + j] == t[s1.i + j]);
    }
    lemma_to_end_past(u, 0, body, name);
    assert(u[m] == t[s1.i + m]);
    assert(to_end(u, m, name, 0) == Some(m));
    assert(to_end(u, 0, name, 0) == Some(m));
    // the bytes between the tags
    if m > 0 {
        lemma_span(t, inp, s1.i, body, name);
    } else {
        reveal(reads_span);
        assert(t[s1.i].before <= inp.len());
        assert(text_of(body) =~= Seq::<char>::empty());
        assert(encode_utf8(Seq::<char>::empty()) =~= Seq::<u8>::empty());
        assert(inp.subrange(t[s1.i].before as int, t[s1.i + m].before as int) =~= Seq::<u8>::empty());
    }
    lemma_foreign_trim(v, c.indent);
    assert(foreign_text(v, XmlCtx { indent: c.indent, next_ns: None, current_ns: seq![] }) == foreign_text(v, c));
    lemma_utf8(v);
}

/// The UTF-8 bytes of two texts one after the other.
proof fn lemma_utf8_concat(a: Seq<char>, b: Seq<char>)
    ensures
        encode_utf8(a + b) == encode_utf8(a) + encode_utf8(b),
    decreases a.len(),
{
    if a.len() == 0 {
        assert(a + b =~= b);
        assert(encode_utf8(a) + encode_utf8(b) =~= encode_utf8(b));
    } else {
        assert((a + b).drop_first() =~= a.drop_first() + b);
        assert((a + b)[0] == a[0]);
        lemma_utf8_concat(a.drop_first(), b);
        assert(encode_utf8(a + b) =~= encode_utf8(a) + encode_utf8(b));
    }
}

/// The UTF-8 byte of a single ASCII character.
proof fn lemma_utf8_ascii_char(c: char)
    requires
        (c as u32) < 0x80,
    ensures
        encode_utf8(seq![c]) == seq![c as u32 as u8],
{
    let u = c as u32;
    assert(seq![c].drop_first() =~= Seq::<char>::empty());
    assert(seq![c][0] == c);
    assert(encode_utf8(seq![c]) == encode_scalar(u) + encode_utf8(seq![c].drop_first()));
    assert(encode_utf8(Seq::<char>::empty()) =~= Seq::<u8>::empty());
    assert(encode_scalar(u) == seq![leading_byte_width_1(u)]);
    assert(u as u8 == leading_byte_width_1(u)) by (bit_vector)
        requires
            u < 0x80,
    ;
    assert(encode_scalar(u) + Seq::<u8>::empty() =~= seq![u as u8]);
}

/// Leading whitespace bytes are trimmed away.
proof fn lemma_trim_start_ws(a: Seq<u8>, b: Seq<u8>)
    requires
        all_ws(a),
    ensures
        trim_start(a + b) == trim_start(b),
    decreases a.len(),
{
    if a.len() > 0 {
        assert(is_ascii_ws(a[0]));
        assert((a + b)[0] == a[0]);
        assert((a + b).drop_first() =~= a.drop_first() + b);
        assert(all_ws(a.drop_first())) by {
            assert forall|k: int| 0 <= k < a.drop_first().len() implies #[trigger] is_ascii_ws(
                a.drop_first()[k],
            ) by {
                assert(a.drop_first()[k] == a[k + 1]);
            }
        }
        lemma_trim_start_ws(a.drop_first(), b);
    } else {
        assert(a + b =~= b);
    }
}

/// Trailing whitespace bytes are trimmed away.
proof fn lemma_trim_end_ws(b: Seq<u8>, c: Seq<u8>)
    requires
        all_ws(c),
    ensures
        trim_end(b + c) == trim_end(b),
    decreases c.len(),
{
    if c.len() > 0 {
        assert(is_ascii_ws(c.last()));
        assert((b + c).last() == c.last());
        assert((b + c).drop_last() =~= b + c.drop_last());
        assert(all_ws(c.drop_last())) by {
            assert forall|k: int| 0 <= k < c.drop_last().len() implies #[trigger] is_ascii_ws(
                c.drop_last()[k],
            ) by {
                assert(c.drop_last()[k] == c[k]);
            }
        }
        lemma_trim_end_ws(b, c.drop_last());
    } else {
        assert(b + c =~= b);
    }
}

/// The UTF-8 bytes of a character other than ASCII whitespace begin and end
/// with a byte that is not ASCII whitespace.
proof fn lemma_kept_bytes(c: char)
    requires
        kept_char(c),
    ensures
        encode_utf8(seq![c]) == encode_scalar(c as u32),
        encode_scalar(c as u32).len() > 0,
        !is_ascii_ws(encode_scalar(c as u32)[0]),
        !is_ascii_ws(encode_scalar(c as u32).last()),
{
    let u = c as u32;
    assert(seq![c].drop_first() =~= Seq::<char>::empty());
    assert(seq![c][0] == c);
    assert(encode_utf8(Seq::<char>::empty()) =~= Seq::<u8>::empty());
    assert(encode_utf8(seq![c]) =~= encode_scalar(u) + Seq::<u8>::empty());
    if u <= 0x7f {
        let b = leading_byte_width_1(u);
        assert(b as u32 == u) by (bit_vector)
            requires
                u <= 0x7f,
                b == leading_byte_width_1(u),
        ;
    } else {
        assert(last_continuation_byte(u) >= 0x80) by (bit_vector);
        if u <= 0x7ff {
            assert(leading_byte_width_2(u) >= 0xc0) by (bit_vector);
        } else if has_width_3_encoding(u) {
            assert(leading_byte_width_3(u) >= 0xe0) by (bit_vector);
        } else {
            assert(leading_byte_width_4(u) >= 0xf0) by (bit_vector);
        }
    }
}

/// The reader trims the layout around an OMFOREIGN value off and keeps the
/// value.
proof fn lemma_foreign_trim(v: Seq<char>, i: Option<(bool, Seq<char>)>)
    requires
        v.len() > 0 ==> kept_char(v[0]) && kept_char(v.last()),
        indent_ok(i),
    ensures
        trim_ascii(encode_utf8(foreign_text(v, XmlCtx { indent: i, next_ns: None, current_ns: seq![] })))
            == encode_utf8(v),
{
    let e = encode_utf8(v);
    if v.len() > 0 {
        lemma_kept_bytes(v[0]);
        lemma_kept_bytes(v.last());
        assert(v =~= seq![v[0]] + v.drop_first());
        lemma_utf8_concat(seq![v[0]], v.drop_first());
        assert(v =~= v.drop_last() + seq![v.last()]);
        lemma_utf8_concat(v.drop_last(), seq![v.last()]);
        assert(e[0] == encode_scalar(v[0] as u32)[0]);
        assert(e.last() == encode_scalar(v.last() as u32).last());
        assert(e.len() > 0 && !is_ascii_ws(e[0]));
        assert(!is_ascii_ws(e.last()));
    } else {
        assert(e =~= Seq::<u8>::empty());
    }
    assert(trim_start(e) == e);
    assert(trim_end(e) == e);
    if i is Some {
        let w2 = ind(after_ind(i));
        let w1 = ind(deeper(after_ind(i)));
        reveal_strlit("  ");
        assert(w1 =~= w2 + "  "@);
        let ft = foreign_text(v, XmlCtx { indent: i, next_ns: None, current_ns: seq![] });
        assert(ft =~= w1 + v + w2);
        assert(indent_ok(after_ind(i))) by {
            let p = i->Some_0.1;
            assert(forall|k: int| 0 <= k < p.len() ==> #[trigger] p[k] == ' ');
        }
        assert(indent_ok(deeper(after_ind(i)))) by {
            let p = i->Some_0.1;
            let q = p + seq![' ', ' '];
            assert forall|k: int| 0 <= k < q.len() implies #[trigger] q[k] == ' ' by {
                if k < p.len() {
                    assert(q[k] == p[k]);
                }
            }
        }
        lemma_ws_events(after_ind(i));
        lemma_ws_events(deeper(after_ind(i)));
        lemma_utf8_concat(w1 + v, w2);
        lemma_utf8_concat(w1, v);
        let b1 = encode_utf8(w1);
        let b2 = encode_utf8(w2);
        assert(w1.len() > 0 && w2.len() > 0);
        lemma_trim_start_ws(b1, e + b2);
        assert(b1 + e + b2 =~= b1 + (e + b2));
        if v.len() > 0 {
            assert((e + b2)[0] == e[0]);
            assert(trim_start(e + b2) == e + b2);
            lemma_trim_end_ws(e, b2);
        } else {
            assert(e + b2 =~= b2 + e);
            lemma_trim_start_ws(b2, e);
        }
    }
}

/// An OMFOREIGN reads back from its reads, where an object or OMFOREIGN is
/// expected; the reader goes on after its end tag.
#[verifier::spinoff_prover]
#[verifier::rlimit(50)]
proof fn lemma_read_foreign(f: OMMaybeForeign<OpenMath>, c: XmlCtx, t: Seq<TokenView>, inp: Seq<u8>, s: St)
    requires
        f is Foreign,
        xforeign_ok(f, c.current_ns),
        ctx_ok(c),
        reads_span(t, inp),
        reads_at(t, s.i, events_of(foreign_pieces(f, c))),
    ensures
        next_foreign(t, inp, s, c.current_ns) matches Ok((ControlFlow::Break(g), s2)) && g
            == foreign_view(f) && s2.i == s.i + events_of(foreign_pieces(f, c)).len(),
        events_of(foreign_pieces(f, c)).len() >= 2,
{
    lemma_names();
    lemma_events_one();
    let cur = c.current_ns;
    match f {
        OMMaybeForeign::Foreign { encoding, value } => {
            let v = value@;
            let ea = match encoding {
                Some(e) => seq![("encoding"@, escaped(e@))],
                None => Seq::<(Seq<char>, Seq<char>)>::empty(),
            };
            let open = XmlPiece::Open("OMFOREIGN"@, ea);
            let close = XmlPiece::Close("OMFOREIGN"@);
            let body = foreign_body(v, c);
            let rest = seq![open] + (body + seq![close]);
            assert(foreign_pieces(f, c) =~= ws_p(c.indent) + rest);
            lemma_ws_split(t, inp, s, c.indent, rest, cur, seq![]);
            let q = past_ws(t, s, c.indent);
            lemma_split(t, q.i, seq![open], body + seq![close]);
            let g = xtag("OMFOREIGN"@, attrs_read(ea));
            assert(piece_event(open) == EventView::Start(g));
            assert(ev(t, q.i) == Some(EventView::Start(g)));
            let name = g.name;
            assert(name == ascii("OMFOREIGN"@));
            // the encoding attribute
            match encoding {
                Some(e) => {
                    lemma_unescape_escaped(e@);
                    lemma_utf8(escaped(e@));
                    reveal_with_fuel(get_attr, 2);
                    assert(attrs_read(ea) =~= seq![xattr("encoding"@, escaped(e@))]);
                    assert(attrs_read(ea).drop_first() =~= Seq::<Option<(Seq<u8>, Seq<u8>)>>::empty());
                },
                None => {
                    assert(attrs_read(ea) =~= Seq::<Option<(Seq<u8>, Seq<u8>)>>::empty());
                },
            }
            assert(attr_text(g, "encoding"@) == Ok::<Option<Seq<char>>, ReadErr>(opt_view(encoding)));
            // the value
            let s1 = adv(t, q);
            assert(events_of(seq![open]).len() == 1);
            lemma_foreign_value(v, c, t, inp, s1);
            assert(events_of(body + seq![close]).len() == body.len() + 1);
            assert(events_of(rest).len() == body.len() + 2);
        },
        _ => {},
    }
}

/// Attributes read back: their keys declare no cdbase or one other than
/// `cur`, their values read back.
pub open spec fn xpairs_ok(s: Seq<Attr<OMMaybeForeign<OpenMath>>>, cur: Seq<char>) -> bool
    decreases s, 1int,
{
    s.len() == 0 || (opt_view(s[0].cdbase) != Some(cur) && xforeign_ok(s[0].value, cur)
        && xpairs_ok(s.drop_first(), cur))
}

/// Objects read back.
pub open spec fn xargs_ok(s: Seq<OpenMath>, cur: Seq<char>) -> bool
    decreases s, 1int,
{
    s.len() == 0 || (xml_ok(s[0], cur) && xargs_ok(s.drop_first(), cur))
}

/// Objects and OMFOREIGN values read back.
pub open spec fn xforeigns_ok(s: Seq<OMMaybeForeign<OpenMath>>, cur: Seq<char>) -> bool
    decreases s, 1int,
{
    s.len() == 0 || (xforeign_ok(s[0], cur) && xforeigns_ok(s.drop_first(), cur))
}

/// Bound variables read back: their attributes do.
pub open spec fn xvars_ok(s: Seq<BoundVariable>, cur: Seq<char>) -> bool
    decreases s, 1int,
{
    s.len() == 0 || (xpairs_ok(s[0].attributes@, cur) && xvars_ok(
        s.drop_first(),
        cur,
    ))
}

/// The views of objects, first one first.
proof fn lemma_oms_view_first(s: Seq<OpenMath>)
    requires
        s.len() > 0,
    ensures
        oms_view(s) == seq![om_view(s[0])] + oms_view(s.drop_first()),
    decreases s.len(),
{
    if s.len() == 1 {
        assert(s.drop_last() =~= Seq::<OpenMath>::empty());
        assert(s.drop_first() =~= Seq::<OpenMath>::empty());
        assert(oms_view(s) =~= seq![om_view(s[0])] + oms_view(s.drop_first()));
    } else {
        lemma_oms_view_first(s.drop_last());
        assert(s.drop_last().drop_first() =~= s.drop_first().drop_last());
        assert(oms_view(s) =~= seq![om_view(s[0])] + oms_view(s.drop_first()));
    }
}

/// The views of objects and OMFOREIGNs, first one first.
proof fn lemma_foreigns_view_first(s: Seq<OMMaybeForeign<OpenMath>>)
    requires
        s.len() > 0,
    ensures
        foreigns_view(s) == seq![foreign_view(s[0])] + foreigns_view(s.drop_first()),
    decreases s.len(),
{
    if s.len() == 1 {
        assert(s.drop_last() =~= Seq::<OMMaybeForeign<OpenMath>>::empty());
        assert(s.drop_first() =~= Seq::<OMMaybeForeign<OpenMath>>::empty());
        assert(foreigns_view(s) =~= seq![foreign_view(s[0])] + foreigns_view(s.drop_first()));
    } else {
        lemma_foreigns_view_first(s.drop_last());
        assert(s.drop_last().drop_first() =~= s.drop_first().drop_last());
        assert(foreigns_view(s) =~= seq![foreign_view(s[0])] + foreigns_view(s.drop_first()));
    }
}

/// The views of attributes, first one first.
proof fn lemma_attrs_view_first(s: Seq<Attr<OMMaybeForeign<OpenMath>>>)
    requires
        s.len() > 0,
    ensures
        attrs_view(s) == seq![attr_view(s[0])] + attrs_view(s.drop_first()),
    decreases s.len(),
{
    if s.len() == 1 {
        assert(s.drop_last() =~= Seq::<Attr<OMMaybeForeign<OpenMath>>>::empty());
        assert(s.drop_first() =~= Seq::<Attr<OMMaybeForeign<OpenMath>>>::empty());
        assert(attrs_view(s) =~= seq![attr_view(s[0])] + attrs_view(s.drop_first()));
    } else {
        lemma_attrs_view_first(s.drop_last());
        assert(s.drop_last().drop_first() =~= s.drop_first().drop_last());
        assert(attrs_view(s) =~= seq![attr_view(s[0])] + attrs_view(s.drop_first()));
    }
}

/// The views of bound variables, first one first.
proof fn lemma_vars_view_first(s: Seq<BoundVariable>)
    requires
        s.len() > 0,
    ensures
        vars_view(s) == seq![var_view(s[0])] + vars_view(s.drop_first()),
    decreases s.len(),
{
    if s.len() == 1 {
        assert(s.drop_last() =~= Seq::<BoundVariable>::empty());
        assert(s.drop_first() =~= Seq::<BoundVariable>::empty());
        assert(vars_view(s) =~= seq![var_view(s[0])] + vars_view(s.drop_first()));
    } else {
        lemma_vars_view_first(s.drop_last());
        assert(s.drop_last().drop_first() =~= s.drop_first().drop_last());
        assert(vars_view(s) =~= seq![var_view(s[0])] + vars_view(s.drop_first()));
    }
}


/// Looking up the attributes of a symbol's tag.
proof fn lemma_oms_attrs(cb: Option<Seq<char>>, cd: Seq<char>, name: Seq<char>, cur: Seq<char>)
    ensures
        get_attr(oms_attrs(cb, cd, name, cur), ascii("name"@)) == Some(encode_utf8(escaped(name))),
        get_attr(oms_attrs(cb, cd, name, cur), ascii("cd"@)) == Some(encode_utf8(escaped(cd))),
        get_attr(oms_attrs(cb, cd, name, cur), ascii("cdbase"@)) == match uri_cdbase(cb, cur) {
            Some(b) => Some(encode_utf8(escaped(b))),
            None => None::<Seq<u8>>,
        },
{
    lemma_names();
    reveal_with_fuel(get_attr, 4);
    let a = oms_attrs(cb, cd, name, cur);
    let x_cd = xattr("cd"@, escaped(cd));
    let x_name = xattr("name"@, escaped(name));
    match uri_cdbase(cb, cur) {
        Some(b) => {
            let x_cb = xattr("cdbase"@, escaped(b));
            assert(a =~= seq![x_cb, x_cd, x_name]);
            assert(a.drop_first() =~= seq![x_cd, x_name]);
            assert(a.drop_first().drop_first() =~= seq![x_name]);
            assert(a.drop_first().drop_first().drop_first() =~= Seq::<
                Option<(Seq<u8>, Seq<u8>)>,
            >::empty());

        },
        None => {
            assert(a =~= seq![x_cd, x_name]);
            assert(a.drop_first() =~= seq![x_name]);
            assert(a.drop_first().drop_first() =~= Seq::<Option<(Seq<u8>, Seq<u8>)>>::empty());

        },
    }
}

/// A symbol's tag reads back as the symbol.
proof fn lemma_symbol_tag(cb: Option<Seq<char>>, cd: Seq<char>, name: Seq<char>, cur: Seq<char>)
    ensures
        req_attr(xtag("OMS"@, oms_attrs(cb, cd, name, cur)), "name"@) == Ok::<Seq<char>, ReadErr>(
            name,
        ),
        req_attr(xtag("OMS"@, oms_attrs(cb, cd, name, cur)), "cd"@) == Ok::<Seq<char>, ReadErr>(cd),
        attr_text(xtag("OMS"@, oms_attrs(cb, cd, name, cur)), "cdbase"@) == Ok::<
            Option<Seq<char>>,
            ReadErr,
        >(uri_cdbase(cb, cur)),
{
    lemma_oms_attrs(cb, cd, name, cur);
    lemma_unescape_escaped(cd);
    lemma_unescape_escaped(name);
    lemma_utf8(escaped(cd));
    lemma_utf8(escaped(name));
    if let Some(b) = uri_cdbase(cb, cur) {
        lemma_unescape_escaped(b);
        lemma_utf8(escaped(b));
    }
}

/// An OMS reads back, its cdbase declared or the one in effect.
proof fn lemma_p_oms(cb: Seq<char>, cd: Seq<char>, name: Seq<char>, cur: Seq<char>, a: Seq<AttrView>)
    ensures
        p_oms(xtag("OMS"@, oms_attrs(Some(cb), cd, name, cur)), cur, a) == Ok::<OMView, ReadErr>(
            OMView::OMS { cd, name, cdbase: Some(cb), attrs: a },
        ),
{
    lemma_symbol_tag(Some(cb), cd, name, cur);
}

/// The symbol of an OME or of an attribute's key reads back, where it
/// declares no cdbase or one other than `cur`.
proof fn lemma_ome_symbol(cb: Option<Seq<char>>, cd: Seq<char>, name: Seq<char>, cur: Seq<char>)
    requires
        cb != Some(cur),
    ensures
        ome_symbol(xtag("OMS"@, oms_attrs(cb, cd, name, cur))) == Ok::<
            (Option<Seq<char>>, Seq<char>, Seq<char>),
            ReadErr,
        >((cb, cd, name)),
{
    lemma_symbol_tag(cb, cd, name, cur);
}

/// An OMV reads back.
proof fn lemma_p_omv(name: Seq<char>, a: Seq<AttrView>)
    ensures
        p_omv(xtag("OMV"@, seq![xattr("name"@, escaped(name))]), a) == Ok::<OMView, ReadErr>(
            OMView::OMV { name, attrs: a },
        ),
        req_attr(xtag("OMV"@, seq![xattr("name"@, escaped(name))]), "name"@) == Ok::<
            Seq<char>,
            ReadErr,
        >(name),
{
    lemma_names();
    lemma_unescape_escaped(name);
    lemma_utf8(escaped(name));
    reveal_with_fuel(get_attr, 2);
    let g = seq![xattr("name"@, escaped(name))];
    assert(g.drop_first() =~= Seq::<Option<(Seq<u8>, Seq<u8>)>>::empty());
}

/// An OMF reads back.
proof fn lemma_p_omf(float: Seq<char>, a: Seq<AttrView>)
    requires
        is_float_text(float),
    ensures
        p_omf(xtag("OMF"@, seq![xattr("dec"@, float)]), a) == Ok::<OMView, ReadErr>(
            OMView::OMF { float, attrs: a },
        ),
{
    lemma_names();
    lemma_utf8(float);
    reveal_with_fuel(float_attr, 2);
}

/// The shape of the text of an integer that reads back: not empty, starting
/// with a digit or a sign, and not hexadecimal.
proof fn lemma_int_text_shape(s: Seq<char>)
    requires
        parse_int(s) is Some,
    ensures
        s.len() > 0,
        0x21 <= (s[0] as u32) < 0x80,
        !is_hex_text(s),
{
    let signed = s.len() > 0 && (s[0] == '-' || s[0] == '+');
    let d = if signed { s.drop_first() } else { s };
    if parse_i128(s) is Some {
        assert(d.len() > 0 && all_digits(d));
        assert(is_digit(d[0]));
        if !signed {
            assert(d[0] == s[0]);
        } else {
            assert(d[0] == s[1]);
        }
    } else {
        assert(big_text(s) is Some);
        assert(s.len() > 0);
        if s[0] == '+' || s[0] == '-' {
            if s.len() > 1 {
                assert(is_digit(s.drop_first()[0]));
                assert(s.drop_first()[0] == s[1]);
            }
        } else {
            assert(is_digit(s[0]));
        }
    }
}

/// An OMI reads back from its text and end tag.
proof fn lemma_p_omi(t: Seq<TokenView>, s: St, i: IntView, a: Seq<AttrView>)
    requires
        reads_at(t, s.i, seq![text_ev(int_text(i)), close_ev("OMI"@)]),
        parse_int(int_text(i)) == Some(i),
    ensures
        p_omi(t, s, a) == Ok::<(OMView, St), ReadErr>(
            (OMView::OMI { integer: i, attrs: a }, after(t, s.i + 2)),
        ),
{
    let e = seq![text_ev(int_text(i)), close_ev("OMI"@)];
    assert(t[s.i + 0].event == Some(e[0]));
    assert(t[s.i + 1].event == Some(e[1]));
    lemma_int_text_shape(int_text(i));
    lemma_not_ws(int_text(i));
    lemma_utf8(int_text(i));
}

/// An OMB reads back from its text, if any, and end tag.
proof fn lemma_p_omb(t: Seq<TokenView>, s: St, x: Seq<u8>, a: Seq<AttrView>)
    requires
        reads_at(
            t,
            s.i,
            texts(encode(x).map_values(|b: u8| b as char)) + seq![close_ev("OMB"@)],
        ),
    ensures
        p_omb(t, s, a) == Ok::<(OMView, St), ReadErr>(
            (
                OMView::OMB { bytes: x, attrs: a },
                after(t, s.i + texts(encode(x).map_values(|b: u8| b as char)).len() + 1),
            ),
        ),
{
    let cs = encode(x).map_values(|b: u8| b as char);
    lemma_encode_shape(x);
    let e = texts(cs) + seq![close_ev("OMB"@)];
    assert(t[s.i + 0].event == Some(e[0]));
    if x.len() > 0 {
        assert(encode(x)[0] == PAD || sextet(encode(x)[0]) is Some);
        assert(0x21 <= encode(x)[0] < 0x80) by {
            reveal(sextet);
        }
        assert(cs[0] == encode(x)[0] as char);
        assert(cs.len() > 0);
        assert(e[0] == text_ev(cs));
        assert(e[1] == close_ev("OMB"@));
        assert(t[s.i + 1].event == Some(e[1]));
        lemma_not_ws(cs);
        lemma_base64_roundtrip(x);
    } else {
        assert(cs.len() == 0);
        assert(e[0] == close_ev("OMB"@));
        assert(x =~= Seq::<u8>::empty());
    }
}

/// An OMSTR reads back from its text, if any, and end tag.
proof fn lemma_p_omstr(t: Seq<TokenView>, s: St, string: Seq<char>, a: Seq<AttrView>)
    requires
        reads_at(t, s.i, texts(text_escaped(string)) + seq![close_ev("OMSTR"@)]),
    ensures
        p_omstr(t, s, a) == Ok::<(OMView, St), ReadErr>(
            (
                OMView::OMSTR { string, attrs: a },
                after(t, s.i + texts(text_escaped(string)).len() + 1),
            ),
        ),
{
    lemma_unescape_text_escaped(string);
    let x = text_escaped(string);
    let e = texts(x) + seq![close_ev("OMSTR"@)];
    assert(t[s.i + 0].event == Some(e[0]));
    if string.len() > 0 {
        assert(e[0] == text_ev(x));
        assert(e[1] == close_ev("OMSTR"@));
        assert(t[s.i + 1].event == Some(e[1]));
        lemma_utf8(x);
    } else {
        assert(e[0] == close_ev("OMSTR"@));
        assert(string =~= Seq::<char>::empty());
    }
}

/// The first read of a sequence of reads.
proof fn lemma_reads_first(t: Seq<TokenView>, k: int, e: Seq<EventView>)
    requires
        reads_at(t, k, e),
        e.len() > 0,
    ensures
        t[k].event == Some(e[0]),
        ev(t, k) == Some(e[0]),
{
    assert(t[k + 0].event == Some(e[0]));
}

/// The view of an object, its attributes put back.
proof fn lemma_with_own_attrs(o: OpenMath)
    ensures
        with_attrs(om_view(o), attrs_view(attributes_of(o)@)) == om_view(o),
        attributes_of(o)@.len() == 0 ==> with_attrs(om_view(o), seq![]) == om_view(o),
{
    if attributes_of(o)@.len() == 0 {
        assert(attrs_view(attributes_of(o)@) =~= Seq::<AttrView>::empty());
    }
}



/// An indentation of the writer: its prefix is spaces only.
pub open spec fn indent_ok(i: Option<(bool, Seq<char>)>) -> bool {
    i matches Some((_, p)) ==> forall|k: int| 0 <= k < p.len() ==> #[trigger] p[k] == ' '
}

/// A context of the writer that declares no cdbase and indents by spaces.
pub open spec fn ctx_ok(c: XmlCtx) -> bool {
    c.next_ns is None && indent_ok(c.indent)
}

/// The contexts the writer passes on are of the same kind, and keep the
/// cdbase in effect.
proof fn lemma_ctx_ok(c: XmlCtx)
    requires
        ctx_ok(c),
    ensures
        ctx_ok(inner(c)),
        ctx_ok(deep(c)),
        ctx_ok(deep(inner(c))),
        indent_ok(opened(c).indent),
        inner(c).current_ns == c.current_ns,
        deep(c).current_ns == c.current_ns,
        deep(inner(c)).current_ns == c.current_ns,
{
    assert forall|i: Option<(bool, Seq<char>)>| indent_ok(i) implies #[trigger] indent_ok(deeper(i))
        && indent_ok(after_ind(i)) by {
        if let Some((h, p)) = i {
            let q = p + seq![' ', ' '];
            assert forall|k: int| 0 <= k < q.len() implies #[trigger] q[k] == ' ' by {
                if k < p.len() {
                    assert(q[k] == p[k]);
                }
            }
        }
    }
    assert(indent_ok(after_ind(c.indent)));
    assert(indent_ok(deeper(after_ind(c.indent))));
    assert(indent_ok(deeper(deeper(after_ind(c.indent)))));
    assert(indent_ok(deeper(c.indent)));
}

/// The reads of pieces one after the other are the reads of each.
proof fn lemma_ev2(a: Seq<XmlPiece>, b: Seq<XmlPiece>)
    ensures
        events_of(a + b) == events_of(a) + events_of(b),
        events_of(a + b).len() == events_of(a).len() + events_of(b).len(),
        events_of(a).len() == a.len(),
        events_of(b).len() == b.len(),
{
    assert(events_of(a + b) =~= events_of(a) + events_of(b));
}

/// The read of a single piece.
proof fn lemma_ev1(p: XmlPiece)
    ensures
        events_of(seq![p]) == seq![piece_event(p)],
{
    assert(events_of(seq![p]) =~= seq![piece_event(p)]);
}

/// The reads of what the writer makes of tags and texts.
proof fn lemma_events_one()
    ensures
        forall|n: Seq<char>| #[trigger] piece_event(open_p(n)) == EventView::Start(xtag(n, seq![])),
        forall|t: Seq<char>| #[trigger] events_of(text_p(t)) == texts(t),
        forall|name: Seq<char>| #[trigger] piece_event(omv_p(name)) == EventView::Empty(
            xtag("OMV"@, seq![xattr("name"@, escaped(name))]),
        ),
        forall|cb: Option<Seq<char>>, cd: Seq<char>, name: Seq<char>, cur: Seq<char>| #[trigger]
            piece_event(oms_p(cb, cd, name, cur)) == EventView::Empty(
                xtag("OMS"@, oms_attrs(cb, cd, name, cur)),
            ),
        forall|f: Seq<char>| #[trigger] attrs_read(seq![("dec"@, f)]) == seq![xattr("dec"@, f)],
        attrs_read(seq![]) == Seq::<Option<(Seq<u8>, Seq<u8>)>>::empty(),
{
    assert(attrs_read(seq![]) =~= Seq::<Option<(Seq<u8>, Seq<u8>)>>::empty());
    assert forall|t: Seq<char>| #[trigger] events_of(text_p(t)) == texts(t) by {
        assert(events_of(text_p(t)) =~= texts(t));
    }
    assert forall|name: Seq<char>| #[trigger] piece_event(omv_p(name)) == EventView::Empty(
        xtag("OMV"@, seq![xattr("name"@, escaped(name))]),
    ) by {
        assert(attrs_read(seq![("name"@, escaped(name))]) =~= seq![xattr("name"@, escaped(name))]);
    }
    assert forall|cb: Option<Seq<char>>, cd: Seq<char>, name: Seq<char>, cur: Seq<char>| #[trigger]
        piece_event(oms_p(cb, cd, name, cur)) == EventView::Empty(
            xtag("OMS"@, oms_attrs(cb, cd, name, cur)),
        ) by {
        assert(attrs_read(oms_pattrs(cb, cd, name, cur)) =~= oms_attrs(cb, cd, name, cur));
    }
    assert forall|f: Seq<char>| #[trigger] attrs_read(seq![("dec"@, f)]) == seq![xattr("dec"@, f)] by {
        assert(attrs_read(seq![("dec"@, f)]) =~= seq![xattr("dec"@, f)]);
    }
}

/// The reads of pieces one after the other, split.
proof fn lemma_split(t: Seq<TokenView>, k: int, a: Seq<XmlPiece>, b: Seq<XmlPiece>)
    requires
        reads_at(t, k, events_of(a + b)),
    ensures
        reads_at(t, k, events_of(a)),
        reads_at(t, k + events_of(a).len(), events_of(b)),
        events_of(a + b).len() == events_of(a).len() + events_of(b).len(),
{
    lemma_ev2(a, b);
    lemma_reads_split(t, k, events_of(a), events_of(b));
}

/// The reads of what the writer puts before an element: none, or one text
/// that is all whitespace.
proof fn lemma_ws_events(i: Option<(bool, Seq<char>)>)
    requires
        indent_ok(i),
    ensures
        events_of(ws_p(i)) == texts(ind(i)),
        ind(i).len() > 0 ==> all_ws(encode_utf8(ind(i))),
{
    lemma_events_one();
    let w = ind(i);
    if w.len() > 0 {
        assert forall|k: int| 0 <= k < w.len() implies #[trigger] w[k] == '\n' || w[k] == ' ' by {
            if let Some((h, p)) = i {
                if h {
                    if k > 0 {
                        assert(w[k] == p[k - 1]);
                    }
                } else {
                    assert(w[k] == p[k]);
                }
            }
        }
        assert(vstd::utf8::is_ascii_chars(w));
        vstd::utf8::is_ascii_chars_encode_utf8(w);
        let b = encode_utf8(w);
        assert forall|k: int| 0 <= k < b.len() implies #[trigger] is_ascii_ws(b[k]) by {
            assert(w[k] as u8 == b[k]);
        }
    }
}

/// Where reading stands after what the writer put before an element.
pub open spec fn past_ws(t: Seq<TokenView>, s: St, i: Option<(bool, Seq<char>)>) -> St {
    if ind(i).len() == 0 {
        s
    } else {
        adv(t, s)
    }
}

/// Reading skips what the writer puts before an element, where a tag follows.
proof fn lemma_skip(
    t: Seq<TokenView>,
    inp: Seq<u8>,
    s: St,
    i: Option<(bool, Seq<char>)>,
    rest: Seq<EventView>,
    cb: Seq<char>,
    a: Seq<AttrView>,
)
    requires
        indent_ok(i),
        reads_at(t, s.i, events_of(ws_p(i)) + rest),
        rest.len() > 0,
        !(rest[0] is Text),
    ensures
        past_ws(t, s, i).i == s.i + events_of(ws_p(i)).len(),
        ev(t, past_ws(t, s, i).i) == Some(rest[0]),
        handle_next(t, inp, s, cb, a) == handle_next(t, inp, past_ws(t, s, i), cb, a),
        next_foreign(t, inp, s, cb) == next_foreign(t, inp, past_ws(t, s, i), cb),
        omattr_pairs(t, inp, s, cb, a) == omattr_pairs(t, inp, past_ws(t, s, i), cb, a),
        omattr_or_var(t, inp, s, cb, a) == omattr_or_var(t, inp, past_ws(t, s, i), cb, a),
        skip_ws(t, s) == past_ws(t, s, i),
        skip_ws(t, past_ws(t, s, i)) == past_ws(t, s, i),
{
    lemma_ws_events(i);
    let w = events_of(ws_p(i));
    lemma_reads_split(t, s.i, w, rest);
    lemma_reads_first(t, s.i + w.len(), rest);
    let p = past_ws(t, s, i);
    assert(skip_ws(t, p) == p);
    if ind(i).len() > 0 {
        lemma_reads_first(t, s.i, w);
        assert(w[0] == text_ev(ind(i)));
    }
}

/// Reading skips what the writer puts before an element, where a tag follows;
/// the reads of the element follow.
proof fn lemma_ws_split(
    t: Seq<TokenView>,
    inp: Seq<u8>,
    s: St,
    i: Option<(bool, Seq<char>)>,
    rest: Seq<XmlPiece>,
    cb: Seq<char>,
    a: Seq<AttrView>,
)
    requires
        indent_ok(i),
        reads_at(t, s.i, events_of(ws_p(i) + rest)),
        rest.len() > 0,
        !(piece_event(rest[0]) is Text),
    ensures
        past_ws(t, s, i).i == s.i + events_of(ws_p(i)).len(),
        events_of(ws_p(i) + rest).len() == events_of(ws_p(i)).len() + events_of(rest).len(),
        reads_at(t, past_ws(t, s, i).i, events_of(rest)),
        ev(t, past_ws(t, s, i).i) == Some(piece_event(rest[0])),
        handle_next(t, inp, s, cb, a) == handle_next(t, inp, past_ws(t, s, i), cb, a),
        next_foreign(t, inp, s, cb) == next_foreign(t, inp, past_ws(t, s, i), cb),
        omattr_pairs(t, inp, s, cb, a) == omattr_pairs(t, inp, past_ws(t, s, i), cb, a),
        omattr_or_var(t, inp, s, cb, a) == omattr_or_var(t, inp, past_ws(t, s, i), cb, a),
        skip_ws(t, s) == past_ws(t, s, i),
        skip_ws(t, past_ws(t, s, i)) == past_ws(t, s, i),
{
    lemma_ev2(ws_p(i), rest);
    assert(events_of(rest)[0] == piece_event(rest[0]));
    lemma_skip(t, inp, s, i, events_of(rest), cb, a);
    lemma_split(t, s.i, ws_p(i), rest);
}

/// The end tag of an element, after what the writer puts before it.
proof fn lemma_need_end(t: Seq<TokenView>, s: St, i: Option<(bool, Seq<char>)>, n: Seq<char>, inp: Seq<u8>)
    requires
        indent_ok(i),
        reads_at(t, s.i, events_of(ws_p(i) + seq![XmlPiece::Close(n)])),
    ensures
        need_end(t, s) == Ok::<St, ReadErr>(
            after(t, s.i + events_of(ws_p(i) + seq![XmlPiece::Close(n)]).len()),
        ),
{
    lemma_ws_split(t, inp, s, i, seq![XmlPiece::Close(n)], seq![], seq![]);
    lemma_ev1(XmlPiece::Close(n));
}

/// The pieces of what an object holds after what the writer puts before it.
pub open spec fn tag_pieces(o: OpenMath, c: XmlCtx) -> Seq<XmlPiece> {
    let ci = inner(c);
    match o {
        OpenMath::OMI { int: i, .. } => seq![open_p("OMI"@)] + seq![XmlPiece::Text(int_text(i@))]
            + seq![XmlPiece::Close("OMI"@)],
        OpenMath::OMF { float, .. } => seq![XmlPiece::Empty("OMF"@, seq![("dec"@, float@)])],
        OpenMath::OMSTR { string, .. } => seq![open_p("OMSTR"@)] + (text_p(text_escaped(string@))
            + seq![XmlPiece::Close("OMSTR"@)]),
        OpenMath::OMB { bytes, .. } => seq![open_p("OMB"@)] + (text_p(
            encode(bytes@).map_values(|b: u8| b as char),
        ) + seq![XmlPiece::Close("OMB"@)]),
        OpenMath::OMV { name, .. } => seq![omv_p(name@)],
        OpenMath::OMS { cd, name, cdbase, .. } => seq![
            oms_p(opt_view(cdbase), cd@, name@, c.current_ns),
        ],
        OpenMath::OMA { applicant, arguments, .. } => seq![open_p("OMA"@)] + (om_pieces(
            *applicant,
            ci,
        ) + (args_pieces(arguments@, ci) + ws_p(opened(c).indent) + seq![XmlPiece::Close("OMA"@)])),
        OpenMath::OME { cd, name, cdbase, arguments, .. } => seq![open_p("OME"@)] + ((ws_p(ci.indent)
            + seq![oms_p(opt_view(cdbase), cd@, name@, ci.current_ns)]) + (foreigns_pieces(
            arguments@,
            ci,
        ) + ws_p(opened(c).indent) + seq![XmlPiece::Close("OME"@)])),
        OpenMath::OMBIND { binder, variables, object, .. } => seq![open_p("OMBIND"@)] + (om_pieces(
            *binder,
            ci,
        ) + (bvar_pieces(variables@, ci) + (om_pieces(*object, ci) + (ws_p(opened(c).indent)
            + seq![XmlPiece::Close("OMBIND"@)])))),
    }
}

/// Concatenation regrouped, three pieces.
proof fn lemma_group3<A>(w: Seq<A>, a: Seq<A>, b: Seq<A>, c: Seq<A>)
    ensures
        ((w + a) + b) + c == w + ((a + b) + c),
        ((w + a) + b) + c == w + (a + (b + c)),
{
    assert(((w + a) + b) + c =~= w + ((a + b) + c));
    assert(((w + a) + b) + c =~= w + (a + (b + c)));
}

/// Concatenation regrouped, five pieces.
proof fn lemma_group5<A>(w: Seq<A>, a: Seq<A>, b: Seq<A>, c: Seq<A>, d: Seq<A>, e: Seq<A>)
    ensures
        ((((w + a) + b) + c) + d) + e == w + (a + (b + ((c + d) + e))),
{
    assert(((((w + a) + b) + c) + d) + e =~= w + (a + (b + ((c + d) + e))));
}

/// Concatenation regrouped, six pieces.
proof fn lemma_group6<A>(w: Seq<A>, a: Seq<A>, b: Seq<A>, c: Seq<A>, d: Seq<A>, f: Seq<A>, e: Seq<A>)
    ensures
        (((((w + a) + b) + c) + d) + f) + e == w + (a + (b + (c + (d + (f + e))))),
{
    assert((((((w + a) + b) + c) + d) + f) + e =~= w + (a + (b + (c + (d + (f + e))))));
}

/// What an object holds is what the writer puts before it and its tags.
#[verifier::spinoff_prover]
#[verifier::rlimit(40)]
proof fn lemma_plain_split(o: OpenMath, c: XmlCtx)
    ensures
        plain_pieces(o, c) == ws_p(c.indent) + tag_pieces(o, c),
        tag_pieces(o, c).len() > 0,
{
    let w = ws_p(c.indent);
    let ci = inner(c);
    let wo = ws_p(opened(c).indent);
    match o {
        OpenMath::OMI { int: i, .. } => {
            lemma_group3(w, seq![open_p("OMI"@)], seq![XmlPiece::Text(int_text(i@))], seq![XmlPiece::Close("OMI"@)]);
        },
        OpenMath::OMSTR { string, .. } => {
            lemma_group3(w, seq![open_p("OMSTR"@)], text_p(text_escaped(string@)), seq![XmlPiece::Close("OMSTR"@)]);
        },
        OpenMath::OMB { bytes, .. } => {
            lemma_group3(
                w,
                seq![open_p("OMB"@)],
                text_p(encode(bytes@).map_values(|b: u8| b as char)),
                seq![XmlPiece::Close("OMB"@)],
            );
        },
        OpenMath::OMA { applicant, arguments, .. } => {
            lemma_group5(
                w,
                seq![open_p("OMA"@)],
                om_pieces(*applicant, ci),
                args_pieces(arguments@, ci),
                wo,
                seq![XmlPiece::Close("OMA"@)],
            );
        },
        OpenMath::OME { cd, name, cdbase, arguments, .. } => {
            lemma_group5(
                w,
                seq![open_p("OME"@)],
                ws_p(ci.indent) + seq![oms_p(opt_view(cdbase), cd@, name@, ci.current_ns)],
                foreigns_pieces(arguments@, ci),
                wo,
                seq![XmlPiece::Close("OME"@)],
            );
        },
        OpenMath::OMBIND { binder, variables, object, .. } => {
            lemma_group6(
                w,
                seq![open_p("OMBIND"@)],
                om_pieces(*binder, ci),
                bvar_pieces(variables@, ci),
                om_pieces(*object, ci),
                wo,
                seq![XmlPiece::Close("OMBIND"@)],
            );
        },
        _ => {},
    }
}

/// The tail of an OMATTR after its start tag: the OMATP, then the pieces
/// inside, then the end tag.
pub open spec fn omattr_tail(a: Seq<Attr<OMMaybeForeign<OpenMath>>>, inside: Seq<XmlPiece>, c: XmlCtx) -> Seq<XmlPiece> {
    let ci = inner(c);
    (ws_p(ci.indent) + seq![open_p("OMATP"@)] + pair_pieces(a, deep(ci)) + ws_p(ci.indent) + seq![
        XmlPiece::Close("OMATP"@),
    ]) + (inside + (ws_p(opened(c).indent) + seq![XmlPiece::Close("OMATTR"@)]))
}

/// Every object is at least one piece.
proof fn lemma_pieces_len(o: OpenMath, c: XmlCtx)
    ensures
        events_of(om_pieces(o, c)).len() > 0,
        events_of(plain_pieces(o, c)).len() > 0,
{
    lemma_plain_split(o, c);
}

/// An object reads back from its reads, where an object is expected and
/// where an object or OMFOREIGN is.
#[verifier::spinoff_prover]
#[verifier::rlimit(40)]
proof fn lemma_read(o: OpenMath, c: XmlCtx, t: Seq<TokenView>, inp: Seq<u8>, s: St)
    requires
        reads_span(t, inp),
        xml_ok(o, c.current_ns),
        ctx_ok(c),
        reads_at(t, s.i, events_of(om_pieces(o, c))),
    ensures
        handle_next(t, inp, s, c.current_ns, seq![]) == Ok::<(ControlFlow<OMView, bool>, St), ReadErr>(
            (ControlFlow::Break(om_view(o)), after(t, s.i + events_of(om_pieces(o, c)).len())),
        ),
        next_foreign(t, inp, s, c.current_ns) == Ok::<(ControlFlow<ForeignView, bool>, St), ReadErr>(
            (
                ControlFlow::Break(ForeignView::OM(om_view(o))),
                after(t, s.i + events_of(om_pieces(o, c)).len()),
            ),
        ),
    decreases o, 5int,
{
    lemma_with_own_attrs(o);
    lemma_ctx_ok(c);
    let a = attributes_of(o)@;
    if a.len() > 0 {
        lemma_names();
        lemma_events_one();
        let cur = c.current_ns;
        let tail = omattr_tail(a, plain_pieces(o, inner(c)), c);
        let rest = seq![open_p("OMATTR"@)] + tail;
        assert(om_pieces(o, c) =~= ws_p(c.indent) + rest);
        let er = events_of(rest);
        assert(er[0] == EventView::Start(xtag("OMATTR"@, seq![])));
        lemma_ev2(ws_p(c.indent), rest);
        lemma_skip(t, inp, s, c.indent, er, cur, seq![]);
        let s2 = past_ws(t, s, c.indent);
        lemma_split(t, s.i, ws_p(c.indent), rest);
        lemma_split(t, s2.i, seq![open_p("OMATTR"@)], tail);
        lemma_p_omattr(o, c, t, inp, adv(t, s2));
        assert(get_attr(Seq::<Option<(Seq<u8>, Seq<u8>)>>::empty(), ascii("cdbase"@)) is None);
    } else {
        lemma_plain(o, c, t, inp, s, seq![]);
    }
}

/// An object with attributes reads back from the reads of its OMATTR after
/// the start tag.
#[verifier::spinoff_prover]
proof fn lemma_p_omattr(o: OpenMath, c: XmlCtx, t: Seq<TokenView>, inp: Seq<u8>, s: St)
    requires
        reads_span(t, inp),
        xml_ok(o, c.current_ns),
        ctx_ok(c),
        attributes_of(o)@.len() > 0,
        reads_at(t, s.i, events_of(omattr_tail(attributes_of(o)@, plain_pieces(o, inner(c)), c))),
    ensures
        p_omattr(t, inp, s, c.current_ns, seq![]) == Ok::<(OMView, St), ReadErr>(
            (
                om_view(o),
                after(
                    t,
                    s.i + events_of(omattr_tail(attributes_of(o)@, plain_pieces(o, inner(c)), c)).len(),
                ),
            ),
        ),
    decreases o, 4int,
{
    lemma_with_own_attrs(o);
    lemma_ctx_ok(c);
    let a = attributes_of(o)@;
    let ci = inner(c);
    let tp = ws_p(ci.indent) + seq![open_p("OMATP"@)] + pair_pieces(a, deep(ci)) + ws_p(ci.indent)
        + seq![XmlPiece::Close("OMATP"@)];
    let pl = plain_pieces(o, ci);
    let cl = ws_p(opened(c).indent) + seq![XmlPiece::Close("OMATTR"@)];
    lemma_split(t, s.i, tp, pl + cl);
    lemma_split(t, s.i + events_of(tp).len(), pl, cl);
    lemma_omatp(a, c, t, inp, s, seq![]);
    assert(Seq::<AttrView>::empty() + attrs_view(a) =~= attrs_view(a));
    let s2 = after(t, s.i + events_of(tp).len());
    lemma_pieces_len(o, ci);
    lemma_plain(o, ci, t, inp, s2, attrs_view(a));
    let k = s2.i + events_of(pl).len();
    lemma_need_end(t, after(t, k), opened(c).indent, "OMATTR"@, inp);
}

/// The OMATP of an OMATTR written in the context `c` reads back, its pairs
/// added to `acc`.
proof fn lemma_omatp(
    a: Seq<Attr<OMMaybeForeign<OpenMath>>>,
    c: XmlCtx,
    t: Seq<TokenView>,
    inp: Seq<u8>,
    s: St,
    acc: Seq<AttrView>,
)
    requires
        reads_span(t, inp),
        xpairs_ok(a, c.current_ns),
        ctx_ok(c),
        reads_at(
            t,
            s.i,
            events_of(
                ws_p(inner(c).indent) + seq![open_p("OMATP"@)] + pair_pieces(a, deep(inner(c)))
                    + ws_p(inner(c).indent) + seq![XmlPiece::Close("OMATP"@)],
            ),
        ),
    ensures
        omatp(t, inp, s, c.current_ns, acc) == Ok::<(Seq<AttrView>, St), ReadErr>(
            (
                acc + attrs_view(a),
                after(
                    t,
                    s.i + events_of(
                        ws_p(inner(c).indent) + seq![open_p("OMATP"@)] + pair_pieces(
                            a,
                            deep(inner(c)),
                        ) + ws_p(inner(c).indent) + seq![XmlPiece::Close("OMATP"@)],
                    ).len(),
                ),
            ),
        ),
    decreases a, 3int,
{
    lemma_names();
    lemma_ctx_ok(c);
    lemma_events_one();
    let ci = inner(c);
    let cur = c.current_ns;
    let ps = pair_pieces(a, deep(ci)) + ws_p(ci.indent) + seq![XmlPiece::Close("OMATP"@)];
    let rest = seq![open_p("OMATP"@)] + ps;
    let all = ws_p(ci.indent) + seq![open_p("OMATP"@)] + pair_pieces(a, deep(ci)) + ws_p(ci.indent)
        + seq![XmlPiece::Close("OMATP"@)];
    assert(all =~= ws_p(ci.indent) + rest);
    let er = events_of(rest);
    assert(er[0] == EventView::Start(xtag("OMATP"@, seq![])));
    lemma_ev2(ws_p(ci.indent), rest);
    lemma_skip(t, inp, s, ci.indent, er, cur, acc);
    let q = past_ws(t, s, ci.indent);
    lemma_split(t, s.i, ws_p(ci.indent), rest);
    lemma_split(t, q.i, seq![open_p("OMATP"@)], ps);
    lemma_pairs(a, deep(ci), t, inp, adv(t, q), acc, ci.indent);
}

/// Key-value pairs written in the context `c` read back up to the end tag
/// of the OMATP, each added to `acc`.
#[verifier::spinoff_prover]
#[verifier::rlimit(50)]
proof fn lemma_pairs(
    a: Seq<Attr<OMMaybeForeign<OpenMath>>>,
    c: XmlCtx,
    t: Seq<TokenView>,
    inp: Seq<u8>,
    s: St,
    acc: Seq<AttrView>,
    w: Option<(bool, Seq<char>)>,
)
    requires
        reads_span(t, inp),
        xpairs_ok(a, c.current_ns),
        ctx_ok(c),
        indent_ok(w),
        reads_at(t, s.i, events_of(pair_pieces(a, c) + ws_p(w) + seq![XmlPiece::Close("OMATP"@)])),
    ensures
        omattr_pairs(t, inp, s, c.current_ns, acc) == Ok::<(Seq<AttrView>, St), ReadErr>(
            (
                acc + attrs_view(a),
                after(
                    t,
                    s.i + events_of(pair_pieces(a, c) + ws_p(w) + seq![XmlPiece::Close("OMATP"@)]).len(),
                ),
            ),
        ),
    decreases a, 2int,
{
    lemma_names();
    lemma_events_one();
    let cur = c.current_ns;
    let cl = seq![XmlPiece::Close("OMATP"@)];
    if a.len() == 0 {
        assert(attrs_view(a) =~= Seq::<AttrView>::empty());
        assert(acc + attrs_view(a) =~= acc);
        assert(pair_pieces(a, c) + ws_p(w) + cl =~= ws_p(w) + cl);
        let er = events_of(cl);
        assert(er[0] == close_ev("OMATP"@));
        lemma_ev2(ws_p(w), cl);
        lemma_skip(t, inp, s, w, er, cur, acc);
    } else {
        let x = a[0];
        assert(xforeign_ok(x.value, cur));
        let sym = seq![oms_p(opt_view(x.cdbase), x.cd@, x.name@, cur)];
        let ov = foreign_pieces(x.value, c);
        let rest = pair_pieces(a.drop_first(), c) + ws_p(w) + cl;
        assert(pair_pieces(a, c) + ws_p(w) + cl =~= ws_p(c.indent) + (sym + (ov + rest)));
        let er = events_of(sym + (ov + rest));
        assert(er[0] == EventView::Empty(
            xtag("OMS"@, oms_attrs(opt_view(x.cdbase), x.cd@, x.name@, cur)),
        ));
        lemma_ev2(ws_p(c.indent), sym + (ov + rest));
        lemma_skip(t, inp, s, c.indent, er, cur, acc);
        let q = past_ws(t, s, c.indent);
        lemma_split(t, s.i, ws_p(c.indent), sym + (ov + rest));
        lemma_split(t, q.i, sym, ov + rest);
        lemma_split(t, q.i + 1, ov, rest);
        lemma_ome_symbol(opt_view(x.cdbase), x.cd@, x.name@, cur);
        let s1 = adv(t, q);
        if x.value is OM {
            let o = x.value->OM_0;
            assert(x.value == OMMaybeForeign::OM(o));
            assert(ov == om_pieces(o, c));
            lemma_pieces_len(o, c);
            lemma_read(o, c, t, inp, s1);
        } else {
            lemma_read_foreign(x.value, c, t, inp, s1);
        }
        let s2 = next_foreign(t, inp, s1, cur)->Ok_0.1;
        assert(s2.i == s1.i + events_of(ov).len());
        let v = AttrView {
            cdbase: opt_view(x.cdbase),
            cd: x.cd@,
            name: x.name@,
            value: foreign_view(x.value),
        };
        assert(v == attr_view(x));
        lemma_pairs(a.drop_first(), c, t, inp, s2, acc.push(v), w);
        lemma_attrs_view_first(a);
        assert(acc.push(v) + attrs_view(a.drop_first()) =~= acc + attrs_view(a));
    }
}

/// What an object holds reads back from its reads, with `attrs` as its
/// attributes where an object is expected.
#[verifier::spinoff_prover]
#[verifier::rlimit(100)]
proof fn lemma_plain(o: OpenMath, c: XmlCtx, t: Seq<TokenView>, inp: Seq<u8>, s: St, attrs: Seq<AttrView>)
    requires
        reads_span(t, inp),
        xplain_ok(o, c.current_ns),
        ctx_ok(c),
        reads_at(t, s.i, events_of(plain_pieces(o, c))),
    ensures
        handle_next(t, inp, s, c.current_ns, attrs) == Ok::<(ControlFlow<OMView, bool>, St), ReadErr>(
            (
                ControlFlow::Break(with_attrs(om_view(o), attrs)),
                after(t, s.i + events_of(plain_pieces(o, c)).len()),
            ),
        ),
        next_foreign(t, inp, s, c.current_ns) == Ok::<(ControlFlow<ForeignView, bool>, St), ReadErr>(
            (
                ControlFlow::Break(ForeignView::OM(with_attrs(om_view(o), seq![]))),
                after(t, s.i + events_of(plain_pieces(o, c)).len()),
            ),
        ),
    decreases o, 3int,
{
    lemma_names();
    lemma_ctx_ok(c);
    lemma_events_one();
    lemma_plain_split(o, c);
    let cur = c.current_ns;
    let tp = tag_pieces(o, c);
    let e = events_of(tp);
    lemma_ev2(ws_p(c.indent), tp);
    lemma_skip(t, inp, s, c.indent, e, cur, attrs);
    lemma_ev2(ws_p(c.indent), tp);
    lemma_skip(t, inp, s, c.indent, e, cur, seq![]);
    let s2 = past_ws(t, s, c.indent);
    lemma_split(t, s.i, ws_p(c.indent), tp);
    lemma_reads_first(t, s2.i, e);
    let s1 = adv(t, s2);
    assert(get_attr(Seq::<Option<(Seq<u8>, Seq<u8>)>>::empty(), ascii("cdbase"@)) is None);
    match o {
        OpenMath::OMI { int: i, .. } => {
            let r = seq![XmlPiece::Text(int_text(i@))] + seq![XmlPiece::Close("OMI"@)];
            assert(tp =~= seq![open_p("OMI"@)] + r);
            lemma_split(t, s2.i, seq![open_p("OMI"@)], r);
            assert(events_of(r) =~= seq![text_ev(int_text(i@)), close_ev("OMI"@)]);
            lemma_p_omi(t, s1, i@, attrs);
            lemma_p_omi(t, s1, i@, seq![]);
        },
        OpenMath::OMF { float, .. } => {
            lemma_p_omf(float@, attrs);
            lemma_p_omf(float@, seq![]);
        },
        OpenMath::OMSTR { string, .. } => {
            let r = text_p(text_escaped(string@)) + seq![XmlPiece::Close("OMSTR"@)];
            lemma_split(t, s2.i, seq![open_p("OMSTR"@)], r);
            assert(events_of(r) =~= texts(text_escaped(string@)) + seq![close_ev("OMSTR"@)]);
            lemma_p_omstr(t, s1, string@, attrs);
            lemma_p_omstr(t, s1, string@, seq![]);
        },
        OpenMath::OMB { bytes, .. } => {
            let b64 = encode(bytes@).map_values(|b: u8| b as char);
            let r = text_p(b64) + seq![XmlPiece::Close("OMB"@)];
            lemma_split(t, s2.i, seq![open_p("OMB"@)], r);
            assert(events_of(r) =~= texts(b64) + seq![close_ev("OMB"@)]);
            lemma_p_omb(t, s1, bytes@, attrs);
            lemma_p_omb(t, s1, bytes@, seq![]);
            lemma_encode_shape(bytes@);
        },
        OpenMath::OMV { name, .. } => {
            lemma_p_omv(name@, attrs);
            lemma_p_omv(name@, seq![]);
        },
        OpenMath::OMS { cd, name, cdbase, .. } => {
            let cb = opt_view(cdbase)->Some_0;
            lemma_p_oms(cb, cd@, name@, cur, attrs);
            lemma_p_oms(cb, cd@, name@, cur, seq![]);
        },
        OpenMath::OMA { .. } => {
            assert(tp =~= seq![open_p("OMA"@)] + tp.drop_first());
            lemma_split(t, s2.i, seq![open_p("OMA"@)], tp.drop_first());
            lemma_p_oma(o, c, t, inp, s1, s2.now, attrs);
            lemma_p_oma(o, c, t, inp, s1, s2.now, seq![]);
        },
        OpenMath::OME { .. } => {
            assert(tp =~= seq![open_p("OME"@)] + tp.drop_first());
            lemma_split(t, s2.i, seq![open_p("OME"@)], tp.drop_first());
            lemma_p_ome(o, c, t, inp, s1, s2.now, attrs);
            lemma_p_ome(o, c, t, inp, s1, s2.now, seq![]);
        },
        OpenMath::OMBIND { .. } => {
            assert(tp =~= seq![open_p("OMBIND"@)] + tp.drop_first());
            lemma_split(t, s2.i, seq![open_p("OMBIND"@)], tp.drop_first());
            lemma_p_ombind(o, c, t, inp, s1, s2.now, attrs);
            lemma_p_ombind(o, c, t, inp, s1, s2.now, seq![]);
        },
    }
}


/// An OMA reads back from its reads after the start tag.
#[verifier::spinoff_prover]
proof fn lemma_p_oma(o: OpenMath, c: XmlCtx, t: Seq<TokenView>, inp: Seq<u8>, s: St, off: u64, a: Seq<AttrView>)
    requires
        reads_span(t, inp),
        o is OMA,
        xplain_ok(o, c.current_ns),
        ctx_ok(c),
        reads_at(t, s.i, events_of(tag_pieces(o, c).drop_first())),
    ensures
        p_oma(t, inp, s, c.current_ns, off, a) == Ok::<(OMView, St), ReadErr>(
            (
                with_attrs(om_view(o), a),
                after(t, s.i + events_of(tag_pieces(o, c).drop_first()).len()),
            ),
        ),
    decreases o, 2int,
{
    lemma_ctx_ok(c);
    match o {
        OpenMath::OMA { applicant, arguments, .. } => {
            let ci = inner(c);
            let ap = om_pieces(*applicant, ci);
            let ar = args_pieces(arguments@, ci) + ws_p(opened(c).indent) + seq![
                XmlPiece::Close("OMA"@),
            ];
            assert(tag_pieces(o, c).drop_first() =~= ap + ar);
            lemma_split(t, s.i, ap, ar);
            lemma_pieces_len(*applicant, ci);
            lemma_read(*applicant, ci, t, inp, s);
            let s2 = after(t, s.i + events_of(ap).len());
            lemma_args(arguments@, ci, t, inp, s2, off, opened(c).indent, "OMA"@);
        },
        _ => {},
    }
}

/// Objects written in the context `c` read back, up to and including the
/// end tag `n` after them.
#[verifier::spinoff_prover]
proof fn lemma_args(
    v: Seq<OpenMath>,
    c: XmlCtx,
    t: Seq<TokenView>,
    inp: Seq<u8>,
    s: St,
    off: u64,
    w: Option<(bool, Seq<char>)>,
    n: Seq<char>,
)
    requires
        reads_span(t, inp),
        xargs_ok(v, c.current_ns),
        ctx_ok(c),
        indent_ok(w),
        reads_at(t, s.i, events_of(args_pieces(v, c) + ws_p(w) + seq![XmlPiece::Close(n)])),
    ensures
        oma_args(t, inp, s, c.current_ns, off) == Ok::<(Seq<OMView>, St), ReadErr>(
            (oms_view(v), after(t, s.i + events_of(args_pieces(v, c) + ws_p(w) + seq![XmlPiece::Close(n)]).len())),
        ),
    decreases v, 1int,
{
    lemma_events_one();
    let cl = seq![XmlPiece::Close(n)];
    if v.len() == 0 {
        assert(args_pieces(v, c) + ws_p(w) + cl =~= ws_p(w) + cl);
        let er = events_of(cl);
        assert(er[0] == close_ev(n));
        lemma_ev2(ws_p(w), cl);
        lemma_skip(t, inp, s, w, er, c.current_ns, seq![]);
        assert(oms_view(v) =~= Seq::<OMView>::empty());
    } else {
        let x = om_pieces(v[0], c);
        let r = args_pieces(v.drop_first(), c) + ws_p(w) + cl;
        assert(args_pieces(v, c) + ws_p(w) + cl =~= x + r);
        lemma_split(t, s.i, x, r);
        lemma_pieces_len(v[0], c);
        lemma_read(v[0], c, t, inp, s);
        let s2 = after(t, s.i + events_of(x).len());
        lemma_args(v.drop_first(), c, t, inp, s2, off, w, n);
        lemma_oms_view_first(v);
    }
}

/// An OME reads back from its reads after the start tag.
#[verifier::spinoff_prover]
#[verifier::rlimit(50)]
proof fn lemma_p_ome(o: OpenMath, c: XmlCtx, t: Seq<TokenView>, inp: Seq<u8>, s: St, now: u64, a: Seq<AttrView>)
    requires
        reads_span(t, inp),
        o is OME,
        xplain_ok(o, c.current_ns),
        ctx_ok(c),
        reads_at(t, s.i, events_of(tag_pieces(o, c).drop_first())),
    ensures
        p_ome(t, inp, s, c.current_ns, now, a) == Ok::<(OMView, St), ReadErr>(
            (
                with_attrs(om_view(o), a),
                after(t, s.i + events_of(tag_pieces(o, c).drop_first()).len()),
            ),
        ),
    decreases o, 2int,
{
    lemma_ctx_ok(c);
    lemma_events_one();
    match o {
        OpenMath::OME { cd, name, cdbase, arguments, .. } => {
            let ci = inner(c);
            let cur = c.current_ns;
            let sym = seq![oms_p(opt_view(cdbase), cd@, name@, cur)];
            let ar = foreigns_pieces(arguments@, ci) + ws_p(opened(c).indent) + seq![
                XmlPiece::Close("OME"@),
            ];
            assert(tag_pieces(o, c).drop_first() =~= ws_p(ci.indent) + (sym + ar));
            let er = events_of(sym + ar);
            assert(er[0] == EventView::Empty(
                xtag("OMS"@, oms_attrs(opt_view(cdbase), cd@, name@, cur)),
            ));
            lemma_ev2(ws_p(ci.indent), sym + ar);
            lemma_skip(t, inp, s, ci.indent, er, cur, seq![]);
            let q = past_ws(t, s, ci.indent);
            lemma_split(t, s.i, ws_p(ci.indent), sym + ar);
            lemma_split(t, q.i, sym, ar);
            lemma_ome_symbol(opt_view(cdbase), cd@, name@, cur);
            lemma_foreigns(arguments@, ci, t, inp, adv(t, q), now, opened(c).indent);
        },
        _ => {},
    }
}

/// The arguments of an OME written in the context `c` read back, up to and
/// including its end tag.
#[verifier::spinoff_prover]
proof fn lemma_foreigns(
    v: Seq<OMMaybeForeign<OpenMath>>,
    c: XmlCtx,
    t: Seq<TokenView>,
    inp: Seq<u8>,
    s: St,
    now: u64,
    w: Option<(bool, Seq<char>)>,
)
    requires
        reads_span(t, inp),
        xforeigns_ok(v, c.current_ns),
        ctx_ok(c),
        indent_ok(w),
        reads_at(t, s.i, events_of(foreigns_pieces(v, c) + ws_p(w) + seq![XmlPiece::Close("OME"@)])),
    ensures
        ome_args(t, inp, s, c.current_ns, now) == Ok::<(Seq<ForeignView>, St), ReadErr>(
            (
                foreigns_view(v),
                after(
                    t,
                    s.i + events_of(foreigns_pieces(v, c) + ws_p(w) + seq![XmlPiece::Close("OME"@)]).len(),
                ),
            ),
        ),
    decreases v, 1int,
{
    lemma_events_one();
    let cl = seq![XmlPiece::Close("OME"@)];
    if v.len() == 0 {
        assert(foreigns_pieces(v, c) + ws_p(w) + cl =~= ws_p(w) + cl);
        let er = events_of(cl);
        assert(er[0] == close_ev("OME"@));
        lemma_ev2(ws_p(w), cl);
        lemma_skip(t, inp, s, w, er, c.current_ns, seq![]);
        assert(foreigns_view(v) =~= Seq::<ForeignView>::empty());
    } else {
        assert(xforeign_ok(v[0], c.current_ns));
        let x = foreign_pieces(v[0], c);
        let r = foreigns_pieces(v.drop_first(), c) + ws_p(w) + cl;
        assert(foreigns_pieces(v, c) + ws_p(w) + cl =~= x + r);
        lemma_split(t, s.i, x, r);
        if v[0] is OM {
            let o = v[0]->OM_0;
            assert(v[0] == OMMaybeForeign::OM(o));
            assert(foreign_pieces(v[0], c) == om_pieces(o, c));
            lemma_pieces_len(o, c);
            lemma_read(o, c, t, inp, s);
        } else {
            lemma_read_foreign(v[0], c, t, inp, s);
        }
        let s2 = next_foreign(t, inp, s, c.current_ns)->Ok_0.1;
        assert(s2.i == s.i + events_of(x).len());
        lemma_foreigns(v.drop_first(), c, t, inp, s2, now, w);
        lemma_foreigns_view_first(v);
    }
}

/// An OMBIND reads back from its reads after the start tag.
#[verifier::spinoff_prover]
#[verifier::rlimit(100)]
proof fn lemma_p_ombind(o: OpenMath, c: XmlCtx, t: Seq<TokenView>, inp: Seq<u8>, s: St, off: u64, a: Seq<AttrView>)
    requires
        reads_span(t, inp),
        o is OMBIND,
        xplain_ok(o, c.current_ns),
        ctx_ok(c),
        reads_at(t, s.i, events_of(tag_pieces(o, c).drop_first())),
    ensures
        p_ombind(t, inp, s, c.current_ns, off, a) == Ok::<(OMView, St), ReadErr>(
            (
                with_attrs(om_view(o), a),
                after(t, s.i + events_of(tag_pieces(o, c).drop_first()).len()),
            ),
        ),
    decreases o, 2int,
{
    lemma_ctx_ok(c);
    match o {
        OpenMath::OMBIND { binder, variables, object, .. } => {
            let ci = inner(c);
            let cur = c.current_ns;
            let bi = om_pieces(*binder, ci);
            let bv = bvar_pieces(variables@, ci);
            let ob = om_pieces(*object, ci);
            let cl = ws_p(opened(c).indent) + seq![XmlPiece::Close("OMBIND"@)];
            assert(tag_pieces(o, c).drop_first() =~= bi + (bv + (ob + cl)));
            lemma_split(t, s.i, bi, bv + (ob + cl));
            let k2 = s.i + events_of(bi).len();
            lemma_split(t, k2, bv, ob + cl);
            let k4 = k2 + events_of(bv).len();
            lemma_split(t, k4, ob, cl);
            lemma_pieces_len(*binder, ci);
            lemma_pieces_len(*object, ci);
            lemma_read(*binder, ci, t, inp, s);
            let s2 = after(t, k2);
            lemma_ombvar(variables@, ci, t, inp, s2);
            let s4 = after(t, k4);
            lemma_read(*object, ci, t, inp, s4);
            let k5 = k4 + events_of(ob).len();
            lemma_need_end(t, after(t, k5), opened(c).indent, "OMBIND"@, inp);
        },
        _ => {},
    }
}

/// The OMBVAR of an OMBIND written in the context `c` reads back: where
/// reading stands after what the writer puts before it, its tag, and the
/// variables with the state after its end.
#[verifier::spinoff_prover]
proof fn lemma_ombvar(v: Seq<BoundVariable>, c: XmlCtx, t: Seq<TokenView>, inp: Seq<u8>, s: St)
    requires
        reads_span(t, inp),
        xvars_ok(v, c.current_ns),
        ctx_ok(c),
        reads_at(t, s.i, events_of(bvar_pieces(v, c))),
    ensures
        skip_ws(t, s) == past_ws(t, s, c.indent),
        v.len() == 0 ==> ev(t, past_ws(t, s, c.indent).i) == Some(
            EventView::Empty(xtag("OMBVAR"@, seq![])),
        ),
        v.len() > 0 ==> ev(t, past_ws(t, s, c.indent).i) == Some(
            EventView::Start(xtag("OMBVAR"@, seq![])),
        ),
        v.len() > 0 ==> bvars(t, inp, adv(t, past_ws(t, s, c.indent)), c.current_ns) == Ok::<
            (Seq<VarView>, St),
            ReadErr,
        >((vars_view(v), after(t, s.i + events_of(bvar_pieces(v, c)).len()))),
        v.len() == 0 ==> adv(t, past_ws(t, s, c.indent)) == after(
            t,
            s.i + events_of(bvar_pieces(v, c)).len(),
        ),
        v.len() == 0 ==> vars_view(v) == Seq::<VarView>::empty(),
        past_ws(t, s, c.indent).i < s.i + events_of(bvar_pieces(v, c)).len(),
    decreases v, 3int,
{
    lemma_ctx_ok(c);
    lemma_events_one();
    let cur = c.current_ns;
    if v.len() == 0 {
        let e = seq![XmlPiece::Empty("OMBVAR"@, seq![])];
        assert(bvar_pieces(v, c) =~= ws_p(c.indent) + e);
        let er = events_of(e);
        assert(attrs_read(seq![]) =~= Seq::<Option<(Seq<u8>, Seq<u8>)>>::empty());
        assert(er[0] == EventView::Empty(xtag("OMBVAR"@, seq![])));
        lemma_ev2(ws_p(c.indent), e);
        lemma_skip(t, inp, s, c.indent, er, cur, seq![]);
        assert(vars_view(v) =~= Seq::<VarView>::empty());
    } else {
        let r = vars_pieces(v, deep(c)) + ws_p(c.indent) + seq![XmlPiece::Close("OMBVAR"@)];
        let rest = seq![open_p("OMBVAR"@)] + r;
        assert(bvar_pieces(v, c) =~= ws_p(c.indent) + rest);
        let er = events_of(rest);
        assert(er[0] == EventView::Start(xtag("OMBVAR"@, seq![])));
        lemma_ev2(ws_p(c.indent), rest);
        lemma_skip(t, inp, s, c.indent, er, cur, seq![]);
        let q = past_ws(t, s, c.indent);
        lemma_split(t, s.i, ws_p(c.indent), rest);
        lemma_split(t, q.i, seq![open_p("OMBVAR"@)], r);
        lemma_vars(v, deep(c), t, inp, adv(t, q), c.indent);
    }
}

/// Bound variables written in the context `c` read back, up to and
/// including the end tag of the OMBVAR.
#[verifier::spinoff_prover]
proof fn lemma_vars(v: Seq<BoundVariable>, c: XmlCtx, t: Seq<TokenView>, inp: Seq<u8>, s: St, w: Option<(bool, Seq<char>)>)
    requires
        reads_span(t, inp),
        xvars_ok(v, c.current_ns),
        ctx_ok(c),
        indent_ok(w),
        reads_at(t, s.i, events_of(vars_pieces(v, c) + ws_p(w) + seq![XmlPiece::Close("OMBVAR"@)])),
    ensures
        bvars(t, inp, s, c.current_ns) == Ok::<(Seq<VarView>, St), ReadErr>(
            (
                vars_view(v),
                after(
                    t,
                    s.i + events_of(vars_pieces(v, c) + ws_p(w) + seq![XmlPiece::Close("OMBVAR"@)]).len(),
                ),
            ),
        ),
    decreases v, 1int,
{
    lemma_events_one();
    let cl = seq![XmlPiece::Close("OMBVAR"@)];
    if v.len() == 0 {
        assert(vars_pieces(v, c) + ws_p(w) + cl =~= ws_p(w) + cl);
        let er = events_of(cl);
        assert(er[0] == close_ev("OMBVAR"@));
        lemma_ev2(ws_p(w), cl);
        lemma_skip(t, inp, s, w, er, c.current_ns, seq![]);
        assert(vars_view(v) =~= Seq::<VarView>::empty());
    } else {
        let x = var_pieces(v[0], c);
        let r = vars_pieces(v.drop_first(), c) + ws_p(w) + cl;
        assert(vars_pieces(v, c) + ws_p(w) + cl =~= x + r);
        lemma_split(t, s.i, x, r);
        lemma_var(v[0], c, t, inp, s);
        let s2 = after(t, s.i + events_of(x).len());
        lemma_vars(v.drop_first(), c, t, inp, s2, w);
        lemma_vars_view_first(v);
    }
}

/// A bound variable reads back.
proof fn lemma_var(v: BoundVariable, c: XmlCtx, t: Seq<TokenView>, inp: Seq<u8>, s: St)
    requires
        reads_span(t, inp),
        xpairs_ok(v.attributes@, c.current_ns),
        ctx_ok(c),
        reads_at(t, s.i, events_of(var_pieces(v, c))),
    ensures
        omattr_or_var(t, inp, s, c.current_ns, seq![]) == Ok::<(Option<VarView>, St), ReadErr>(
            (Some(var_view(v)), after(t, s.i + events_of(var_pieces(v, c)).len())),
        ),
        events_of(var_pieces(v, c)).len() > 0,
    decreases v, 2int,
{
    if v.attributes@.len() == 0 {
        lemma_plain_var(v.name@, c.indent, t, inp, s, c.current_ns, seq![]);
        assert(attrs_view(v.attributes@) =~= Seq::<AttrView>::empty());
    } else {
        lemma_attributed_var(v, c, t, inp, s);
    }
}

/// An OMV reads back as a bound variable with the attributes `a`.
#[verifier::spinoff_prover]
proof fn lemma_plain_var(
    name: Seq<char>,
    i: Option<(bool, Seq<char>)>,
    t: Seq<TokenView>,
    inp: Seq<u8>,
    s: St,
    cur: Seq<char>,
    a: Seq<AttrView>,
)
    requires
        reads_span(t, inp),
        indent_ok(i),
        reads_at(t, s.i, events_of(ws_p(i) + seq![omv_p(name)])),
    ensures
        omattr_or_var(t, inp, s, cur, a) == Ok::<(Option<VarView>, St), ReadErr>(
            (Some(VarView { name, attrs: a }), after(t, s.i + events_of(ws_p(i) + seq![omv_p(name)]).len())),
        ),
        events_of(ws_p(i) + seq![omv_p(name)]).len() > 0,
{
    lemma_names();
    lemma_events_one();
    let er = events_of(seq![omv_p(name)]);
    lemma_ev2(ws_p(i), seq![omv_p(name)]);
    lemma_skip(t, inp, s, i, er, cur, a);
    lemma_p_omv(name, a);
}

/// A bound variable with attributes reads back from its OMATTR.
#[verifier::spinoff_prover]
#[verifier::rlimit(100)]
proof fn lemma_attributed_var(v: BoundVariable, c: XmlCtx, t: Seq<TokenView>, inp: Seq<u8>, s: St)
    requires
        reads_span(t, inp),
        xpairs_ok(v.attributes@, c.current_ns),
        ctx_ok(c),
        v.attributes@.len() > 0,
        reads_at(t, s.i, events_of(var_pieces(v, c))),
    ensures
        omattr_or_var(t, inp, s, c.current_ns, seq![]) == Ok::<(Option<VarView>, St), ReadErr>(
            (Some(var_view(v)), after(t, s.i + events_of(var_pieces(v, c)).len())),
        ),
        events_of(var_pieces(v, c)).len() > 0,
    decreases v, 1int,
{
    lemma_names();
    lemma_ctx_ok(c);
    lemma_events_one();
    let a = v.attributes@;
    let ci = inner(c);
    let cur = c.current_ns;
    let tp = ws_p(ci.indent) + seq![open_p("OMATP"@)] + pair_pieces(a, deep(ci)) + ws_p(ci.indent)
        + seq![XmlPiece::Close("OMATP"@)];
    let vp = ws_p(ci.indent) + seq![omv_p(v.name@)];
    let cl = ws_p(opened(c).indent) + seq![XmlPiece::Close("OMATTR"@)];
    let rest = seq![open_p("OMATTR"@)] + (tp + (vp + cl));
    assert(var_pieces(v, c) =~= ws_p(c.indent) + rest);
    let er = events_of(rest);
    assert(er[0] == EventView::Start(xtag("OMATTR"@, seq![])));
    lemma_ev2(ws_p(c.indent), rest);
    lemma_skip(t, inp, s, c.indent, er, cur, seq![]);
    let q = past_ws(t, s, c.indent);
    lemma_split(t, s.i, ws_p(c.indent), rest);
    lemma_split(t, q.i, seq![open_p("OMATTR"@)], tp + (vp + cl));
    let s1 = adv(t, q);
    lemma_split(t, s1.i, tp, vp + cl);
    let k2 = s1.i + events_of(tp).len();
    lemma_split(t, k2, vp, cl);
    assert(get_attr(Seq::<Option<(Seq<u8>, Seq<u8>)>>::empty(), ascii("cdbase"@)) is None);
    lemma_omatp(a, c, t, inp, s1, seq![]);
    assert(Seq::<AttrView>::empty() + attrs_view(a) =~= attrs_view(a));
    let s2 = after(t, k2);
    lemma_plain_var(v.name@, ci.indent, t, inp, s2, cur, attrs_view(a));
    let k3 = k2 + events_of(vp).len();
    lemma_need_end(t, after(t, k3), opened(c).indent, "OMATTR"@, inp);
}

/// Reading back the XML of an object gives the object. The text that the
/// writer writes of an object at the top, without a cdbase, pretty-printed
/// or not, is the text of the object's pieces one after the other. Where the
/// reads of the XML reader over the input `inp` are the reads of those pieces,
/// stand within `inp`, and every text read and every read of a tag without
/// attributes spans its own bytes of `inp` ([`reads_span`]), the reader returns the object
/// written, for every object whose integers are in the form they are read in,
/// whose floats are float texts, whose symbols declare their cdbase, whose
/// attribute keys and error symbols declare none or one other than
/// [`OPENMATH_BASE_URI`], and whose OMFOREIGN values are character data that
/// is empty or starts and ends with a character other than ASCII whitespace,
/// or markup of tags without
/// attributes and texts ([`xml_ok`], [`foreign_value_ok`], [`markup`]); an
/// OMFOREIGN value that is markup is written as the pieces of that markup.
pub proof fn lemma_xml_roundtrip(o: OpenMath, pretty: bool, t: Seq<TokenView>, inp: Seq<u8>)
    requires
        reads_span(t, inp),
        xml_ok(o, OPENMATH_BASE_URI@),
        reads_at(t, 0, events_of(om_pieces(o, top_ctx(pretty, None)))),
    ensures
        text_of(om_pieces(o, top_ctx(pretty, None))) == xml_om(o, top_ctx(pretty, None)),
        read_om(t, inp, St { i: 0, now: 0 }, CD_BASE@) == Ok::<OMView, ReadErr>(om_view(o)),
{
    let c = top_ctx(pretty, None);
    lemma_xml_written(o, c);
    assert(CD_BASE@ == OPENMATH_BASE_URI@);
    assert(ctx_ok(c));
    lemma_read(o, c, t, inp, St { i: 0, now: 0 });
}

/// The reads of the start tag of an OMOBJ.
proof fn lemma_omobj_tag(insert_namespace: bool)
    ensures
        get_attr(attrs_read(omobj_pattrs(insert_namespace)), ascii("cdbase"@)) is None,
{
    lemma_names();
    reveal_with_fuel(get_attr, 3);
    let a = attrs_read(omobj_pattrs(insert_namespace));
    if insert_namespace {
        assert(a =~= seq![xattr("version"@, "2.0"@), xattr("xmlns"@, XML_NAMESPACE@)]);
        assert(a.drop_first() =~= seq![xattr("xmlns"@, XML_NAMESPACE@)]);
        assert(a.drop_first().drop_first() =~= Seq::<Option<(Seq<u8>, Seq<u8>)>>::empty());
    } else {
        assert(a =~= seq![xattr("version"@, "2.0"@)]);
        assert(a.drop_first() =~= Seq::<Option<(Seq<u8>, Seq<u8>)>>::empty());
    }
}

/// Reading back the XML of the OMOBJ around an object gives the object. The
/// text that the writer writes of the OMOBJ around an object, without a
/// cdbase, pretty-printed or not, with the namespace declared or not, is the
/// text of its pieces one after the other; where the reads of the XML reader
/// are the reads of those pieces and span their bytes of the input as in
/// [`lemma_xml_roundtrip`], the reader returns the object written, for the
/// same objects.
pub proof fn lemma_xml_omobj_roundtrip(
    o: OpenMath,
    pretty: bool,
    insert_namespace: bool,
    t: Seq<TokenView>,
    inp: Seq<u8>,
)
    requires
        reads_span(t, inp),
        xml_ok(o, OPENMATH_BASE_URI@),
        reads_at(t, 0, events_of(omobj_pieces(o, pretty, insert_namespace))),
    ensures
        text_of(omobj_pieces(o, pretty, insert_namespace)) == xml_omobj(o, pretty, insert_namespace, None),
        read_obj(t, inp, St { i: 0, now: 0 }) == Ok::<OMView, ReadErr>(om_view(o)),
{
    lemma_xml_omobj_written(o, pretty, insert_namespace);
    assert(CD_BASE@ == OPENMATH_BASE_URI@);
    let c = obj_ctx(pretty, OPENMATH_BASE_URI@);
    assert(ctx_ok(c));
    let open = seq![XmlPiece::Open("OMOBJ"@, omobj_pattrs(insert_namespace))];
    let p = om_pieces(o, c);
    let nl = if pretty {
        seq![XmlPiece::Text(seq!['\n'])]
    } else {
        Seq::<XmlPiece>::empty()
    };
    let rest = nl + seq![XmlPiece::Close("OMOBJ"@)];
    assert(omobj_pieces(o, pretty, insert_namespace) =~= open + (p + rest));
    lemma_split(t, 0, open, p + rest);
    lemma_split(t, 1, p, rest);
    lemma_ev1(open[0]);
    lemma_reads_first(t, 0, events_of(open));
    lemma_omobj_tag(insert_namespace);
    lemma_read(o, c, t, inp, adv(t, St { i: 0, now: 0 }));
}

/// Whether an attribute is the `hex` or the `dec` of an OMF.
pub open spec fn is_float_key(a: Option<(Seq<u8>, Seq<u8>)>) -> bool {
    a matches Some((k, _)) && (k == ascii("hex"@) || k == ascii("dec"@))
}

/// The first `hex` or `dec` among attributes decides.
proof fn lemma_float_attr_at(a: Seq<Option<(Seq<u8>, Seq<u8>)>>, i: int)
    requires
        0 <= i < a.len(),
        is_float_key(a[i]),
        forall|j: int| 0 <= j < i ==> !is_float_key(#[trigger] a[j]),
    ensures
        float_attr(a) == (if a[i]->Some_0.0 == ascii("hex"@) {
            Some(None::<Seq<u8>>)
        } else {
            Some(Some(a[i]->Some_0.1))
        }),
    decreases i,
{
    if i > 0 {
        let r = a.drop_first();
        assert(!is_float_key(a[0]));
        assert forall|j: int| 0 <= j < i - 1 implies !is_float_key(#[trigger] r[j]) by {
            assert(r[j] == a[j + 1]);
        }
        assert(r[i - 1] == a[i]);
        lemma_float_attr_at(r, i - 1);
    }
}

/// Where an OMF has no `hex` or `dec`, its float is missing.
proof fn lemma_float_attr_none(a: Seq<Option<(Seq<u8>, Seq<u8>)>>)
    requires
        forall|j: int| 0 <= j < a.len() ==> !is_float_key(#[trigger] a[j]),
    ensures
        float_attr(a) is None,
    decreases a.len(),
{
    if a.len() > 0 {
        let r = a.drop_first();
        assert(!is_float_key(a[0]));
        assert forall|j: int| 0 <= j < r.len() implies !is_float_key(#[trigger] r[j]) by {
            assert(r[j] == a[j + 1]);
        }
        lemma_float_attr_none(r);
    }
}

/// An OMF tag reads as the float of its first `dec` attribute, whatever
/// other attributes stand before it, where no `hex` comes first and the
/// value is a float text; the OMF takes the attributes it was handed.
pub proof fn lemma_omf_dec(g: TagView, i: int, v: Seq<u8>, s: Seq<char>, attrs: Seq<AttrView>)
    requires
        0 <= i < g.attrs.len(),
        g.attrs[i] == Some((ascii("dec"@), v)),
        forall|j: int| 0 <= j < i ==> !is_float_key(#[trigger] g.attrs[j]),
        utf8(v) == Some(s),
        is_float_text(s),
    ensures
        p_omf(g, attrs) == Ok::<OMView, ReadErr>(OMView::OMF { float: s, attrs }),
{
    lemma_names_float();
    lemma_float_attr_at(g.attrs, i);
}

/// An OMF tag whose first `hex` or `dec` attribute is `hex` reads as the
/// error that hexadecimal floats are not supported.
pub proof fn lemma_omf_hex(g: TagView, i: int, v: Seq<u8>, attrs: Seq<AttrView>)
    requires
        0 <= i < g.attrs.len(),
        g.attrs[i] == Some((ascii("hex"@), v)),
        forall|j: int| 0 <= j < i ==> !is_float_key(#[trigger] g.attrs[j]),
    ensures
        p_omf(g, attrs) == Err::<OMView, ReadErr>(ReadErr::Hex),
{
    lemma_float_attr_at(g.attrs, i);
}

/// An OMF tag with neither `hex` nor `dec` reads as a missing `dec`.
pub proof fn lemma_omf_missing(g: TagView, attrs: Seq<AttrView>)
    requires
        forall|j: int| 0 <= j < g.attrs.len() ==> !is_float_key(#[trigger] g.attrs[j]),
    ensures
        p_omf(g, attrs) == Err::<OMView, ReadErr>(ReadErr::ExpectedAttribute("dec"@)),
{
    lemma_float_attr_none(g.attrs);
}

/// The bytes of `hex` and `dec` differ.
proof fn lemma_names_float()
    ensures
        ascii("dec"@) != ascii("hex"@),
{
    reveal_strlit("dec");
    reveal_strlit("hex");
    assert(ascii("dec"@)[0] != ascii("hex"@)[0]);
}

} // verus!
