//! What the JSON encoding promises: reading back the JSON value of an object
//! gives the object.
use vstd::prelude::*;

use crate::base64::{
    all_ok, decoded, encode, lemma_decode_encode, lemma_encode_shape, sextet, Error as Base64Error, PAD,
};
use crate::de::grammar::collect_bytes;
use crate::integer::{int_text, parse_int};
use crate::json::enc::{
    enc, enc_args, enc_foreign, enc_foreigns, enc_pairs, enc_plain, enc_var, enc_vars, kind_member,
    oms_json, omv_json, omattr_json,
};
use crate::json::enc::omobj_json;
use crate::json::spec::{
    dec_omobj, omobj_bad_key_from,
    bad_key_from, field, field_from, str_at, dec_symbol, dec_attributes, checked_kind, scoped,
    dec_foreign, dec_foreigns, dec_list, dec_om, dec_pair, dec_pairs, dec_var, dec_vars,
};
use crate::json::{JErr, JsonView};
use crate::kind::OMKind;
use crate::om::{
    attr_view, attributes_of, attrs_view, foreign_view, foreigns_view, om_view, oms_view,
    opt_view, var_view, vars_view, Attr, AttrView, BoundVariable, ForeignView, OMMaybeForeign,
    OMView, OpenMath, VarView,
};
use crate::text::is_float_text;
use crate::OPENMATH_BASE_URI;

verus! {

/// The keys of OpenMath objects in JSON are distinct.
pub proof fn lemma_keys_distinct()
    ensures
        "kind"@ != "id"@,
        "kind"@ != "cdbase"@,
        "kind"@ != "integer"@,
        "kind"@ != "decimal"@,
        "kind"@ != "hexadecimal"@,
        "kind"@ != "float"@,
        "kind"@ != "string"@,
        "kind"@ != "bytes"@,
        "kind"@ != "base64"@,
        "kind"@ != "name"@,
        "kind"@ != "cd"@,
        "kind"@ != "encoding"@,
        "kind"@ != "foreign"@,
        "kind"@ != "error"@,
        "kind"@ != "arguments"@,
        "kind"@ != "applicant"@,
        "kind"@ != "binder"@,
        "kind"@ != "variables"@,
        "kind"@ != "object"@,
        "kind"@ != "attributes"@,
        "kind"@ != "openmath"@,
        "id"@ != "cdbase"@,
        "id"@ != "integer"@,
        "id"@ != "decimal"@,
        "id"@ != "hexadecimal"@,
        "id"@ != "float"@,
        "id"@ != "string"@,
        "id"@ != "bytes"@,
        "id"@ != "base64"@,
        "id"@ != "name"@,
        "id"@ != "cd"@,
        "id"@ != "encoding"@,
        "id"@ != "foreign"@,
        "id"@ != "error"@,
        "id"@ != "arguments"@,
        "id"@ != "applicant"@,
        "id"@ != "binder"@,
        "id"@ != "variables"@,
        "id"@ != "object"@,
        "id"@ != "attributes"@,
        "id"@ != "openmath"@,
        "cdbase"@ != "integer"@,
        "cdbase"@ != "decimal"@,
        "cdbase"@ != "hexadecimal"@,
        "cdbase"@ != "float"@,
        "cdbase"@ != "string"@,
        "cdbase"@ != "bytes"@,
        "cdbase"@ != "base64"@,
        "cdbase"@ != "name"@,
        "cdbase"@ != "cd"@,
        "cdbase"@ != "encoding"@,
        "cdbase"@ != "foreign"@,
        "cdbase"@ != "error"@,
        "cdbase"@ != "arguments"@,
        "cdbase"@ != "applicant"@,
        "cdbase"@ != "binder"@,
        "cdbase"@ != "variables"@,
        "cdbase"@ != "object"@,
        "cdbase"@ != "attributes"@,
        "cdbase"@ != "openmath"@,
        "integer"@ != "decimal"@,
        "integer"@ != "hexadecimal"@,
        "integer"@ != "float"@,
        "integer"@ != "string"@,
        "integer"@ != "bytes"@,
        "integer"@ != "base64"@,
        "integer"@ != "name"@,
        "integer"@ != "cd"@,
        "integer"@ != "encoding"@,
        "integer"@ != "foreign"@,
        "integer"@ != "error"@,
        "integer"@ != "arguments"@,
        "integer"@ != "applicant"@,
        "integer"@ != "binder"@,
        "integer"@ != "variables"@,
        "integer"@ != "object"@,
        "integer"@ != "attributes"@,
        "integer"@ != "openmath"@,
        "decimal"@ != "hexadecimal"@,
        "decimal"@ != "float"@,
        "decimal"@ != "string"@,
        "decimal"@ != "bytes"@,
        "decimal"@ != "base64"@,
        "decimal"@ != "name"@,
        "decimal"@ != "cd"@,
        "decimal"@ != "encoding"@,
        "decimal"@ != "foreign"@,
        "decimal"@ != "error"@,
        "decimal"@ != "arguments"@,
        "decimal"@ != "applicant"@,
        "decimal"@ != "binder"@,
        "decimal"@ != "variables"@,
        "decimal"@ != "object"@,
        "decimal"@ != "attributes"@,
        "decimal"@ != "openmath"@,
        "hexadecimal"@ != "float"@,
        "hexadecimal"@ != "string"@,
        "hexadecimal"@ != "bytes"@,
        "hexadecimal"@ != "base64"@,
        "hexadecimal"@ != "name"@,
        "hexadecimal"@ != "cd"@,
        "hexadecimal"@ != "encoding"@,
        "hexadecimal"@ != "foreign"@,
        "hexadecimal"@ != "error"@,
        "hexadecimal"@ != "arguments"@,
        "hexadecimal"@ != "applicant"@,
        "hexadecimal"@ != "binder"@,
        "hexadecimal"@ != "variables"@,
        "hexadecimal"@ != "object"@,
        "hexadecimal"@ != "attributes"@,
        "hexadecimal"@ != "openmath"@,
        "float"@ != "string"@,
        "float"@ != "bytes"@,
        "float"@ != "base64"@,
        "float"@ != "name"@,
        "float"@ != "cd"@,
        "float"@ != "encoding"@,
        "float"@ != "foreign"@,
        "float"@ != "error"@,
        "float"@ != "arguments"@,
        "float"@ != "applicant"@,
        "float"@ != "binder"@,
        "float"@ != "variables"@,
        "float"@ != "object"@,
        "float"@ != "attributes"@,
        "float"@ != "openmath"@,
        "string"@ != "bytes"@,
        "string"@ != "base64"@,
        "string"@ != "name"@,
        "string"@ != "cd"@,
        "string"@ != "encoding"@,
        "string"@ != "foreign"@,
        "string"@ != "error"@,
        "string"@ != "arguments"@,
        "string"@ != "applicant"@,
        "string"@ != "binder"@,
        "string"@ != "variables"@,
        "string"@ != "object"@,
        "string"@ != "attributes"@,
        "string"@ != "openmath"@,
        "bytes"@ != "base64"@,
        "bytes"@ != "name"@,
        "bytes"@ != "cd"@,
        "bytes"@ != "encoding"@,
        "bytes"@ != "foreign"@,
        "bytes"@ != "error"@,
        "bytes"@ != "arguments"@,
        "bytes"@ != "applicant"@,
        "bytes"@ != "binder"@,
        "bytes"@ != "variables"@,
        "bytes"@ != "object"@,
        "bytes"@ != "attributes"@,
        "bytes"@ != "openmath"@,
        "base64"@ != "name"@,
        "base64"@ != "cd"@,
        "base64"@ != "encoding"@,
        "base64"@ != "foreign"@,
        "base64"@ != "error"@,
        "base64"@ != "arguments"@,
        "base64"@ != "applicant"@,
        "base64"@ != "binder"@,
        "base64"@ != "variables"@,
        "base64"@ != "object"@,
        "base64"@ != "attributes"@,
        "base64"@ != "openmath"@,
        "name"@ != "cd"@,
        "name"@ != "encoding"@,
        "name"@ != "foreign"@,
        "name"@ != "error"@,
        "name"@ != "arguments"@,
        "name"@ != "applicant"@,
        "name"@ != "binder"@,
        "name"@ != "variables"@,
        "name"@ != "object"@,
        "name"@ != "attributes"@,
        "name"@ != "openmath"@,
        "cd"@ != "encoding"@,
        "cd"@ != "foreign"@,
        "cd"@ != "error"@,
        "cd"@ != "arguments"@,
        "cd"@ != "applicant"@,
        "cd"@ != "binder"@,
        "cd"@ != "variables"@,
        "cd"@ != "object"@,
        "cd"@ != "attributes"@,
        "cd"@ != "openmath"@,
        "encoding"@ != "foreign"@,
        "encoding"@ != "error"@,
        "encoding"@ != "arguments"@,
        "encoding"@ != "applicant"@,
        "encoding"@ != "binder"@,
        "encoding"@ != "variables"@,
        "encoding"@ != "object"@,
        "encoding"@ != "attributes"@,
        "encoding"@ != "openmath"@,
        "foreign"@ != "error"@,
        "foreign"@ != "arguments"@,
        "foreign"@ != "applicant"@,
        "foreign"@ != "binder"@,
        "foreign"@ != "variables"@,
        "foreign"@ != "object"@,
        "foreign"@ != "attributes"@,
        "foreign"@ != "openmath"@,
        "error"@ != "arguments"@,
        "error"@ != "applicant"@,
        "error"@ != "binder"@,
        "error"@ != "variables"@,
        "error"@ != "object"@,
        "error"@ != "attributes"@,
        "error"@ != "openmath"@,
        "arguments"@ != "applicant"@,
        "arguments"@ != "binder"@,
        "arguments"@ != "variables"@,
        "arguments"@ != "object"@,
        "arguments"@ != "attributes"@,
        "arguments"@ != "openmath"@,
        "applicant"@ != "binder"@,
        "applicant"@ != "variables"@,
        "applicant"@ != "object"@,
        "applicant"@ != "attributes"@,
        "applicant"@ != "openmath"@,
        "binder"@ != "variables"@,
        "binder"@ != "object"@,
        "binder"@ != "attributes"@,
        "binder"@ != "openmath"@,
        "variables"@ != "object"@,
        "variables"@ != "attributes"@,
        "variables"@ != "openmath"@,
        "object"@ != "attributes"@,
        "object"@ != "openmath"@,
        "attributes"@ != "openmath"@,
{
    reveal_strlit("kind");
    reveal_strlit("id");
    reveal_strlit("cdbase");
    reveal_strlit("integer");
    reveal_strlit("decimal");
    reveal_strlit("hexadecimal");
    reveal_strlit("float");
    reveal_strlit("string");
    reveal_strlit("bytes");
    reveal_strlit("base64");
    reveal_strlit("name");
    reveal_strlit("cd");
    reveal_strlit("encoding");
    reveal_strlit("foreign");
    reveal_strlit("error");
    reveal_strlit("arguments");
    reveal_strlit("applicant");
    reveal_strlit("binder");
    reveal_strlit("variables");
    reveal_strlit("object");
    reveal_strlit("attributes");
    reveal_strlit("openmath");
    assert("kind"@.len() == 4);
    assert("id"@.len() == 2);
    assert("cdbase"@.len() == 6);
    assert("integer"@.len() == 7);
    assert("decimal"@.len() == 7);
    assert("hexadecimal"@.len() == 11);
    assert("float"@.len() == 5);
    assert("string"@.len() == 6);
    assert("bytes"@.len() == 5);
    assert("base64"@.len() == 6);
    assert("name"@.len() == 4);
    assert("cd"@.len() == 2);
    assert("encoding"@.len() == 8);
    assert("foreign"@.len() == 7);
    assert("error"@.len() == 5);
    assert("arguments"@.len() == 9);
    assert("applicant"@.len() == 9);
    assert("binder"@.len() == 6);
    assert("variables"@.len() == 9);
    assert("object"@.len() == 6);
    assert("attributes"@.len() == 10);
    assert("openmath"@.len() == 8);
    assert("applicant"@[0] == 'a');
    assert("applicant"@[1] == 'p');
    assert("arguments"@[0] == 'a');
    assert("arguments"@[1] == 'r');
    assert("base64"@[0] == 'b');
    assert("base64"@[1] == 'a');
    assert("binder"@[0] == 'b');
    assert("binder"@[1] == 'i');
    assert("bytes"@[0] == 'b');
    assert("cd"@[0] == 'c');
    assert("cdbase"@[0] == 'c');
    assert("decimal"@[0] == 'd');
    assert("encoding"@[0] == 'e');
    assert("error"@[0] == 'e');
    assert("float"@[0] == 'f');
    assert("foreign"@[0] == 'f');
    assert("id"@[0] == 'i');
    assert("integer"@[0] == 'i');
    assert("kind"@[0] == 'k');
    assert("name"@[0] == 'n');
    assert("object"@[0] == 'o');
    assert("openmath"@[0] == 'o');
    assert("string"@[0] == 's');
    assert("variables"@[0] == 'v');
}

/// The names of the kinds are distinct.
pub proof fn lemma_kinds_distinct()
    ensures
        "OMI"@ != "OMF"@,
        "OMI"@ != "OMSTR"@,
        "OMI"@ != "OMB"@,
        "OMI"@ != "OMV"@,
        "OMI"@ != "OMS"@,
        "OMI"@ != "OMA"@,
        "OMI"@ != "OMBIND"@,
        "OMI"@ != "OME"@,
        "OMI"@ != "OMATTR"@,
        "OMI"@ != "OMFOREIGN"@,
        "OMI"@ != "OMR"@,
        "OMF"@ != "OMSTR"@,
        "OMF"@ != "OMB"@,
        "OMF"@ != "OMV"@,
        "OMF"@ != "OMS"@,
        "OMF"@ != "OMA"@,
        "OMF"@ != "OMBIND"@,
        "OMF"@ != "OME"@,
        "OMF"@ != "OMATTR"@,
        "OMF"@ != "OMFOREIGN"@,
        "OMF"@ != "OMR"@,
        "OMSTR"@ != "OMB"@,
        "OMSTR"@ != "OMV"@,
        "OMSTR"@ != "OMS"@,
        "OMSTR"@ != "OMA"@,
        "OMSTR"@ != "OMBIND"@,
        "OMSTR"@ != "OME"@,
        "OMSTR"@ != "OMATTR"@,
        "OMSTR"@ != "OMFOREIGN"@,
        "OMSTR"@ != "OMR"@,
        "OMB"@ != "OMV"@,
        "OMB"@ != "OMS"@,
        "OMB"@ != "OMA"@,
        "OMB"@ != "OMBIND"@,
        "OMB"@ != "OME"@,
        "OMB"@ != "OMATTR"@,
        "OMB"@ != "OMFOREIGN"@,
        "OMB"@ != "OMR"@,
        "OMV"@ != "OMS"@,
        "OMV"@ != "OMA"@,
        "OMV"@ != "OMBIND"@,
        "OMV"@ != "OME"@,
        "OMV"@ != "OMATTR"@,
        "OMV"@ != "OMFOREIGN"@,
        "OMV"@ != "OMR"@,
        "OMS"@ != "OMA"@,
        "OMS"@ != "OMBIND"@,
        "OMS"@ != "OME"@,
        "OMS"@ != "OMATTR"@,
        "OMS"@ != "OMFOREIGN"@,
        "OMS"@ != "OMR"@,
        "OMA"@ != "OMBIND"@,
        "OMA"@ != "OME"@,
        "OMA"@ != "OMATTR"@,
        "OMA"@ != "OMFOREIGN"@,
        "OMA"@ != "OMR"@,
        "OMBIND"@ != "OME"@,
        "OMBIND"@ != "OMATTR"@,
        "OMBIND"@ != "OMFOREIGN"@,
        "OMBIND"@ != "OMR"@,
        "OME"@ != "OMATTR"@,
        "OME"@ != "OMFOREIGN"@,
        "OME"@ != "OMR"@,
        "OMATTR"@ != "OMFOREIGN"@,
        "OMATTR"@ != "OMR"@,
        "OMFOREIGN"@ != "OMR"@,
{
    reveal_strlit("OMI");
    reveal_strlit("OMF");
    reveal_strlit("OMSTR");
    reveal_strlit("OMB");
    reveal_strlit("OMV");
    reveal_strlit("OMS");
    reveal_strlit("OMA");
    reveal_strlit("OMBIND");
    reveal_strlit("OME");
    reveal_strlit("OMATTR");
    reveal_strlit("OMFOREIGN");
    reveal_strlit("OMR");
    assert("OMI"@.len() == 3);
    assert("OMF"@.len() == 3);
    assert("OMSTR"@.len() == 5);
    assert("OMB"@.len() == 3);
    assert("OMV"@.len() == 3);
    assert("OMS"@.len() == 3);
    assert("OMA"@.len() == 3);
    assert("OMBIND"@.len() == 6);
    assert("OME"@.len() == 3);
    assert("OMATTR"@.len() == 6);
    assert("OMFOREIGN"@.len() == 9);
    assert("OMR"@.len() == 3);
    assert("OMA"@[2] == 'A');
    assert("OMATTR"@[2] == 'A');
    assert("OMB"@[2] == 'B');
    assert("OMBIND"@[2] == 'B');
    assert("OME"@[2] == 'E');
    assert("OMF"@[2] == 'F');
    assert("OMI"@[2] == 'I');
    assert("OMR"@[2] == 'R');
    assert("OMS"@[2] == 'S');
    assert("OMV"@[2] == 'V');
}
/// Collecting bytes that are all `Ok` gives the bytes.
proof fn lemma_collect_ok(x: Seq<u8>)
    ensures
        collect_bytes(all_ok(x)) == Ok::<Seq<u8>, Base64Error>(x),
    decreases x.len(),
{
    if x.len() > 0 {
        let t = x.drop_first();
        lemma_collect_ok(t);
        let n = all_ok(x);
        assert(n[0] == Ok::<u8, Base64Error>(x[0]));
        assert(n.drop_first() =~= all_ok(t));
        assert(seq![x[0]] + t =~= x);
    } else {
        assert(x =~= Seq::<u8>::empty());
    }
}

/// Decoding the base64 text of bytes gives the bytes.
pub proof fn lemma_base64_roundtrip(x: Seq<u8>)
    ensures
        collect_bytes(decoded(vstd::utf8::encode_utf8(encode(x).map_values(|b: u8| b as char)))) == Ok::<
            Seq<u8>,
            Base64Error,
        >(x),
{
    let e = encode(x);
    let cs = e.map_values(|b: u8| b as char);
    lemma_encode_shape(x);
    assert forall|i: int| 0 <= i < cs.len() implies '\0' <= #[trigger] cs[i] <= '\u{7f}' by {
        assert(cs[i] == e[i] as char);
        assert(e[i] == PAD || sextet(e[i]) is Some);
        assert(e[i] < 128) by {
            reveal(sextet);
        }
    }
    assert(vstd::utf8::is_ascii_chars(cs));
    vstd::utf8::is_ascii_chars_encode_utf8(cs);
    assert(vstd::utf8::encode_utf8(cs) =~= e);
    lemma_decode_encode(x);
    lemma_collect_ok(x);
}


/// Whether an object reads back from its JSON value as itself, in the scope
/// of the cdbase `cur`: its attributes and what it holds do.
pub open spec fn json_ok(o: OpenMath, cur: Seq<char>) -> bool
    decreases o, 1int,
{
    pairs_ok(attributes_of(o)@, cur) && plain_ok(o, cur)
}

/// What an object holds reads back: integers are in the form they are read
/// in, floats are float texts, symbols declare their cdbase, error symbols declare none or one other than `cur`,
/// and the objects inside read back.
pub open spec fn plain_ok(o: OpenMath, cur: Seq<char>) -> bool
    decreases o, 0int,
{
    match o {
        OpenMath::OMI { int: i, .. } => parse_int(int_text(i@)) == Some(i@),
        OpenMath::OMF { float, .. } => is_float_text(float@),
        OpenMath::OMSTR { .. } => true,
        OpenMath::OMB { .. } => true,
        OpenMath::OMV { .. } => true,
        OpenMath::OMS { cdbase, .. } => cdbase is Some,
        OpenMath::OMA { applicant, arguments, .. } => json_ok(*applicant, cur) && args_ok(
            arguments@,
            cur,
        ),
        OpenMath::OME { cdbase, arguments, .. } => opt_view(cdbase) != Some(cur) && foreigns_ok(
            arguments@,
            cur,
        ),
        OpenMath::OMBIND { binder, variables, object, .. } => json_ok(*binder, cur) && vars_ok(
            variables@,
            cur,
        ) && json_ok(*object, cur),
    }
}

/// An object or OMFOREIGN reads back.
pub open spec fn foreign_ok(f: OMMaybeForeign<OpenMath>, cur: Seq<char>) -> bool
    decreases f, 1int,
{
    match f {
        OMMaybeForeign::OM(o) => json_ok(o, cur),
        OMMaybeForeign::Foreign { .. } => true,
    }
}

/// Attributes read back: their keys declare no cdbase or one other than
/// `cur`, and their values read back.
pub open spec fn pairs_ok(s: Seq<Attr<OMMaybeForeign<OpenMath>>>, cur: Seq<char>) -> bool
    decreases s, 1int,
{
    if s.len() == 0 {
        true
    } else {
        pairs_ok(s.drop_last(), cur) && opt_view(s.last().cdbase) != Some(cur) && foreign_ok(
            s.last().value,
            cur,
        )
    }
}

/// Objects read back.
pub open spec fn args_ok(s: Seq<OpenMath>, cur: Seq<char>) -> bool
    decreases s, 1int,
{
    if s.len() == 0 {
        true
    } else {
        args_ok(s.drop_last(), cur) && json_ok(s.last(), cur)
    }
}

/// Objects and OMFOREIGNs read back.
pub open spec fn foreigns_ok(s: Seq<OMMaybeForeign<OpenMath>>, cur: Seq<char>) -> bool
    decreases s, 1int,
{
    if s.len() == 0 {
        true
    } else {
        foreigns_ok(s.drop_last(), cur) && foreign_ok(s.last(), cur)
    }
}

/// Bound variables read back: their attributes do.
pub open spec fn vars_ok(s: Seq<BoundVariable>, cur: Seq<char>) -> bool
    decreases s, 1int,
{
    if s.len() == 0 {
        true
    } else {
        vars_ok(s.drop_last(), cur) && pairs_ok(s.last().attributes@, cur)
    }
}

/// The view of an object with other attributes.
pub open spec fn with_attrs(v: OMView, a: Seq<AttrView>) -> OMView {
    match v {
        OMView::OMI { integer, .. } => OMView::OMI { integer, attrs: a },
        OMView::OMF { float, .. } => OMView::OMF { float, attrs: a },
        OMView::OMSTR { string, .. } => OMView::OMSTR { string, attrs: a },
        OMView::OMB { bytes, .. } => OMView::OMB { bytes, attrs: a },
        OMView::OMV { name, .. } => OMView::OMV { name, attrs: a },
        OMView::OMS { cd, name, cdbase, .. } => OMView::OMS { cd, name, cdbase, attrs: a },
        OMView::OMA { applicant, arguments, .. } => OMView::OMA { applicant, arguments, attrs: a },
        OMView::OME { cd, name, cdbase, arguments, .. } => OMView::OME {
            cd,
            name,
            cdbase,
            arguments,
            attrs: a,
        },
        OMView::OMBIND { binder, variables, object, .. } => OMView::OMBIND {
            binder,
            variables,
            object,
            attrs: a,
        },
    }
}

/// The object of an attribute's key-value pair in JSON.
pub open spec fn pair_json(a: Attr<OMMaybeForeign<OpenMath>>, cur: Seq<char>) -> JsonView {
    JsonView::Array(
        seq![oms_json(opt_view(a.cdbase), a.cd@, a.name@, cur), enc_foreign(a.value, cur)],
    )
}

proof fn lemma_enc_pairs_index(s: Seq<Attr<OMMaybeForeign<OpenMath>>>, cur: Seq<char>)
    ensures
        enc_pairs(s, cur).len() == s.len(),
        attrs_view(s).len() == s.len(),
        pairs_ok(s, cur) ==> forall|i: int|
            0 <= i < s.len() ==> opt_view(#[trigger] s[i].cdbase) != Some(cur) && foreign_ok(
                s[i].value,
                cur,
            ),
        forall|i: int|
            0 <= i < s.len() ==> #[trigger] enc_pairs(s, cur)[i] == pair_json(s[i], cur)
                && attrs_view(s)[i] == attr_view(s[i]),
    decreases s.len(),
{
    if s.len() > 0 {
        lemma_enc_pairs_index(s.drop_last(), cur);
        assert forall|i: int| 0 <= i < s.len() - 1 implies #[trigger] s.drop_last()[i] == s[i] by {}
        if pairs_ok(s, cur) {
            assert forall|i: int| 0 <= i < s.len() implies opt_view(#[trigger] s[i].cdbase) != Some(cur) && foreign_ok(s[i].value, cur) by {
                if i < s.len() - 1 {
                    assert(s.drop_last()[i] == s[i]);
                }
            }
        }
    }
}

proof fn lemma_enc_args_index(s: Seq<OpenMath>, cur: Seq<char>)
    ensures
        enc_args(s, cur).len() == s.len(),
        oms_view(s).len() == s.len(),
        args_ok(s, cur) ==> forall|i: int| 0 <= i < s.len() ==> json_ok(#[trigger] s[i], cur),
        forall|i: int|
            0 <= i < s.len() ==> #[trigger] enc_args(s, cur)[i] == enc(s[i], cur) && oms_view(s)[i]
                == om_view(s[i]),
    decreases s.len(),
{
    if s.len() > 0 {
        lemma_enc_args_index(s.drop_last(), cur);
        assert forall|i: int| 0 <= i < s.len() - 1 implies #[trigger] s.drop_last()[i] == s[i] by {}
        if args_ok(s, cur) {
            assert forall|i: int| 0 <= i < s.len() implies json_ok(#[trigger] s[i], cur) by {
                if i < s.len() - 1 {
                    assert(s.drop_last()[i] == s[i]);
                }
            }
        }
    }
}

proof fn lemma_enc_foreigns_index(s: Seq<OMMaybeForeign<OpenMath>>, cur: Seq<char>)
    ensures
        enc_foreigns(s, cur).len() == s.len(),
        foreigns_view(s).len() == s.len(),
        foreigns_ok(s, cur) ==> forall|i: int| 0 <= i < s.len() ==> foreign_ok(#[trigger] s[i], cur),
        forall|i: int|
            0 <= i < s.len() ==> #[trigger] enc_foreigns(s, cur)[i] == enc_foreign(s[i], cur)
                && foreigns_view(s)[i] == foreign_view(s[i]),
    decreases s.len(),
{
    if s.len() > 0 {
        lemma_enc_foreigns_index(s.drop_last(), cur);
        assert forall|i: int| 0 <= i < s.len() - 1 implies #[trigger] s.drop_last()[i] == s[i] by {}
        if foreigns_ok(s, cur) {
            assert forall|i: int| 0 <= i < s.len() implies foreign_ok(#[trigger] s[i], cur) by {
                if i < s.len() - 1 {
                    assert(s.drop_last()[i] == s[i]);
                }
            }
        }
    }
}

proof fn lemma_enc_vars_index(s: Seq<BoundVariable>, cur: Seq<char>)
    ensures
        enc_vars(s, cur).len() == s.len(),
        vars_view(s).len() == s.len(),
        vars_ok(s, cur) ==> forall|i: int|
            0 <= i < s.len() ==> pairs_ok(#[trigger] s[i].attributes@, cur),
        forall|i: int|
            0 <= i < s.len() ==> #[trigger] enc_vars(s, cur)[i] == enc_var(s[i], cur) && vars_view(
                s,
            )[i] == var_view(s[i]),
    decreases s.len(),
{
    if s.len() > 0 {
        lemma_enc_vars_index(s.drop_last(), cur);
        assert forall|i: int| 0 <= i < s.len() - 1 implies #[trigger] s.drop_last()[i] == s[i] by {}
        if vars_ok(s, cur) {
            assert forall|i: int| 0 <= i < s.len() implies pairs_ok(#[trigger] s[i].attributes@, cur) by {
                if i < s.len() - 1 {
                    assert(s.drop_last()[i] == s[i]);
                }
            }
        }
    }
}

proof fn lemma_dec_pairs_ok(a: Seq<JsonView>, cb: Seq<char>, v: Seq<AttrView>)
    requires
        a.len() == v.len(),
        forall|i: int| 0 <= i < a.len() ==> dec_pair(#[trigger] a[i], cb) == Ok::<AttrView, crate::json::JErr>(v[i]),
    ensures
        dec_pairs(a, cb) == Ok::<Seq<AttrView>, crate::json::JErr>(v),
    decreases a.len(),
{
    if a.len() > 0 {
        assert forall|i: int| 0 <= i < a.len() - 1 implies dec_pair(#[trigger] a.drop_first()[i], cb)
            == Ok::<AttrView, crate::json::JErr>(v.drop_first()[i]) by {
            assert(a.drop_first()[i] == a[i + 1]);
        }
        lemma_dec_pairs_ok(a.drop_first(), cb, v.drop_first());
        assert(dec_pair(a[0], cb) == Ok::<AttrView, crate::json::JErr>(v[0]));
        assert(seq![v[0]] + v.drop_first() =~= v);
    } else {
        assert(v =~= Seq::<AttrView>::empty());
    }
}

proof fn lemma_dec_list_ok(a: Seq<JsonView>, cb: Seq<char>, v: Seq<OMView>)
    requires
        a.len() == v.len(),
        forall|i: int| 0 <= i < a.len() ==> dec_om(#[trigger] a[i], cb, seq![]) == Ok::<OMView, crate::json::JErr>(v[i]),
    ensures
        dec_list(a, cb) == Ok::<Seq<OMView>, crate::json::JErr>(v),
    decreases a.len(),
{
    if a.len() > 0 {
        assert forall|i: int| 0 <= i < a.len() - 1 implies dec_om(#[trigger] a.drop_first()[i], cb, seq![])
            == Ok::<OMView, crate::json::JErr>(v.drop_first()[i]) by {
            assert(a.drop_first()[i] == a[i + 1]);
        }
        lemma_dec_list_ok(a.drop_first(), cb, v.drop_first());
        assert(dec_om(a[0], cb, seq![]) == Ok::<OMView, crate::json::JErr>(v[0]));
        assert(seq![v[0]] + v.drop_first() =~= v);
    } else {
        assert(v =~= Seq::<OMView>::empty());
    }
}

proof fn lemma_dec_foreigns_ok(a: Seq<JsonView>, cb: Seq<char>, v: Seq<ForeignView>)
    requires
        a.len() == v.len(),
        forall|i: int| 0 <= i < a.len() ==> dec_foreign(#[trigger] a[i], cb) == Ok::<ForeignView, crate::json::JErr>(v[i]),
    ensures
        dec_foreigns(a, cb) == Ok::<Seq<ForeignView>, crate::json::JErr>(v),
    decreases a.len(),
{
    if a.len() > 0 {
        assert forall|i: int| 0 <= i < a.len() - 1 implies dec_foreign(#[trigger] a.drop_first()[i], cb)
            == Ok::<ForeignView, crate::json::JErr>(v.drop_first()[i]) by {
            assert(a.drop_first()[i] == a[i + 1]);
        }
        lemma_dec_foreigns_ok(a.drop_first(), cb, v.drop_first());
        assert(dec_foreign(a[0], cb) == Ok::<ForeignView, crate::json::JErr>(v[0]));
        assert(seq![v[0]] + v.drop_first() =~= v);
    } else {
        assert(v =~= Seq::<ForeignView>::empty());
    }
}

proof fn lemma_dec_vars_ok(a: Seq<JsonView>, cb: Seq<char>, v: Seq<VarView>)
    requires
        a.len() == v.len(),
        forall|i: int| 0 <= i < a.len() ==> dec_var(#[trigger] a[i], cb, seq![]) == Ok::<VarView, crate::json::JErr>(v[i]),
    ensures
        dec_vars(a, cb) == Ok::<Seq<VarView>, crate::json::JErr>(v),
    decreases a.len(),
{
    if a.len() > 0 {
        assert forall|i: int| 0 <= i < a.len() - 1 implies dec_var(#[trigger] a.drop_first()[i], cb, seq![])
            == Ok::<VarView, crate::json::JErr>(v.drop_first()[i]) by {
            assert(a.drop_first()[i] == a[i + 1]);
        }
        lemma_dec_vars_ok(a.drop_first(), cb, v.drop_first());
        assert(dec_var(a[0], cb, seq![]) == Ok::<VarView, crate::json::JErr>(v[0]));
        assert(seq![v[0]] + v.drop_first() =~= v);
    } else {
        assert(v =~= Seq::<VarView>::empty());
    }
}

/// A leaf object reads back from its JSON value, with `a` as its attributes.
#[verifier::spinoff_prover]
#[verifier::rlimit(60)]
proof fn lemma_plain_leaf(o: OpenMath, cur: Seq<char>, a: Seq<AttrView>)
    requires
        o is OMI || o is OMF || o is OMSTR || o is OMB || o is OMV || o is OMS,
        plain_ok(o, cur),
    ensures
        dec_om(enc_plain(o, cur), cur, a) == Ok::<OMView, crate::json::JErr>(with_attrs(om_view(o), a)),
{
    lemma_keys_distinct();
    lemma_kinds_distinct();
    reveal_with_fuel(field_from, 6);
    reveal_with_fuel(bad_key_from, 6);
    match o {
        OpenMath::OMB { bytes, .. } => {
            lemma_base64_roundtrip(bytes@);
        },
        _ => {},
    }
}

/// A symbol reads back from its JSON value, where its cdbase is none or one
/// other than `cur`.
proof fn lemma_symbol(cb: Option<Seq<char>>, cd: Seq<char>, name: Seq<char>, cur: Seq<char>)
    requires
        cb != Some(cur),
    ensures
        dec_symbol(oms_json(cb, cd, name, cur)) == Ok::<(Option<Seq<char>>, Seq<char>, Seq<char>), crate::json::JErr>((cb, cd, name)),
{
    lemma_keys_distinct();
    reveal_with_fuel(field_from, 6);
}

type JRes<T> = Result<T, crate::json::JErr>;

/// How the members of an OMATTR around `x` read.
proof fn lemma_omattr_members(p: Seq<JsonView>, x: JsonView, cur: Seq<char>, pa: Seq<AttrView>)
    requires
        dec_pairs(p, cur) == JRes::Ok(pa),
    ensures
        ({
            let m = seq![kind_member("OMATTR"@), ("attributes"@, JsonView::Array(p)), ("object"@, x)];
            &&& omattr_json(p, x) == JsonView::Object(m)
            &&& checked_kind(m) == JRes::Ok(OMKind::OMATTR)
            &&& scoped(m, cur) == JRes::Ok(cur)
            &&& dec_attributes(m, cur, seq![]) == JRes::Ok(pa)
            &&& field(m, "object"@) == Some(2int)
            &&& m[2].1 == x
        }),
{
    lemma_keys_distinct();
    lemma_kinds_distinct();
    reveal_with_fuel(field_from, 6);
    reveal_with_fuel(bad_key_from, 6);
    assert(Seq::<AttrView>::empty() + pa =~= pa);
}

/// A variable reads back as a bound variable with attributes `a`.
proof fn lemma_omv_members(name: Seq<char>, cur: Seq<char>, a: Seq<AttrView>)
    ensures
        dec_var(omv_json(name), cur, a) == JRes::Ok(VarView { name, attrs: a }),
{
    lemma_keys_distinct();
    lemma_kinds_distinct();
    reveal_with_fuel(field_from, 6);
    reveal_with_fuel(bad_key_from, 6);
}

/// An object reads back from its JSON value.
proof fn lemma_enc_rt(o: OpenMath, cur: Seq<char>)
    requires
        json_ok(o, cur),
    ensures
        dec_om(enc(o, cur), cur, seq![]) == JRes::Ok(om_view(o)),
    decreases o, 3int,
{
    let attrs = attributes_of(o)@;
    lemma_plain_rt(o, cur, attrs_view(attrs));
    if attrs.len() > 0 {
        lemma_pairs_rt(attrs, cur);
        lemma_omattr_members(enc_pairs(attrs, cur), enc_plain(o, cur), cur, attrs_view(attrs));
    } else {
        assert(attrs_view(attrs) =~= Seq::<AttrView>::empty());
    }
}

/// What an object holds reads back from its JSON value, with `a` as its attributes.
proof fn lemma_plain_rt(o: OpenMath, cur: Seq<char>, a: Seq<AttrView>)
    requires
        plain_ok(o, cur),
    ensures
        dec_om(enc_plain(o, cur), cur, a) == JRes::Ok(with_attrs(om_view(o), a)),
    decreases o, 2int,
{
    match o {
        OpenMath::OMA { .. } => lemma_oma_rt(o, cur, a),
        OpenMath::OME { .. } => lemma_ome_rt(o, cur, a),
        OpenMath::OMBIND { .. } => lemma_ombind_rt(o, cur, a),
        _ => lemma_plain_leaf(o, cur, a),
    }
}

/// An OMA reads back from its JSON value.
#[verifier::spinoff_prover]
#[verifier::rlimit(60)]
proof fn lemma_oma_rt(o: OpenMath, cur: Seq<char>, a: Seq<AttrView>)
    requires
        o is OMA,
        plain_ok(o, cur),
    ensures
        dec_om(enc_plain(o, cur), cur, a) == JRes::Ok(with_attrs(om_view(o), a)),
    decreases o, 1int,
{
    match o {
        OpenMath::OMA { applicant, arguments, .. } => {
            lemma_enc_rt(*applicant, cur);
            lemma_args_rt(arguments@, cur);
            lemma_keys_distinct();
            lemma_kinds_distinct();
            reveal_with_fuel(field_from, 6);
            reveal_with_fuel(bad_key_from, 6);
            if arguments.len() == 0 {
                assert(oms_view(arguments@) =~= Seq::<OMView>::empty());
            }
        },
        _ => {},
    }
}

/// An OME reads back from its JSON value.
#[verifier::spinoff_prover]
#[verifier::rlimit(60)]
proof fn lemma_ome_rt(o: OpenMath, cur: Seq<char>, a: Seq<AttrView>)
    requires
        o is OME,
        plain_ok(o, cur),
    ensures
        dec_om(enc_plain(o, cur), cur, a) == JRes::Ok(with_attrs(om_view(o), a)),
    decreases o, 1int,
{
    match o {
        OpenMath::OME { cd, name, cdbase, arguments, .. } => {
            lemma_symbol(opt_view(cdbase), cd@, name@, cur);
            lemma_foreigns_rt(arguments@, cur);
            lemma_keys_distinct();
            lemma_kinds_distinct();
            reveal_with_fuel(field_from, 6);
            reveal_with_fuel(bad_key_from, 6);
            if arguments.len() == 0 {
                assert(foreigns_view(arguments@) =~= Seq::<ForeignView>::empty());
            }
        },
        _ => {},
    }
}

/// An OMBIND reads back from its JSON value.
#[verifier::spinoff_prover]
#[verifier::rlimit(60)]
proof fn lemma_ombind_rt(o: OpenMath, cur: Seq<char>, a: Seq<AttrView>)
    requires
        o is OMBIND,
        plain_ok(o, cur),
    ensures
        dec_om(enc_plain(o, cur), cur, a) == JRes::Ok(with_attrs(om_view(o), a)),
    decreases o, 1int,
{
    match o {
        OpenMath::OMBIND { binder, variables, object, .. } => {
            lemma_enc_rt(*binder, cur);
            lemma_enc_rt(*object, cur);
            lemma_vars_rt(variables@, cur);
            lemma_keys_distinct();
            lemma_kinds_distinct();
            reveal_with_fuel(field_from, 6);
            reveal_with_fuel(bad_key_from, 6);
        },
        _ => {},
    }
}

/// Attributes read back from their JSON values.
proof fn lemma_pairs_rt(s: Seq<Attr<OMMaybeForeign<OpenMath>>>, cur: Seq<char>)
    requires
        pairs_ok(s, cur),
    ensures
        dec_pairs(enc_pairs(s, cur), cur) == JRes::Ok(attrs_view(s)),
    decreases s, 3int,
{
    lemma_enc_pairs_index(s, cur);
    assert forall|i: int| 0 <= i < s.len() implies dec_pair(#[trigger] enc_pairs(s, cur)[i], cur)
        == JRes::Ok(attrs_view(s)[i]) by {
        lemma_pair_rt(s[i], cur);
    }
    lemma_dec_pairs_ok(enc_pairs(s, cur), cur, attrs_view(s));
}

/// An attribute reads back from its JSON value.
proof fn lemma_pair_rt(a: Attr<OMMaybeForeign<OpenMath>>, cur: Seq<char>)
    requires
        opt_view(a.cdbase) != Some(cur),
        foreign_ok(a.value, cur),
    ensures
        dec_pair(pair_json(a, cur), cur) == JRes::Ok(attr_view(a)),
    decreases a, 3int,
{
    lemma_symbol(opt_view(a.cdbase), a.cd@, a.name@, cur);
    lemma_foreign_rt(a.value, cur);
}

/// An object or OMFOREIGN reads back from its JSON value.
proof fn lemma_foreign_rt(f: OMMaybeForeign<OpenMath>, cur: Seq<char>)
    requires
        foreign_ok(f, cur),
    ensures
        dec_foreign(enc_foreign(f, cur), cur) == JRes::Ok(foreign_view(f)),
    decreases f, 3int,
{
    match f {
        OMMaybeForeign::OM(o) => {
            lemma_enc_rt(o, cur);
        },
        OMMaybeForeign::Foreign { .. } => {
            lemma_keys_distinct();
            lemma_kinds_distinct();
            reveal_with_fuel(field_from, 6);
            reveal_with_fuel(bad_key_from, 6);
        },
    }
}

/// Objects read back from their JSON values.
proof fn lemma_args_rt(s: Seq<OpenMath>, cur: Seq<char>)
    requires
        args_ok(s, cur),
    ensures
        dec_list(enc_args(s, cur), cur) == JRes::Ok(oms_view(s)),
    decreases s, 3int,
{
    lemma_enc_args_index(s, cur);
    assert forall|i: int| 0 <= i < s.len() implies dec_om(#[trigger] enc_args(s, cur)[i], cur, seq![])
        == JRes::Ok(oms_view(s)[i]) by {
        lemma_enc_rt(s[i], cur);
    }
    lemma_dec_list_ok(enc_args(s, cur), cur, oms_view(s));
}

/// Objects and OMFOREIGNs read back from their JSON values.
proof fn lemma_foreigns_rt(s: Seq<OMMaybeForeign<OpenMath>>, cur: Seq<char>)
    requires
        foreigns_ok(s, cur),
    ensures
        dec_foreigns(enc_foreigns(s, cur), cur) == JRes::Ok(foreigns_view(s)),
    decreases s, 3int,
{
    lemma_enc_foreigns_index(s, cur);
    assert forall|i: int| 0 <= i < s.len() implies dec_foreign(#[trigger] enc_foreigns(s, cur)[i], cur)
        == JRes::Ok(foreigns_view(s)[i]) by {
        lemma_foreign_rt(s[i], cur);
    }
    lemma_dec_foreigns_ok(enc_foreigns(s, cur), cur, foreigns_view(s));
}

/// Bound variables read back from their JSON values.
proof fn lemma_vars_rt(s: Seq<BoundVariable>, cur: Seq<char>)
    requires
        vars_ok(s, cur),
    ensures
        dec_vars(enc_vars(s, cur), cur) == JRes::Ok(vars_view(s)),
    decreases s, 3int,
{
    lemma_enc_vars_index(s, cur);
    assert forall|i: int| 0 <= i < s.len() implies dec_var(#[trigger] enc_vars(s, cur)[i], cur, seq![])
        == JRes::Ok(vars_view(s)[i]) by {
        lemma_var_rt(s[i], cur);
    }
    lemma_dec_vars_ok(enc_vars(s, cur), cur, vars_view(s));
}

/// A bound variable reads back from its JSON value.
proof fn lemma_var_rt(v: BoundVariable, cur: Seq<char>)
    requires
        pairs_ok(v.attributes@, cur),
    ensures
        dec_var(enc_var(v, cur), cur, seq![]) == JRes::Ok(var_view(v)),
    decreases v, 3int,
{
    lemma_omv_members(v.name@, cur, attrs_view(v.attributes@));
    if v.attributes.len() > 0 {
        lemma_pairs_rt(v.attributes@, cur);
        lemma_omattr_members(
            enc_pairs(v.attributes@, cur),
            omv_json(v.name@),
            cur,
            attrs_view(v.attributes@),
        );
    } else {
        assert(attrs_view(v.attributes@) =~= Seq::<AttrView>::empty());
        lemma_omv_members(v.name@, cur, Seq::<AttrView>::empty());
    }
}

/// Reading back the JSON value of an object gives the object: for every
/// object whose symbols declare their cdbase, whose attribute keys and error
/// symbols declare none or one other than [`OPENMATH_BASE_URI`], whose
/// integers are in the form they are read in and whose floats are float
/// texts ([`json_ok`]).
pub proof fn lemma_json_roundtrip(o: OpenMath)
    requires
        json_ok(o, OPENMATH_BASE_URI@),
    ensures
        dec_om(enc(o, OPENMATH_BASE_URI@), OPENMATH_BASE_URI@, seq![]) == JRes::Ok(om_view(o)),
{
    lemma_enc_rt(o, OPENMATH_BASE_URI@);
}

/// Reading back the JSON value of the OMOBJ around an object gives the
/// object, for the same objects as [`lemma_json_roundtrip`].
pub proof fn lemma_json_omobj_roundtrip(o: OpenMath)
    requires
        json_ok(o, OPENMATH_BASE_URI@),
    ensures
        dec_omobj(omobj_json(o), OPENMATH_BASE_URI@) == JRes::Ok(om_view(o)),
{
    lemma_enc_rt(o, OPENMATH_BASE_URI@);
    lemma_keys_distinct();
    reveal_with_fuel(field_from, 6);
    reveal_with_fuel(omobj_bad_key_from, 6);
}
/// An OMF written with a `decimal` string reads as that float: for every
/// well-formed OMF object (its `kind` is `"OMF"`, its keys are those of an
/// OMF, its `id` and `cdbase`, where present, are strings) with a `decimal`
/// member whose string is a float text, and with neither `float` nor
/// `hexadecimal`, the reader returns the OMF holding that text, with the
/// attributes it was handed, in any scope.
pub proof fn lemma_omf_decimal(
    m: Seq<(Seq<char>, JsonView)>,
    t: Seq<char>,
    cdbase: Seq<char>,
    attrs: Seq<AttrView>,
)
    requires
        checked_kind(m) == Ok::<OMKind, JErr>(OMKind::OMF),
        str_at(m, "cdbase"@) is Ok,
        str_at(m, "decimal"@) == Ok::<Option<Seq<char>>, JErr>(Some(t)),
        field(m, "float"@) is None,
        field(m, "hexadecimal"@) is None,
        is_float_text(t),
    ensures
        dec_om(JsonView::Object(m), cdbase, attrs) == Ok::<OMView, JErr>(
            OMView::OMF { float: t, attrs },
        ),
{
}

/// An OMF written with a `float` number reads as that float: for every
/// well-formed OMF object whose `float` member is a number written as a
/// float text, with neither `decimal` nor `hexadecimal`, the reader returns
/// the OMF holding that text, with the attributes it was handed.
pub proof fn lemma_omf_number(
    m: Seq<(Seq<char>, JsonView)>,
    i: int,
    t: Seq<char>,
    cdbase: Seq<char>,
    attrs: Seq<AttrView>,
)
    requires
        checked_kind(m) == Ok::<OMKind, JErr>(OMKind::OMF),
        str_at(m, "cdbase"@) is Ok,
        field(m, "float"@) == Some(i),
        0 <= i < m.len(),
        m[i].1 == JsonView::Number(t),
        field(m, "decimal"@) is None,
        field(m, "hexadecimal"@) is None,
        is_float_text(t),
    ensures
        dec_om(JsonView::Object(m), cdbase, attrs) == Ok::<OMView, JErr>(
            OMView::OMF { float: t, attrs },
        ),
{
}

} // verus!
