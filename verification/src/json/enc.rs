//! Writing OpenMath objects as JSON values: each object is a JSON object
//! whose `kind` names its kind; a symbol declares its `cdbase` only where it
//! differs from the one in effect.
use vstd::prelude::*;

use crate::base64::{encode, Base64Encodable};
use crate::integer::{int_text, IntView};
use crate::json::{
    json_view, jsons_view, lemma_jsons_view_push, lemma_members_view_push, members_view, Json,
    JsonView,
};
use crate::om::{attributes_of, cow_str, opt_cow_str, opt_view, Attr, BoundVariable, OMMaybeForeign, OpenMath};
use crate::ser::cow_bytes;
use crate::ser::xml::uri_cdbase;
use crate::text::str_eq;
use crate::OPENMATH_BASE_URI;

verus! {

/// A JSON string.
pub open spec fn jstr(s: Seq<char>) -> JsonView {
    JsonView::Str(s)
}

/// The `kind` member.
pub open spec fn kind_member(k: Seq<char>) -> (Seq<char>, JsonView) {
    ("kind"@, jstr(k))
}

/// A symbol, with its `cdbase` where it differs from `cur`.
pub open spec fn oms_json(cb: Option<Seq<char>>, cd: Seq<char>, name: Seq<char>, cur: Seq<char>) -> JsonView {
    JsonView::Object(
        seq![kind_member("OMS"@)] + match uri_cdbase(cb, cur) {
            Some(b) => seq![("cdbase"@, jstr(b))],
            None => seq![],
        } + seq![("cd"@, jstr(cd)), ("name"@, jstr(name))],
    )
}

/// A variable.
pub open spec fn omv_json(name: Seq<char>) -> JsonView {
    JsonView::Object(seq![kind_member("OMV"@), ("name"@, jstr(name))])
}

/// An OMATTR around `object`.
pub open spec fn omattr_json(pairs: Seq<JsonView>, object: JsonView) -> JsonView {
    JsonView::Object(
        seq![
            kind_member("OMATTR"@),
            ("attributes"@, JsonView::Array(pairs)),
            ("object"@, object),
        ],
    )
}

/// An object with its attributes, in the scope of the cdbase `cur`.
pub open spec fn enc(o: OpenMath, cur: Seq<char>) -> JsonView
    decreases o, 1int,
{
    let attrs = attributes_of(o)@;
    if attrs.len() > 0 {
        omattr_json(enc_pairs(attrs, cur), enc_plain(o, cur))
    } else {
        enc_plain(o, cur)
    }
}

/// An object without its attributes.
pub open spec fn enc_plain(o: OpenMath, cur: Seq<char>) -> JsonView
    decreases o, 0int,
{
    match o {
        OpenMath::OMI { int: i, .. } => JsonView::Object(
            seq![
                kind_member("OMI"@),
                match i@ {
                    IntView::Small(_) => ("integer"@, JsonView::Number(int_text(i@))),
                    IntView::Big(t) => ("decimal"@, jstr(t)),
                },
            ],
        ),
        OpenMath::OMF { float, .. } => JsonView::Object(
            seq![kind_member("OMF"@), ("float"@, JsonView::Number(float@))],
        ),
        OpenMath::OMSTR { string, .. } => JsonView::Object(
            seq![kind_member("OMSTR"@), ("string"@, jstr(string@))],
        ),
        OpenMath::OMB { bytes, .. } => JsonView::Object(
            seq![
                kind_member("OMB"@),
                ("base64"@, jstr(encode(bytes@).map_values(|b: u8| b as char))),
            ],
        ),
        OpenMath::OMV { name, .. } => omv_json(name@),
        OpenMath::OMS { cd, name, cdbase, .. } => oms_json(opt_view(cdbase), cd@, name@, cur),
        OpenMath::OMA { applicant, arguments, .. } => JsonView::Object(
            seq![kind_member("OMA"@), ("applicant"@, enc(*applicant, cur))] + if arguments.len()
                > 0 {
                seq![("arguments"@, JsonView::Array(enc_args(arguments@, cur)))]
            } else {
                seq![]
            },
        ),
        OpenMath::OME { cd, name, cdbase, arguments, .. } => JsonView::Object(
            seq![kind_member("OME"@), ("error"@, oms_json(opt_view(cdbase), cd@, name@, cur))]
                + if arguments.len() > 0 {
                seq![("arguments"@, JsonView::Array(enc_foreigns(arguments@, cur)))]
            } else {
                seq![]
            },
        ),
        OpenMath::OMBIND { binder, variables, object, .. } => JsonView::Object(
            seq![
                kind_member("OMBIND"@),
                ("binder"@, enc(*binder, cur)),
                ("variables"@, JsonView::Array(enc_vars(variables@, cur))),
                ("object"@, enc(*object, cur)),
            ],
        ),
    }
}

/// An object or an OMFOREIGN.
pub open spec fn enc_foreign(f: OMMaybeForeign<OpenMath>, cur: Seq<char>) -> JsonView
    decreases f, 1int,
{
    match f {
        OMMaybeForeign::OM(o) => enc(o, cur),
        OMMaybeForeign::Foreign { encoding, value } => JsonView::Object(
            seq![kind_member("OMFOREIGN"@), ("foreign"@, jstr(value@))] + match encoding {
                Some(e) => seq![("encoding"@, jstr(e@))],
                None => seq![],
            },
        ),
    }
}

/// The attributes of an object: pairs of symbol and value.
pub open spec fn enc_pairs(s: Seq<Attr<OMMaybeForeign<OpenMath>>>, cur: Seq<char>) -> Seq<JsonView>
    decreases s, 1int,
{
    if s.len() == 0 {
        seq![]
    } else {
        let a = s.last();
        enc_pairs(s.drop_last(), cur).push(
            JsonView::Array(
                seq![oms_json(opt_view(a.cdbase), a.cd@, a.name@, cur), enc_foreign(a.value, cur)],
            ),
        )
    }
}

/// A sequence of objects.
pub open spec fn enc_args(s: Seq<OpenMath>, cur: Seq<char>) -> Seq<JsonView>
    decreases s, 1int,
{
    if s.len() == 0 {
        seq![]
    } else {
        enc_args(s.drop_last(), cur).push(enc(s.last(), cur))
    }
}

/// A sequence of objects or OMFOREIGNs.
pub open spec fn enc_foreigns(s: Seq<OMMaybeForeign<OpenMath>>, cur: Seq<char>) -> Seq<JsonView>
    decreases s, 1int,
{
    if s.len() == 0 {
        seq![]
    } else {
        enc_foreigns(s.drop_last(), cur).push(enc_foreign(s.last(), cur))
    }
}

/// The bound variables of an OMBIND.
pub open spec fn enc_vars(s: Seq<BoundVariable>, cur: Seq<char>) -> Seq<JsonView>
    decreases s, 1int,
{
    if s.len() == 0 {
        seq![]
    } else {
        enc_vars(s.drop_last(), cur).push(enc_var(s.last(), cur))
    }
}

/// A bound variable: an OMV, inside an OMATTR if it has attributes.
pub open spec fn enc_var(v: BoundVariable, cur: Seq<char>) -> JsonView
    decreases v, 1int,
{
    if v.attributes.len() == 0 {
        omv_json(v.name@)
    } else {
        omattr_json(enc_pairs(v.attributes@, cur), omv_json(v.name@))
    }
}

/// An OMOBJ around an object.
pub open spec fn omobj_json(o: OpenMath) -> JsonView {
    JsonView::Object(
        seq![
            kind_member("OMOBJ"@),
            ("openmath"@, jstr("2.0"@)),
            ("object"@, enc(o, OPENMATH_BASE_URI@)),
        ],
    )
}

/// An owned copy of a string.
fn text(s: &str) -> (r: String)
    ensures
        r@ == s@,
{
    s.to_owned()
}

/// Adds the member `k` with value `v`.
fn put(m: &mut Vec<(String, Json)>, k: &str, v: Json)
    ensures
        members_view(final(m)@) == members_view(old(m)@).push((k@, json_view(v))),
{
    let key = text(k);
    proof {
        lemma_members_view_push(m@, key, v);
    }
    m.push((key, v));
}

/// A JSON string holding `s`.
fn string_json(s: &str) -> (r: Json)
    ensures
        json_view(r) == jstr(s@),
{
    Json::Str(text(s))
}

/// A symbol, with its `cdbase` where it differs from `cur`.
fn symbol_json(cb: Option<&str>, cd: &str, name: &str, cur: &str) -> (r: Json)
    ensures
        json_view(r) == oms_json(
            match cb {
                Some(c) => Some(c@),
                None => None,
            },
            cd@,
            name@,
            cur@,
        ),
{
    let mut m: Vec<(String, Json)> = Vec::new();
    put(&mut m, "kind", string_json("OMS"));
    match cb {
        Some(c) => if !str_eq(c, cur) {
            put(&mut m, "cdbase", string_json(c));
        },
        None => {},
    }
    put(&mut m, "cd", string_json(cd));
    put(&mut m, "name", string_json(name));
    let ghost cbv = match cb {
        Some(c) => Some(c@),
        None => None::<Seq<char>>,
    };
    assert(members_view(m@) =~= seq![kind_member("OMS"@)] + match uri_cdbase(cbv, cur@) {
        Some(b) => seq![("cdbase"@, jstr(b))],
        None => seq![],
    } + seq![("cd"@, jstr(cd@)), ("name"@, jstr(name@))]);
    Json::Object(m)
}

/// A variable.
fn var_json_plain(name: &str) -> (r: Json)
    ensures
        json_view(r) == omv_json(name@),
{
    let mut m: Vec<(String, Json)> = Vec::new();
    put(&mut m, "kind", string_json("OMV"));
    put(&mut m, "name", string_json(name));
    assert(members_view(m@) =~= seq![kind_member("OMV"@), ("name"@, jstr(name@))]);
    Json::Object(m)
}

/// An OMATTR around `object`.
fn attr_json(pairs: Vec<Json>, object: Json) -> (r: Json)
    ensures
        json_view(r) == omattr_json(jsons_view(pairs@), json_view(object)),
{
    let mut m: Vec<(String, Json)> = Vec::new();
    put(&mut m, "kind", string_json("OMATTR"));
    let ghost pv = jsons_view(pairs@);
    put(&mut m, "attributes", Json::Array(pairs));
    let ghost ov = json_view(object);
    put(&mut m, "object", object);
    assert(members_view(m@) =~= seq![
        kind_member("OMATTR"@),
        ("attributes"@, JsonView::Array(pv)),
        ("object"@, ov),
    ]);
    Json::Object(m)
}

/// An object with its attributes.
fn to_json(o: &OpenMath, cur: &str) -> (r: Json)
    ensures
        json_view(r) == enc(*o, cur@),
    decreases o, 1int,
{
    let attrs = o.attributes();
    if attrs.len() > 0 {
        let pairs = pairs_json(attrs, cur);
        let plain = plain_json(o, cur);
        attr_json(pairs, plain)
    } else {
        plain_json(o, cur)
    }
}

/// An object without its attributes.
#[verifier::spinoff_prover]
#[verifier::rlimit(60)]
fn plain_json(o: &OpenMath, cur: &str) -> (r: Json)
    ensures
        json_view(r) == enc_plain(*o, cur@),
    decreases o, 0int,
{
    let mut m: Vec<(String, Json)> = Vec::new();
    match o {
        OpenMath::OMI { int: i, .. } => {
            put(&mut m, "kind", string_json("OMI"));
            match i.is_i128() {
                Some(_) => {
                    let t = i.to_string();
                    put(&mut m, "integer", Json::Number(t));
                },
                None => {
                    let t = i.to_string();
                    put(&mut m, "decimal", Json::Str(t));
                },
            }
            assert(members_view(m@) =~= seq![
                kind_member("OMI"@),
                match i@ {
                    IntView::Small(_) => ("integer"@, JsonView::Number(int_text(i@))),
                    IntView::Big(t) => ("decimal"@, jstr(t)),
                },
            ]);
            Json::Object(m)
        },
        OpenMath::OMF { float, .. } => {
            put(&mut m, "kind", string_json("OMF"));
            put(&mut m, "float", Json::Number(text(cow_str(float))));
            assert(members_view(m@) =~= seq![
                kind_member("OMF"@),
                ("float"@, JsonView::Number(float@)),
            ]);
            Json::Object(m)
        },
        OpenMath::OMSTR { string, .. } => {
            put(&mut m, "kind", string_json("OMSTR"));
            put(&mut m, "string", string_json(cow_str(string)));
            assert(members_view(m@) =~= seq![kind_member("OMSTR"@), ("string"@, jstr(string@))]);
            Json::Object(m)
        },
        OpenMath::OMB { bytes, .. } => {
            put(&mut m, "kind", string_json("OMB"));
            let enc = cow_bytes(bytes).base64().into_string();
            put(&mut m, "base64", Json::Str(enc));
            assert(members_view(m@) =~= seq![
                kind_member("OMB"@),
                ("base64"@, jstr(encode(bytes@).map_values(|b: u8| b as char))),
            ]);
            Json::Object(m)
        },
        OpenMath::OMV { name, .. } => var_json_plain(cow_str(name)),
        OpenMath::OMS { cd, name, cdbase, .. } => symbol_json(
            opt_cow_str(cdbase),
            cow_str(cd),
            cow_str(name),
            cur,
        ),
        OpenMath::OMA { applicant, arguments, .. } => {
            put(&mut m, "kind", string_json("OMA"));
            put(&mut m, "applicant", to_json(&**applicant, cur));
            if arguments.len() > 0 {
                put(&mut m, "arguments", args_json(arguments, cur));
            }
            assert(members_view(m@) =~= seq![
                kind_member("OMA"@),
                ("applicant"@, enc(**applicant, cur@)),
            ] + if arguments.len() > 0 {
                seq![("arguments"@, JsonView::Array(enc_args(arguments@, cur@)))]
            } else {
                seq![]
            });
            Json::Object(m)
        },
        OpenMath::OME { cd, name, cdbase, arguments, .. } => {
            put(&mut m, "kind", string_json("OME"));
            put(
                &mut m,
                "error",
                symbol_json(opt_cow_str(cdbase), cow_str(cd), cow_str(name), cur),
            );
            if arguments.len() > 0 {
                put(&mut m, "arguments", foreigns_json(arguments, cur));
            }
            assert(members_view(m@) =~= seq![
                kind_member("OME"@),
                ("error"@, oms_json(opt_view(*cdbase), cd@, name@, cur@)),
            ] + if arguments.len() > 0 {
                seq![("arguments"@, JsonView::Array(enc_foreigns(arguments@, cur@)))]
            } else {
                seq![]
            });
            Json::Object(m)
        },
        OpenMath::OMBIND { binder, variables, object, .. } => {
            put(&mut m, "kind", string_json("OMBIND"));
            put(&mut m, "binder", to_json(&**binder, cur));
            put(&mut m, "variables", vars_json(variables, cur));
            put(&mut m, "object", to_json(&**object, cur));
            assert(members_view(m@) =~= seq![
                kind_member("OMBIND"@),
                ("binder"@, enc(**binder, cur@)),
                ("variables"@, JsonView::Array(enc_vars(variables@, cur@))),
                ("object"@, enc(**object, cur@)),
            ]);
            Json::Object(m)
        },
    }
}

/// An object or an OMFOREIGN.
fn foreign_json(f: &OMMaybeForeign<OpenMath>, cur: &str) -> (r: Json)
    ensures
        json_view(r) == enc_foreign(*f, cur@),
    decreases f, 1int,
{
    match f {
        OMMaybeForeign::OM(o) => to_json(o, cur),
        OMMaybeForeign::Foreign { encoding, value } => {
            let mut m: Vec<(String, Json)> = Vec::new();
            put(&mut m, "kind", string_json("OMFOREIGN"));
            put(&mut m, "foreign", string_json(cow_str(value)));
            match opt_cow_str(encoding) {
                Some(e) => {
                    put(&mut m, "encoding", string_json(e));
                },
                None => {},
            }
            assert(members_view(m@) =~= seq![
                kind_member("OMFOREIGN"@),
                ("foreign"@, jstr(value@)),
            ] + match *encoding {
                Some(e) => seq![("encoding"@, jstr(e@))],
                None => seq![],
            });
            Json::Object(m)
        },
    }
}

/// The attributes of an object, as pairs of symbol and value.
fn pairs_json(s: &Vec<Attr<OMMaybeForeign<OpenMath>>>, cur: &str) -> (r: Vec<Json>)
    ensures
        jsons_view(r@) == enc_pairs(s@, cur@),
    decreases s, 1int,
{
    let mut v: Vec<Json> = Vec::new();
    for i in 0..s.len()
        invariant
            jsons_view(v@) == enc_pairs(s@.take(i as int), cur@),
    {
        let a = &s[i];
        let mut pair: Vec<Json> = Vec::new();
        let sym = symbol_json(opt_cow_str(&a.cdbase), cow_str(&a.cd), cow_str(&a.name), cur);
        proof {
            lemma_jsons_view_push(pair@, sym);
        }
        pair.push(sym);
        let val = foreign_json(&a.value, cur);
        proof {
            lemma_jsons_view_push(pair@, val);
        }
        pair.push(val);
        assert(jsons_view(pair@) =~= seq![
            oms_json(opt_view(a.cdbase), a.cd@, a.name@, cur@),
            enc_foreign(a.value, cur@),
        ]);
        let p = Json::Array(pair);
        proof {
            lemma_jsons_view_push(v@, p);
            assert(s@.take(i + 1).drop_last() =~= s@.take(i as int));
        }
        v.push(p);
    }
    assert(s@.take(s.len() as int) =~= s@);
    v
}

/// A JSON array of objects.
fn args_json(s: &Vec<OpenMath>, cur: &str) -> (r: Json)
    ensures
        json_view(r) == JsonView::Array(enc_args(s@, cur@)),
    decreases s, 1int,
{
    let mut v: Vec<Json> = Vec::new();
    for i in 0..s.len()
        invariant
            jsons_view(v@) == enc_args(s@.take(i as int), cur@),
    {
        let x = to_json(&s[i], cur);
        proof {
            lemma_jsons_view_push(v@, x);
            assert(s@.take(i + 1).drop_last() =~= s@.take(i as int));
        }
        v.push(x);
    }
    assert(s@.take(s.len() as int) =~= s@);
    Json::Array(v)
}

/// A JSON array of objects or OMFOREIGNs.
fn foreigns_json(s: &Vec<OMMaybeForeign<OpenMath>>, cur: &str) -> (r: Json)
    ensures
        json_view(r) == JsonView::Array(enc_foreigns(s@, cur@)),
    decreases s, 1int,
{
    let mut v: Vec<Json> = Vec::new();
    for i in 0..s.len()
        invariant
            jsons_view(v@) == enc_foreigns(s@.take(i as int), cur@),
    {
        let x = foreign_json(&s[i], cur);
        proof {
            lemma_jsons_view_push(v@, x);
            assert(s@.take(i + 1).drop_last() =~= s@.take(i as int));
        }
        v.push(x);
    }
    assert(s@.take(s.len() as int) =~= s@);
    Json::Array(v)
}

/// A JSON array of bound variables.
fn vars_json(s: &Vec<BoundVariable>, cur: &str) -> (r: Json)
    ensures
        json_view(r) == JsonView::Array(enc_vars(s@, cur@)),
    decreases s, 1int,
{
    let mut v: Vec<Json> = Vec::new();
    for i in 0..s.len()
        invariant
            jsons_view(v@) == enc_vars(s@.take(i as int), cur@),
    {
        let x = var_json(&s[i], cur);
        proof {
            lemma_jsons_view_push(v@, x);
            assert(s@.take(i + 1).drop_last() =~= s@.take(i as int));
        }
        v.push(x);
    }
    assert(s@.take(s.len() as int) =~= s@);
    Json::Array(v)
}

/// A bound variable.
fn var_json(b: &BoundVariable, cur: &str) -> (r: Json)
    ensures
        json_view(r) == enc_var(*b, cur@),
    decreases b, 1int,
{
    if b.attributes.len() == 0 {
        var_json_plain(cow_str(&b.name))
    } else {
        let pairs = pairs_json(&b.attributes, cur);
        attr_json(pairs, var_json_plain(cow_str(&b.name)))
    }
}

impl<'om> OpenMath<'om> {
    /// The JSON value of this object, with [`OPENMATH_BASE_URI`] as the
    /// cdbase in effect.
    pub fn to_json(&self) -> (r: Json)
        ensures
            json_view(r) == enc(*self, OPENMATH_BASE_URI@),
    {
        to_json(self, OPENMATH_BASE_URI)
    }
}

impl<'s, 'om> crate::ser::OMObject<'s, 'om> {
    /// The JSON value of the OMOBJ around the object.
    pub fn to_json(&self) -> (r: Json)
        ensures
            json_view(r) == omobj_json(*self.0),
    {
        let mut m: Vec<(String, Json)> = Vec::new();
        put(&mut m, "kind", string_json("OMOBJ"));
        put(&mut m, "openmath", string_json("2.0"));
        let ghost ov = enc(*self.0, OPENMATH_BASE_URI@);
        put(&mut m, "object", to_json(self.0, OPENMATH_BASE_URI));
        assert(members_view(m@) =~= seq![
            kind_member("OMOBJ"@),
            ("openmath"@, jstr("2.0"@)),
            ("object"@, ov),
        ]);
        Json::Object(m)
    }
}

} // verus!
