use std::borrow::Cow;

use openmath::de::{OMFromSerde, OMObject};
use openmath::json::integer::IntJsonError;
use openmath::json::{Json, JsonReadError};
use openmath::ser;
use openmath::{Attr, BoundVariable, Int, OMMaybeForeign, OpenMath};
use serde_json::Value;

fn to_value(j: &Json) -> Value {
    match j {
        Json::Null => Value::Null,
        Json::Bool(b) => Value::Bool(*b),
        Json::Number(t) => serde_json::from_str(t).expect("a number"),
        Json::Str(s) => Value::String(s.clone()),
        Json::Array(v) => Value::Array(v.iter().map(to_value).collect()),
        Json::Object(m) => {
            Value::Object(m.iter().map(|(k, v)| (k.clone(), to_value(v))).collect())
        }
    }
}

fn from_value(v: &Value) -> Json {
    match v {
        Value::Null => Json::Null,
        Value::Bool(b) => Json::Bool(*b),
        Value::Number(n) => Json::Number(n.to_string()),
        Value::String(s) => Json::Str(s.clone()),
        Value::Array(a) => Json::Array(a.iter().map(from_value).collect()),
        Value::Object(m) => Json::Object(m.iter().map(|(k, v)| (k.clone(), from_value(v))).collect()),
    }
}

fn parse(s: &str) -> Json {
    from_value(&serde_json::from_str::<Value>(s).expect("valid json"))
}

fn value(s: &str) -> Value {
    serde_json::from_str(s).expect("valid json")
}

fn oms<'a>(cdbase: &'a str, cd: &'a str, name: &'a str) -> OpenMath<'a> {
    OpenMath::OMS {
        cdbase: Some(Cow::Borrowed(cdbase)),
        cd: Cow::Borrowed(cd),
        name: Cow::Borrowed(name),
        attributes: Vec::new(),
    }
}

#[test]
fn test_oma_deserialization() {
    let s = r#"{
            "cdbase":"http://www.openmath.org/cd",
            "kind": "OMA",
            "applicant": {
                "kind": "OMS",
                "cd": "arith1",
                "name": "plus"
            },
            "arguments": [
                { "kind":"OMI", "integer":2 },
                { "kind":"OMI", "integer":2 }
            ]
        }"#;
    let o = OMFromSerde::from_json(&parse(s))
        .expect("valid json, openmath, and arithmetic expression")
        .into_inner();
    assert_eq!(
        o,
        OpenMath::OMA {
            applicant: Box::new(oms("http://www.openmath.org/cd", "arith1", "plus")),
            arguments: vec![
                OpenMath::OMI { int: Int::from(2), attributes: Vec::new() },
                OpenMath::OMI { int: Int::from(2), attributes: Vec::new() },
            ],
            attributes: Vec::new(),
        }
    );
}

const JSON: &str = r#"{
  "kind": "OMOBJ",
  "openmath": "2.0",
  "object": {
    "kind": "OMBIND",
    "binder": { "kind": "OMS", "cdbase": "http://openmath.org/cd", "cd": "fns1", "name": "lambda" },
    "variables": [
      { "kind": "OMV", "name": "x" },
      {
        "kind": "OMATTR",
        "attributes": [
          [
            { "kind": "OMS", "cdbase": "http://openmath.org/cd", "cd": "nope", "name": "type" },
            { "kind": "OMS", "cdbase": "http://openmath.org/cd", "cd": "arith1", "name": "real" }
          ]
        ],
        "object": { "kind": "OMV", "name": "y" }
      }
    ],
    "object": {
      "kind": "OMA",
      "applicant": { "kind": "OMS", "cdbase": "http://my.namespace", "cd": "utils", "name": "either" },
      "arguments": [
        {
          "kind": "OMA",
          "applicant": { "kind": "OMS", "cdbase": "http://openmath.org/cd", "cd": "arith1", "name": "plus" },
          "arguments": [
            { "kind": "OMI", "integer": 128 },
            {
              "kind": "OMATTR",
              "attributes": [
                [
                  { "kind": "OMS", "cdbase": "http://openmath.org/cd", "cd": "nope", "name": "type" },
                  { "kind": "OMFOREIGN", "foreign": "<MOOT>this is an opaque OMFOREIGN</MOOT>" }
                ]
              ],
              "object": { "kind": "OMI", "integer": -1234567898765432123456789 }
            },
            { "kind": "OMF", "float": 3.88988 },
            { "kind": "OMSTR", "string": "some number" },
            { "kind": "OMV", "name": "x" }
          ]
        },
        {
          "kind": "OME",
          "error": { "kind": "OMS", "cdbase": "http://openmath.org", "cd": "error", "name": "unhandled_arithmetics" },
          "arguments": [
            { "kind": "OMFOREIGN", "foreign": "ERROAR CODE MOO", "encoding": "application/nonsense" }
          ]
        }
      ]
    }
  }
}"#;

fn json_object() -> OpenMath<'static> {
    OpenMath::OMBIND {
        binder: Box::new(oms("http://openmath.org/cd", "fns1", "lambda")),
        variables: vec![
            BoundVariable { name: Cow::Borrowed("x"), attributes: Vec::new() },
            BoundVariable {
                name: Cow::Borrowed("y"),
                attributes: vec![Attr {
                    cdbase: Some(Cow::Borrowed("http://openmath.org/cd")),
                    cd: Cow::Borrowed("nope"),
                    name: Cow::Borrowed("type"),
                    value: OMMaybeForeign::OM(oms("http://openmath.org/cd", "arith1", "real")),
                }],
            },
        ],
        object: Box::new(OpenMath::OMA {
            applicant: Box::new(oms("http://my.namespace", "utils", "either")),
            arguments: vec![
                OpenMath::OMA {
                    applicant: Box::new(oms("http://openmath.org/cd", "arith1", "plus")),
                    arguments: vec![
                        OpenMath::OMI { int: 128.into(), attributes: Vec::new() },
                        OpenMath::OMI {
                            int: Int::new("-1234567898765432123456789").expect("works"),
                            attributes: vec![Attr {
                                cdbase: Some(Cow::Borrowed("http://openmath.org/cd")),
                                cd: Cow::Borrowed("nope"),
                                name: Cow::Borrowed("type"),
                                value: OMMaybeForeign::Foreign {
                                    encoding: None,
                                    value: Cow::Borrowed("<MOOT>this is an opaque OMFOREIGN</MOOT>"),
                                },
                            }],
                        },
                        OpenMath::OMF { float: Cow::Borrowed("3.88988"), attributes: Vec::new() },
                        OpenMath::OMSTR { string: Cow::Borrowed("some number"), attributes: Vec::new() },
                        OpenMath::OMV { name: Cow::Borrowed("x"), attributes: Vec::new() },
                    ],
                    attributes: Vec::new(),
                },
                OpenMath::OME {
                    cdbase: Some(Cow::Borrowed("http://openmath.org")),
                    cd: Cow::Borrowed("error"),
                    name: Cow::Borrowed("unhandled_arithmetics"),
                    arguments: vec![OMMaybeForeign::Foreign {
                        encoding: Some(Cow::Borrowed("application/nonsense")),
                        value: Cow::Borrowed("ERROAR CODE MOO"),
                    }],
                    attributes: Vec::new(),
                },
            ],
            attributes: Vec::new(),
        }),
        attributes: Vec::new(),
    }
}

#[test]
fn json_roundtrip() {
    let om = json_object();
    let json = ser::OMObject(&om).to_json();
    let expected: Value = serde_json::from_str(JSON).expect("valid json");
    assert_eq!(to_value(&json), expected);
    let nom = OMObject::from_json(&json).expect("works");
    assert_eq!(om, nom);
    let nom = OMObject::from_json(&parse(JSON)).expect("works");
    assert_eq!(om, nom);
    let nom = OpenMath::from_json(&om.to_json()).expect("works");
    assert_eq!(om, nom);
}

#[test]
fn json_leaves() {
    let o = OpenMath::OMB { bytes: Cow::Borrowed(b"foo bar"), attributes: Vec::new() };
    let j = o.to_json();
    assert_eq!(to_value(&j), value(r#"{"kind": "OMB", "base64": "Zm9vIGJhcg=="}"#));
    assert_eq!(OpenMath::from_json(&j).expect("valid"), o);
    let big = OpenMath::OMI {
        int: Int::new("12345678901234567890123456789012345678901234567890").expect("valid"),
        attributes: Vec::new(),
    };
    let j = big.to_json();
    assert_eq!(
        to_value(&j),
        value(r#"{"kind": "OMI", "decimal": "12345678901234567890123456789012345678901234567890"}"#)
    );
    assert_eq!(OpenMath::from_json(&j).expect("valid"), big);
    let bytes = parse(r#"{"kind": "OMB", "bytes": [1, 2, 255]}"#);
    assert_eq!(
        OpenMath::from_json(&bytes).expect("valid"),
        OpenMath::OMB { bytes: Cow::Borrowed(&[1u8, 2, 255][..]), attributes: Vec::new() }
    );
    let s = parse(r#"{"kind": "OMS", "cd": "arith1", "name": "plus"}"#);
    assert_eq!(
        OpenMath::from_json(&s).expect("valid"),
        oms("http://www.openmath.org/cd", "arith1", "plus")
    );
}

#[test]
fn json_errors() {
    assert!(matches!(OpenMath::from_json(&parse("[1, 2]")), Err(JsonReadError::NotAnObject)));
    assert!(matches!(OpenMath::from_json(&parse(r#"{"name": "x"}"#)), Err(JsonReadError::MissingKind)));
    assert!(matches!(
        OpenMath::from_json(&parse(r#"{"kind": "OMX"}"#)),
        Err(JsonReadError::InvalidKind(k)) if k == "OMX"
    ));
    assert!(matches!(
        OpenMath::from_json(&parse(r#"{"kind": "OMV", "name": "x", "cd": "c"}"#)),
        Err(JsonReadError::InvalidKey(k)) if k == "cd"
    ));
    assert!(matches!(
        OpenMath::from_json(&parse(r#"{"kind": "OMV"}"#)),
        Err(JsonReadError::Missing("name"))
    ));
    assert!(matches!(
        OpenMath::from_json(&parse(r#"{"kind": "OMV", "name": 3}"#)),
        Err(JsonReadError::WrongType("name"))
    ));
    assert!(matches!(
        OpenMath::from_json(&parse(r#"{"kind": "OMI", "integer": 1, "decimal": "1"}"#)),
        Err(JsonReadError::Conflict("OMI"))
    ));
    assert!(matches!(
        OpenMath::from_json(&parse(r#"{"kind": "OMI", "hexadecimal": "x1"}"#)),
        Err(JsonReadError::Hex)
    ));
    assert!(matches!(
        OpenMath::from_json(&parse(r#"{"kind": "OMI", "decimal": "1.5"}"#)),
        Err(JsonReadError::InvalidInteger(t)) if t == "1.5"
    ));
    assert!(matches!(
        OpenMath::from_json(&parse(r#"{"kind": "OMF", "decimal": "abc"}"#)),
        Err(JsonReadError::InvalidFloat(t)) if t == "abc"
    ));
    assert!(matches!(
        OpenMath::from_json(&parse(r#"{"kind": "OMB", "bytes": [1, 256]}"#)),
        Err(JsonReadError::InvalidByte)
    ));
    assert!(matches!(
        OpenMath::from_json(&parse(r#"{"kind": "OMB", "base64": "abc"}"#)),
        Err(JsonReadError::Base64(openmath::base64::Error::IllegalLength))
    ));
    assert!(matches!(
        OpenMath::from_json(&parse(r#"{"kind": "OMFOREIGN", "foreign": "x"}"#)),
        Err(JsonReadError::ForeignNotAllowed)
    ));
    assert!(matches!(OpenMath::from_json(&parse(r#"{"kind": "OMR"}"#)), Err(JsonReadError::NotSupported)));
    assert!(matches!(
        OpenMath::from_json(&parse(
            r#"{"kind": "OMBIND", "binder": {"kind": "OMS", "cd": "a", "name": "b"}, "variables": [{"kind": "OMI", "integer": 1}], "object": {"kind": "OMV", "name": "x"}}"#
        )),
        Err(JsonReadError::VarExpected)
    ));
    assert!(matches!(
        OpenMath::from_json(&parse(
            r#"{"kind": "OMATTR", "attributes": [[{"kind": "OMS", "cd": "a", "name": "b"}]], "object": {"kind": "OMV", "name": "x"}}"#
        )),
        Err(JsonReadError::BadPair)
    ));
    assert!(matches!(
        OMObject::from_json(&parse(r#"{"kind": "OMOBJ", "version": "2"}"#)),
        Err(JsonReadError::InvalidKey(k)) if k == "version"
    ));
}

#[test]
fn json_attributes_and_cdbase() {
    let j = parse(
        r#"{"kind": "OMATTR", "cdbase": "http://x.org", "attributes": [[{"kind": "OMS", "cd": "c", "name": "k"}, {"kind": "OMSTR", "string": "v"}]], "object": {"kind": "OMS", "cd": "a", "name": "b"}}"#,
    );
    let o = OpenMath::from_json(&j).expect("valid");
    assert_eq!(
        o,
        OpenMath::OMS {
            cdbase: Some(Cow::Borrowed("http://x.org")),
            cd: Cow::Borrowed("a"),
            name: Cow::Borrowed("b"),
            attributes: vec![Attr {
                cdbase: None,
                cd: Cow::Borrowed("c"),
                name: Cow::Borrowed("k"),
                value: OMMaybeForeign::OM(OpenMath::OMSTR {
                    string: Cow::Borrowed("v"),
                    attributes: Vec::new(),
                }),
            }],
        }
    );
}

#[test]
fn test_serde_serialization() {
    let small = Int::from(42);
    let json = serde_json::to_string(&to_value(&small.to_json())).expect("should be defined");
    let deserialized = Int::from_json(&parse(&json)).expect("should be defined");
    assert_eq!(small, deserialized);

    let big = Int::new("12345678901234567890123456789012345678901234567890")
        .expect("should be defined");
    let json = serde_json::to_string(&to_value(&big.to_json())).expect("should be defined");
    let deserialized = Int::from_json(&parse(&json)).expect("should be defined");
    assert_eq!(big, deserialized);
}

#[test]
fn int_json_values() {
    assert!(matches!(Int::from(-7).to_json(), Json::Number(t) if t == "-7"));
    let big = Int::new("-123456789012345678901234567890123456789012").expect("an integer");
    assert!(matches!(
        big.to_json(),
        Json::Str(t) if t == "-123456789012345678901234567890123456789012"
    ));
    assert_eq!(Int::from_json(&parse("\"17\"")), Ok(Int::from(17)));
    let plus = Int::from_json(&parse("\"+123456789012345678901234567890123456789012\""))
        .expect("a signed big integer");
    assert_eq!(plus.is_big(), Some("+123456789012345678901234567890123456789012"));
    assert_eq!(Int::from_json(&parse("\"\"")), Err(IntJsonError::EmptyString));
    assert_eq!(Int::from_json(&parse("\"12a\"")), Err(IntJsonError::InvalidString));
    assert_eq!(Int::from_json(&parse("1.5")), Err(IntJsonError::NotAnInteger));
    assert_eq!(Int::from_json(&parse("true")), Err(IntJsonError::WrongType));
    assert_eq!(IntJsonError::EmptyString.message(), "empty string");
}
