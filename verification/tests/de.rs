use std::borrow::Cow;

use openmath::de::xml::XmlReadError;
use openmath::de::convert::FromOpenMath;
use openmath::de::OMObject;
use openmath::ser;
use openmath::{Attr, BoundVariable, Int, OMMaybeForeign, OpenMath};
use openmath::OpenMath::{OMA, OMB, OMBIND, OME, OMF, OMI, OMSTR, OMV};

fn oms<'a>(cdbase: &'a str, cd: &'a str, name: &'a str) -> OpenMath<'a> {
    OpenMath::OMS {
        cdbase: Some(Cow::Borrowed(cdbase)),
        cd: Cow::Borrowed(cd),
        name: Cow::Borrowed(name),
        attributes: Vec::new(),
    }
}

#[test]
fn test_oma_deserialization_xml() {
    let s = r#"<OMOBJ cdbase="http://www.openmath.org/cd">
          <OMA>
            <OMS cd="arith1" name="plus"/>
            <OMI>2</OMI>
            <OMI>2</OMI>
          </OMA>
        </OMOBJ>"#;
    let o = OMObject::from_openmath_xml(s).expect("is valid");
    assert_eq!(
        o,
        OpenMath::OMA {
            applicant: Box::new(oms("http://www.openmath.org/cd", "arith1", "plus")),
            arguments: vec![
                OpenMath::OMI { int: Int::from(2), attributes: Vec::new() },
                OpenMath::OMI { int: Int::from(2), attributes: Vec::new() },
            ],
            attributes: Vec::new(),
        }
    );
}

const XML: &str = r#"<OMOBJ version="2.0" xmlns="http://www.openmath.org/OpenMath">
      <OMBIND>
        <OMS cdbase="http://openmath.org/cd" cd="fns1" name="lambda"/>
        <OMBVAR>
          <OMV name="x"/>
          <OMATTR>
            <OMATP>
              <OMS cdbase="http://openmath.org/cd" cd="nope" name="type"/>
              <OMS cdbase="http://openmath.org/cd" cd="arith1" name="real"/>
            </OMATP>
          <OMV name="y"/>
          </OMATTR>
        </OMBVAR>
        <OMA>
          <OMS cdbase="http://my.namespace" cd="utils" name="either"/>
          <OMA>
            <OMS cdbase="http://openmath.org/cd" cd="arith1" name="plus"/>
            <OMI>128</OMI>
            <OMATTR>
              <OMATP>
                <OMS cdbase="http://openmath.org/cd" cd="nope" name="type"/>
                <OMFOREIGN>
                  <MOOT>this is an opaque OMFOREIGN</MOOT>
                </OMFOREIGN>
              </OMATP>
            <OMI>-1234567898765432123456789</OMI>
            </OMATTR>
            <OMF dec="3.88988"/>
            <OMSTR>some number</OMSTR>
            <OMV name="x"/>
          </OMA>
          <OME>
            <OMS cdbase="http://openmath.org" cd="error" name="unhandled_arithmetics"/>
            <OMFOREIGN encoding="application/nonsense">
              ERROAR CODE MOO
            </OMFOREIGN>
          </OME>
        </OMA>
      </OMBIND>
    </OMOBJ>"#;

fn roundtrip_object() -> OpenMath<'static> {
    OMBIND {
        binder: Box::new(oms("http://openmath.org/cd", "fns1", "lambda")),
        variables: vec![
            BoundVariable { name: Cow::Borrowed("x"), attributes: Vec::new() },
            BoundVariable {
                name: Cow::Borrowed("y"),
                attributes: vec![Attr {
                    cdbase: Some(Cow::Borrowed("http://openmath.org/cd")),
                    cd: Cow::Borrowed("nope"),
                    name: Cow::Borrowed("type"),
                    value: OMMaybeForeign::OM(oms("http://openmath.org/cd", "arith1", "real")),
                }],
            },
        ],
        object: Box::new(OMA {
            applicant: Box::new(oms("http://my.namespace", "utils", "either")),
            arguments: vec![
                OMA {
                    applicant: Box::new(oms("http://openmath.org/cd", "arith1", "plus")),
                    arguments: vec![
                        OMI { int: 128.into(), attributes: Vec::new() },
                        OMI {
                            int: Int::new("-1234567898765432123456789").expect("works"),
                            attributes: vec![Attr {
                                cdbase: Some(Cow::Borrowed("http://openmath.org/cd")),
                                cd: Cow::Borrowed("nope"),
                                name: Cow::Borrowed("type"),
                                value: OMMaybeForeign::Foreign {
                                    encoding: None,
                                    value: Cow::Borrowed("<MOOT>this is an opaque OMFOREIGN</MOOT>"),
                                },
                            }],
                        },
                        OMF { float: Cow::Borrowed("3.88988"), attributes: Vec::new() },
                        OMSTR { string: Cow::Borrowed("some number"), attributes: Vec::new() },
                        OMV { name: Cow::Borrowed("x"), attributes: Vec::new() },
                    ],
                    attributes: Vec::new(),
                },
                OME {
                    cdbase: Some(Cow::Borrowed("http://openmath.org")),
                    cd: Cow::Borrowed("error"),
                    name: Cow::Borrowed("unhandled_arithmetics"),
                    arguments: vec![OMMaybeForeign::Foreign {
                        encoding: Some(Cow::Borrowed("application/nonsense")),
                        value: Cow::Borrowed("ERROAR CODE MOO"),
                    }],
                    attributes: Vec::new(),
                },
            ],
            attributes: Vec::new(),
        }),
        attributes: Vec::new(),
    }
}

fn no_ws(s: &str) -> String {
    s.chars().filter(|c| !c.is_ascii_whitespace()).collect()
}

#[test]
fn roundtrip() {
    let om = roundtrip_object();
    let nom = OMObject::from_openmath_xml(XML).expect("works");
    assert_eq!(om, nom);
    let xml = ser::OMObject(&nom).xml(true, true).to_string();
    assert_eq!(no_ws(&xml), no_ws(XML));
    let nom = OMObject::from_openmath_xml(&xml).expect("works");
    assert_eq!(om, nom);
}

#[test]
fn read_plain_object() {
    let s = r#"
        <OMA cdbase="http://www.openmath.org/cd">
          <OMS cd="arith1" name="plus"/>
          <OMI>2</OMI>
          <OMI>2</OMI>
        </OMA>"#;
    let o = OpenMath::from_openmath_xml(s).expect("valid xml and openmath");
    match o {
        OpenMath::OMA { applicant, arguments, .. } => {
            assert_eq!(*applicant, oms("http://www.openmath.org/cd", "arith1", "plus"));
            assert_eq!(arguments.len(), 2);
        }
        _ => panic!("not an OMA"),
    }
}

#[test]
fn oms_takes_the_cdbase_in_effect() {
    let o = OpenMath::from_openmath_xml(r#"<OMS cd="arith1" name="plus"/>"#).expect("valid");
    assert_eq!(o, oms("http://www.openmath.org/cd", "arith1", "plus"));
    let o = OMObject::from_openmath_xml(
        r#"<OMOBJ cdbase="http://example.org"><OMA><OMS cd="a" name="b"/><OMS cdbase="http://x.org" cd="c" name="d"/></OMA></OMOBJ>"#,
    )
    .expect("valid");
    assert_eq!(
        o,
        OpenMath::OMA {
            applicant: Box::new(oms("http://example.org", "a", "b")),
            arguments: vec![oms("http://x.org", "c", "d")],
            attributes: Vec::new(),
        }
    );
}

#[test]
fn read_leaves() {
    assert_eq!(
        OpenMath::from_openmath_xml("<OMSTR>hello world</OMSTR>").expect("valid"),
        OpenMath::OMSTR { string: Cow::Borrowed("hello world"), attributes: Vec::new() }
    );
    assert_eq!(
        OpenMath::from_openmath_xml("<OMB>Zm9vIGJhcg==</OMB>").expect("valid"),
        OpenMath::OMB { bytes: Cow::Borrowed(b"foo bar"), attributes: Vec::new() }
    );
    assert_eq!(
        OpenMath::from_openmath_xml(r#"<OMV name="x"/>"#).expect("valid"),
        OpenMath::OMV { name: Cow::Borrowed("x"), attributes: Vec::new() }
    );
    assert_eq!(
        OpenMath::from_openmath_xml(r#"<OMF dec="-1.5e3"/>"#).expect("valid"),
        OpenMath::OMF { float: Cow::Borrowed("-1.5e3"), attributes: Vec::new() }
    );
    assert_eq!(
        OpenMath::from_openmath_xml("<OMI>-42</OMI>").expect("valid"),
        OpenMath::OMI { int: Int::from(-42), attributes: Vec::new() }
    );
}

#[test]
fn read_errors() {
    assert!(matches!(OpenMath::from_openmath_xml(""), Err(XmlReadError::NoObject)));
    assert!(matches!(OpenMath::from_openmath_xml("<OMI>x1F</OMI>"), Err(XmlReadError::Hex)));
    assert!(matches!(
        OpenMath::from_openmath_xml("<OMI>12.5</OMI>"),
        Err(XmlReadError::InvalidInteger(s)) if s == "12.5"
    ));
    assert!(matches!(
        OpenMath::from_openmath_xml(r#"<OMF dec="abc"/>"#),
        Err(XmlReadError::InvalidFloat(s)) if s == "abc"
    ));
    assert!(matches!(OpenMath::from_openmath_xml(r#"<OMF hex="7FF0"/>"#), Err(XmlReadError::Hex)));
    assert!(matches!(
        OpenMath::from_openmath_xml(r#"<OMF/>"#),
        Err(XmlReadError::ExpectedAttribute("dec"))
    ));
    assert!(matches!(
        OpenMath::from_openmath_xml(r#"<OMS name="plus"/>"#),
        Err(XmlReadError::ExpectedAttribute("cd"))
    ));
    assert!(matches!(
        OpenMath::from_openmath_xml(r#"<OMV/>"#),
        Err(XmlReadError::ExpectedAttribute("name"))
    ));
    assert!(matches!(
        OpenMath::from_openmath_xml("<OMB>abc</OMB>"),
        Err(XmlReadError::Base64(openmath::base64::Error::IllegalLength))
    ));
    assert!(matches!(
        OpenMath::from_openmath_xml("<OMA/>"),
        Err(XmlReadError::NonEmptyExpectedFor("OMA", 0))
    ));
    assert!(matches!(
        OpenMath::from_openmath_xml("<OMS></OMS>"),
        Err(XmlReadError::EmptyExpectedFor("OMS", 0))
    ));
    assert!(matches!(
        OpenMath::from_openmath_xml("<FOO/>"),
        Err(XmlReadError::UnexpectedTag(0))
    ));
    assert!(matches!(
        OpenMath::from_openmath_xml("<OMSTR><OMI>1</OMI></OMSTR>"),
        Err(XmlReadError::ExpectedText)
    ));
    assert!(matches!(
        OMObject::from_openmath_xml("text<OMOBJ><OMI>1</OMI></OMOBJ>"),
        Err(XmlReadError::UnexpectedTag(0))
    ));
    assert!(matches!(
        OpenMath::from_openmath_xml("<OMA><OMS cd=\"a\" name=\"b\"/></OMB>"),
        Err(XmlReadError::Xml { .. })
    ));
}

#[test]
fn read_omattr_pairs() {
    let s = r#"<OMATTR><OMATP><OMS cd="c" name="k"/><OMSTR>v</OMSTR></OMATP><OMI>1</OMI></OMATTR>"#;
    let o = OpenMath::from_openmath_xml(s).expect("valid");
    assert_eq!(
        o,
        OpenMath::OMI {
            int: Int::from(1),
            attributes: vec![Attr {
                cdbase: None,
                cd: Cow::Borrowed("c"),
                name: Cow::Borrowed("k"),
                value: OMMaybeForeign::OM(OpenMath::OMSTR {
                    string: Cow::Borrowed("v"),
                    attributes: Vec::new(),
                }),
            }],
        }
    );
    let s = r#"<OMATTR><OMATP><OMS cd="c" name="k"/></OMATP><OMI>1</OMI></OMATTR>"#;
    assert!(matches!(OpenMath::from_openmath_xml(s), Err(XmlReadError::AttributeValue(_))));
}

#[test]
fn values_taken_out_of_objects() {
    let five = OpenMath::from_openmath_xml("<OMI>5</OMI>").expect("an OMI");
    assert_eq!(i8::from_openmath(five), Ok(5i8));
    let minus = OpenMath::from_openmath_xml("<OMI>-1</OMI>").expect("an OMI");
    assert_eq!(u8::from_openmath(minus), Err("not a u8"));
    let big = OpenMath::from_openmath_xml("<OMI>300</OMI>").expect("an OMI");
    assert_eq!(i8::from_openmath(big), Err("not an i8"));
    let huge = OpenMath::from_openmath_xml("<OMI>123456789012345678901234567890123456789012</OMI>")
        .expect("an OMI");
    assert_eq!(i128::from_openmath(huge), Err("not an i128"));
    let s = OpenMath::from_openmath_xml("<OMSTR>hi</OMSTR>").expect("an OMSTR");
    assert_eq!(u64::from_openmath(s), Err("Not an OMI"));
    let s = OpenMath::from_openmath_xml("<OMSTR>hi</OMSTR>").expect("an OMSTR");
    assert_eq!(String::from_openmath(s), Ok("hi".to_string()));
    let s = OpenMath::from_openmath_xml("<OMSTR>hi</OMSTR>").expect("an OMSTR");
    assert_eq!(Int::from_openmath(s), Err("Not an integer"));
    let b = OpenMath::from_openmath_xml("<OMB>AQID</OMB>").expect("an OMB");
    assert_eq!(Vec::<u8>::from_openmath(b), Ok(vec![1u8, 2, 3]));
    let v = OpenMath::from_openmath_xml("<OMV name=\"x\"/>").expect("an OMV");
    assert_eq!(Vec::<u8>::from_openmath(v), Err("Not an OMB"));
    let i = OpenMath::from_openmath_xml("<OMI>-42</OMI>").expect("an OMI");
    assert_eq!(Int::from_openmath(i), Ok(Int::from(-42)));
}

/// The value of an arithmetic expression of `plus` and `times` over integers.
fn simplified(o: &OpenMath<'_>) -> Result<i128, &'static str> {
    match o {
        OMI { int, .. } => int.is_i128().ok_or("Invalid int value"),
        OMA { applicant, arguments, .. } if arguments.len() == 2 => {
            let is_times = match &**applicant {
                OpenMath::OMS { cd, name, cdbase, .. }
                    if cd == "arith1"
                        && (name == "plus" || name == "times")
                        && cdbase.as_deref() == Some(openmath::OPENMATH_BASE_URI) =>
                {
                    name == "times"
                }
                _ => return Err("Not an arithmetic expression"),
            };
            let a = simplified(&arguments[0])?;
            let b = simplified(&arguments[1])?;
            Ok(if is_times { a * b } else { a + b })
        }
        _ => Err("Not an arithmetic expression"),
    }
}

#[test]
fn fancy() {
    let s = r#"
        <OMA cdbase="http://www.openmath.org/cd">
          <OMS cd="arith1" name="plus"/>
          <OMI>2</OMI>
          <OMI>2</OMI>
        </OMA>"#;
    let r = OpenMath::from_openmath_xml(s).expect("valid xml and openmath");
    assert_eq!(simplified(&r), Ok(4));
}

/// An object with attributes, a binder with an attributed variable, an
/// error and leaves of every kind.
fn compact_object() -> OpenMath<'static> {
    let key = |name: &'static str| Attr {
        cdbase: None,
        cd: Cow::Borrowed("meta"),
        name: Cow::Borrowed(name),
        value: OMMaybeForeign::OM(OpenMath::OMSTR {
            string: Cow::Borrowed("note"),
            attributes: Vec::new(),
        }),
    };
    OMA {
        applicant: Box::new(oms("http://www.openmath.org/cd", "arith1", "plus")),
        arguments: vec![
            OMI { int: Int::from(-5), attributes: vec![key("sign")] },
            OMF { float: Cow::Borrowed("1.5e3"), attributes: Vec::new() },
            OMSTR { string: Cow::Borrowed("x > y"), attributes: Vec::new() },
            OpenMath::OMB { bytes: Cow::Owned(vec![1, 2, 3, 250]), attributes: Vec::new() },
            oms("http://example.org/cd", "own", "symbol"),
            OME {
                cd: Cow::Borrowed("error"),
                name: Cow::Borrowed("oops"),
                cdbase: None,
                arguments: vec![OMMaybeForeign::OM(OMV {
                    name: Cow::Borrowed("v"),
                    attributes: Vec::new(),
                })],
                attributes: Vec::new(),
            },
            OMBIND {
                binder: Box::new(oms("http://www.openmath.org/cd", "fns1", "lambda")),
                variables: vec![
                    BoundVariable { name: Cow::Borrowed("x"), attributes: Vec::new() },
                    BoundVariable { name: Cow::Borrowed("y"), attributes: vec![key("type")] },
                ],
                object: Box::new(OMV { name: Cow::Borrowed("x"), attributes: Vec::new() }),
                attributes: Vec::new(),
            },
        ],
        attributes: Vec::new(),
    }
}

#[test]
fn read_of_written_compact_xml() {
    let o = compact_object();
    let xml = o.xml(false).to_string();
    assert!(!xml.contains('\n'));
    let back = OpenMath::from_openmath_xml(&xml).expect("reads back");
    assert_eq!(back, o);
    let obj = ser::OMObject(&o).xml(false, true).to_string();
    let back = OMObject::from_openmath_xml(&obj).expect("reads back");
    assert_eq!(back, o);
}

#[test]
fn read_of_written_pretty_xml() {
    let o = compact_object();
    let xml = o.xml(true).to_string();
    assert!(xml.contains('\n'));
    let back = OpenMath::from_openmath_xml(&xml).expect("reads back");
    assert_eq!(back, o);
    for namespace in [false, true] {
        let obj = ser::OMObject(&o).xml(true, namespace).to_string();
        assert!(obj.ends_with("\n</OMOBJ>"));
        let back = OMObject::from_openmath_xml(&obj).expect("reads back");
        assert_eq!(back, o);
    }
}

#[test]
fn texts_with_entities_read_back() {
    let o = OMSTR { string: Cow::Borrowed("a&b<c\"d"), attributes: Vec::new() };
    let xml = o.xml(false).to_string();
    assert_eq!(xml, "<OMSTR>a&amp;b&lt;c\"d</OMSTR>");
    let back = OpenMath::from_openmath_xml(&xml).expect("reads");
    assert_eq!(back, o);
    let back = OpenMath::from_openmath_xml("<OMSTR>x&gt;y&apos;z&amp;amp;</OMSTR>").expect("reads");
    assert_eq!(back, OMSTR { string: Cow::Borrowed("x>y'z&amp;"), attributes: Vec::new() });
    let empty = OMSTR { string: Cow::Borrowed(""), attributes: Vec::new() };
    let xml = empty.xml(false).to_string();
    assert_eq!(xml, "<OMSTR></OMSTR>");
    assert_eq!(OpenMath::from_openmath_xml(&xml).expect("reads"), empty);
    let read = OpenMath::from_openmath_xml("<OMSTR>a&amp;b</OMSTR>").expect("reads");
    assert_eq!(String::from_openmath(read), Ok(String::from("a&b")));
}

#[test]
fn quotes_in_attributes_are_escaped() {
    let o = OMV { name: Cow::Borrowed("a\"b"), attributes: Vec::new() };
    assert_eq!(o.xml(false).to_string(), "<OMV name=\"a&quot;b\"/>");
    let v = OMV { name: Cow::Borrowed("variable"), attributes: Vec::new() };
    assert_eq!(v.xml(false).to_string(), "<OMV name=\"variable\"/>");
}

#[test]
fn names_with_entities_read_back() {
    let o = OMA {
        applicant: Box::new(OpenMath::OMS {
            cd: Cow::Borrowed("a&b"),
            name: Cow::Borrowed("x<\"y"),
            cdbase: Some(Cow::Borrowed("http://www.openmath.org/cd")),
            attributes: Vec::new(),
        }),
        arguments: vec![
            OMV { name: Cow::Borrowed("v\"&<"), attributes: Vec::new() },
            OMB { bytes: Cow::Owned(Vec::new()), attributes: Vec::new() },
            OMSTR { string: Cow::Borrowed(""), attributes: Vec::new() },
        ],
        attributes: Vec::new(),
    };
    for pretty in [false, true] {
        let xml = o.xml(pretty).to_string();
        assert_eq!(OpenMath::from_openmath_xml(&xml).expect("reads"), o);
    }
}

#[test]
fn omb_keeps_zero_bytes() {
    let back = OpenMath::from_openmath_xml("<OMB>AAEC</OMB>").expect("reads");
    assert_eq!(back, OMB { bytes: Cow::Owned(vec![0u8, 1, 2]), attributes: Vec::new() });
    let o = OMB { bytes: Cow::Owned(vec![0u8, 0, 7, 0]), attributes: Vec::new() };
    let xml = o.xml(false).to_string();
    assert_eq!(OpenMath::from_openmath_xml(&xml).expect("reads"), o);
}

#[test]
fn owned_objects_outlive_their_text() {
    let o = {
        let text = String::from(
            r#"<OMA><OMS cd="arith1" name="plus"/><OMI>123456789012345678901234567890123456789012</OMI><OMSTR>s</OMSTR></OMA>"#,
        );
        OpenMath::from_openmath_xml(&text).expect("valid").into_owned()
    };
    assert_eq!(
        o,
        OMA {
            applicant: Box::new(oms("http://www.openmath.org/cd", "arith1", "plus")),
            arguments: vec![
                OMI {
                    int: Int::new("123456789012345678901234567890123456789012").expect("an integer"),
                    attributes: Vec::new(),
                },
                OMSTR { string: Cow::Borrowed("s"), attributes: Vec::new() },
            ],
            attributes: Vec::new(),
        }
    );
}

#[test]
fn foreign_values_read_back() {
    for value in ["", "é", "<MOOT><a/>x</MOOT>", "a b"] {
        for pretty in [false, true] {
            let om = OMA {
                applicant: Box::new(oms("http://openmath.org/cd", "arith1", "plus")),
                arguments: Vec::new(),
                attributes: vec![Attr {
                    cdbase: Some(Cow::Borrowed("http://openmath.org/cd")),
                    cd: Cow::Borrowed("nope"),
                    name: Cow::Borrowed("type"),
                    value: OMMaybeForeign::Foreign { encoding: None, value: Cow::Borrowed(value) },
                }],
            };
            let xml = ser::OMObject(&om).xml(pretty, true).to_string();
            let back = OMObject::from_openmath_xml(&xml).expect("reads back");
            assert_eq!(back, om);
        }
    }
}
