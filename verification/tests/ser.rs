use std::borrow::Cow;

use openmath::ser::{OMDisplay, Omv, Uri, XmlDisplay, XmlObjDisplay};
use openmath::{Attr, BoundVariable, Int, OMMaybeForeign, OpenMath};

fn omf(x: f64) -> OpenMath<'static> {
    OpenMath::OMF { float: Cow::Owned(x.to_string()), attributes: Vec::new() }
}

fn omi(i: Int<'static>) -> OpenMath<'static> {
    OpenMath::OMI { int: i, attributes: Vec::new() }
}

fn omstr(s: &str) -> OpenMath<'_> {
    OpenMath::OMSTR { string: Cow::Borrowed(s), attributes: Vec::new() }
}

fn omb(b: &[u8]) -> OpenMath<'_> {
    OpenMath::OMB { bytes: Cow::Borrowed(b), attributes: Vec::new() }
}

fn point(x: f64, y: f64) -> OpenMath<'static> {
    OpenMath::OMA {
        applicant: Box::new(
            Uri { cdbase: Some("http://example.org"), cd: "geometry1", name: "point" }.as_oms(),
        ),
        arguments: vec![omf(x), omf(y)],
        attributes: Vec::new(),
    }
}

fn lambda<'a>(vars: &[&'a str], body: &'a str) -> OpenMath<'a> {
    OpenMath::OMBIND {
        binder: Box::new(
            Uri { cdbase: Some("http://openmath.org"), cd: "fns1", name: "lambda" }.as_oms(),
        ),
        variables: vars
            .iter()
            .map(|v| BoundVariable { name: Cow::Borrowed(*v), attributes: Vec::new() })
            .collect(),
        object: Box::new(omstr(body)),
        attributes: Vec::new(),
    }
}

const LAMBDA_CDBASE: Option<&str> = Some("http://openmath.org");

#[test]
fn test_omi_serialization() {
    let result = omi(Int::from(42)).openmath_display().to_string();
    assert_eq!(result, "OMI(42)");

    let result = omi(Int::new("123456789012345678901234567890").expect("should be defined").into_owned())
        .openmath_display()
        .to_string();
    assert_eq!(result, "OMI(123456789012345678901234567890)");
}

#[test]
fn test_omi_serialization_xml() {
    let result = omi(Int::from(42)).xml(true).to_string();
    assert_eq!(result, "<OMI>42</OMI>");

    let result = omi(Int::new("123456789012345678901234567890").expect("should be defined").into_owned())
        .xml(true)
        .to_string();
    assert_eq!(result, "<OMI>123456789012345678901234567890</OMI>");
}

#[test]
fn test_omf_serialization() {
    #[allow(clippy::approx_constant)]
    let result = omf(f64::from(3.14159f32)).openmath_display().to_string();
    assert!(result.starts_with("OMF(3.14159"));
}

#[test]
fn test_omf_serialization_xml() {
    #[allow(clippy::approx_constant)]
    let result = omf(f64::from(3.14159f32)).xml(true).to_string();
    assert!(result.starts_with("<OMF dec=\"3.14159"));
}

#[test]
fn test_omstr_serialization() {
    let result = omstr("42").openmath_display().to_string();
    assert_eq!(result, "OMSTR(\"42\")");
}

#[test]
fn test_omstr_serialization_xml() {
    let result = omstr("42").xml(true).to_string();
    assert_eq!(result, "<OMSTR>42</OMSTR>");
}

#[test]
fn test_omb_serialization() {
    let result = omb(&[1u8, 2, 3, 4, 5]).openmath_display().to_string();
    assert_eq!(result, "OMB(1,2,3,4,5)");
}

#[test]
fn test_omb_serialization_xml() {
    let result = omb(b"foo bar").xml(true).to_string();
    assert_eq!(result, "<OMB>Zm9vIGJhcg==</OMB>");
}

#[test]
fn test_omv_serialization() {
    let result = Omv("variable").to_openmath().openmath_display().to_string();
    assert_eq!(result, "OMV(variable)");
}

#[test]
fn test_omv_serialization_xml() {
    let result = Omv("variable").to_openmath().xml(true).to_string();
    assert_eq!(result, "<OMV name=\"variable\"/>");
}

#[test]
fn test_oms_serialization() {
    let result = Uri { cdbase: Some("http://test.org"), cd: "test", name: "symbol" }
        .as_oms()
        .openmath_display()
        .to_string();
    assert_eq!(result, "OMS(http://test.org/test#symbol)");
}

#[test]
fn test_oms_serialization_xml() {
    let result = Uri { cdbase: Some("http://test.org"), cd: "test", name: "symbol" }
        .as_oms()
        .xml(true)
        .to_string();
    assert_eq!(result, "<OMS cdbase=\"http://test.org\" cd=\"test\" name=\"symbol\"/>");
}

#[test]
fn test_oma_serialization() {
    let result = point(13.1, 17.4).openmath_display().to_string();
    assert_eq!(result, "OMA(OMS(http://example.org/geometry1#point),OMF(13.1),OMF(17.4))");
}

#[test]
fn test_oma_serialization_xml() {
    let result = point(13.1, 17.4).xml(true).to_string();
    assert_eq!(
        result,
        "<OMA>\n  <OMS cdbase=\"http://example.org\" cd=\"geometry1\" name=\"point\"/>\n  <OMF dec=\"13.1\"/>\n  <OMF dec=\"17.4\"/>\n</OMA>"
    );
}

#[test]
fn test_ombind_serialization() {
    let o = lambda(&["x", "y"], "x + y");
    let result = OMDisplay { o: &o, cdbase: LAMBDA_CDBASE }.to_string();
    assert_eq!(result, "OMBIND@http://openmath.org(OMS(fns1#lambda),[x, y],OMSTR(\"x + y\"))");
}

#[test]
fn test_ombind_serialization_xml() {
    let o = lambda(&["x", "y"], "x + y");
    let result = XmlDisplay { pretty: true, o: &o, cdbase: LAMBDA_CDBASE }.to_string();
    assert_eq!(
        result,
        "<OMBIND cdbase=\"http://openmath.org\">\n  <OMS cd=\"fns1\" name=\"lambda\"/>\n  <OMBVAR>\n    <OMV name=\"x\"/>\n    <OMV name=\"y\"/>\n  </OMBVAR>\n  <OMSTR>x + y</OMSTR>\n</OMBIND>"
    );
}

#[test]
fn test_empty_ombind() {
    let o = lambda(&[], "true");
    let result = OMDisplay { o: &o, cdbase: LAMBDA_CDBASE }.to_string();
    assert_eq!(result, "OMBIND@http://openmath.org(OMS(fns1#lambda),[],OMSTR(\"true\"))");
}

#[test]
fn test_empty_ombind_xml() {
    let o = lambda(&[], "true");
    let result = XmlDisplay { pretty: true, o: &o, cdbase: LAMBDA_CDBASE }.to_string();
    assert_eq!(
        result,
        "<OMBIND cdbase=\"http://openmath.org\">\n  <OMS cd=\"fns1\" name=\"lambda\"/>\n  <OMBVAR/>\n  <OMSTR>true</OMSTR>\n</OMBIND>"
    );
}

#[test]
fn escaping_in_xml() {
    let result = omstr("a < b && c").xml(false).to_string();
    assert_eq!(result, "<OMSTR>a &lt; b &amp;&amp; c</OMSTR>");
}

#[test]
fn compact_xml_has_no_line_breaks() {
    let result = point(1.5, 2.0).xml(false).to_string();
    assert_eq!(
        result,
        "<OMA><OMS cdbase=\"http://example.org\" cd=\"geometry1\" name=\"point\"/><OMF dec=\"1.5\"/><OMF dec=\"2\"/></OMA>"
    );
}

#[test]
fn attributes_and_foreign() {
    let o = OpenMath::OMI {
        int: Int::from(7),
        attributes: vec![Attr {
            cdbase: None,
            cd: Cow::Borrowed("nope"),
            name: Cow::Borrowed("type"),
            value: OMMaybeForeign::Foreign { encoding: None, value: Cow::Borrowed("<X/>") },
        }],
    };
    assert_eq!(
        o.xml(true).to_string(),
        "<OMATTR>\n  <OMATP>\n    <OMS cd=\"nope\" name=\"type\"/>\n    <OMFOREIGN>\n      <X/>\n    </OMFOREIGN>\n  </OMATP>\n  <OMI>7</OMI>\n</OMATTR>"
    );
    assert_eq!(o.openmath_display().to_string(), "OMATTR(OMI(7),[OMS(nope#type) = OMFOREIGN(<X/>)])");
}

#[test]
fn oma_without_arguments_shows_head_only() {
    let o = OpenMath::OMA {
        applicant: Box::new(omstr("f")),
        arguments: Vec::new(),
        attributes: Vec::new(),
    };
    assert_eq!(o.openmath_display().to_string(), "OMSTR(\"f\")");
    assert_eq!(o.xml(false).to_string(), "<OMA><OMSTR>f</OMSTR></OMA>");
}

#[test]
fn ome_display_and_xml() {
    let o = OpenMath::OME {
        cd: Cow::Borrowed("error"),
        name: Cow::Borrowed("unhandled"),
        cdbase: Some(Cow::Borrowed("http://openmath.org")),
        arguments: vec![
            OMMaybeForeign::Foreign {
                encoding: Some(Cow::Borrowed("text/plain")),
                value: Cow::Borrowed("MOO"),
            },
            OMMaybeForeign::OM(omi(Int::from(1))),
        ],
        attributes: Vec::new(),
    };
    assert_eq!(
        o.openmath_display().to_string(),
        "OMEerror#unhandled(OMFOREIGN(encoding:text/plain,MOO),OMI(1))"
    );
    assert_eq!(
        o.xml(false).to_string(),
        "<OME><OMS cdbase=\"http://openmath.org\" cd=\"error\" name=\"unhandled\"/><OMFOREIGN encoding=\"text/plain\">MOO</OMFOREIGN><OMI>1</OMI></OME>"
    );
}

#[test]
fn omobj_wrapper() {
    let o = omi(Int::from(3));
    assert_eq!(o.omobject().to_string(), "OMOBJ(OMI(3))");
    assert_eq!(
        o.omobject().xml(false, true).to_string(),
        "<OMOBJ version=\"2.0\" xmlns=\"http://www.openmath.org/OpenMath\"><OMI>3</OMI></OMOBJ>"
    );
    assert_eq!(
        o.omobject().xml(true, false).to_string(),
        "<OMOBJ version=\"2.0\">\n  <OMI>3</OMI>\n</OMOBJ>"
    );
}

#[test]
fn omobj_header_with_cdbase() {
    let o = omi(Int::from(3));
    let d = XmlObjDisplay { insert_namespace: false, pretty: false, o: &o, cdbase: Some("http://ex.org") };
    assert_eq!(
        d.to_string(),
        "<OMOBJ version=\"2.0\" cdbase=\"http://ex.org\"><OMI>3</OMI></OMOBJ>"
    );
}

#[test]
fn uri_cdbase_in_effect() {
    let u = Uri { cdbase: Some("http://a"), cd: "c", name: "n" };
    assert_eq!(u.cdbase("http://a"), None);
    assert_eq!(u.cdbase("http://b"), Some("http://a"));
    assert_eq!(u.cd(), "c");
    assert_eq!(u.name(), "n");
}
