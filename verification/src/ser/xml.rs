//! Writing OpenMath objects as OpenMath XML.
use vstd::prelude::*;

use crate::base64::{encode, Base64Encodable};
use crate::integer::int_text;
use crate::om::{attributes_of, opt_view, Attr, BoundVariable, OMMaybeForeign, OpenMath};
use crate::text::{
    escaped, push_char, push_escaped, push_str, push_text_escaped, str_eq, text_escaped,
};
use crate::om::{cow_str, opt_cow_str};
use super::cow_bytes;
use crate::{Int, OPENMATH_BASE_URI, XML_NAMESPACE};

verus! {

#[verifier::external_type_specification]
#[verifier::external_body]
pub struct ExFmtError(std::fmt::Error);

/// Errors in writing OpenMath XML.
#[derive(Debug)]
pub enum XmlWriteError {
    /// An error in converting an object, with its message.
    Custom(String),
    /// The formatter failed.
    Fmt(std::fmt::Error),
}

impl super::Error for XmlWriteError {
    fn custom(err: String) -> (r: Self)
        ensures
            r == XmlWriteError::Custom(err),
    {
        XmlWriteError::Custom(err)
    }
}

/// Where the XML writer stands: the indentation (whether something was written
/// already, and the prefix of a new line), the cdbase to declare on the next
/// element, and the cdbase in effect.
pub ghost struct XmlCtx {
    pub indent: Option<(bool, Seq<char>)>,
    pub next_ns: Option<Seq<char>>,
    pub current_ns: Seq<char>,
}

/// What the writer puts before an element: nothing when not pretty-printing,
/// otherwise a line break (unless it is the very first output) and the prefix.
pub open spec fn ind(i: Option<(bool, Seq<char>)>) -> Seq<char> {
    match i {
        None => seq![],
        Some((h, p)) => if h { seq!['\n'] + p } else { p },
    }
}

/// The indentation after something was written.
pub open spec fn after_ind(i: Option<(bool, Seq<char>)>) -> Option<(bool, Seq<char>)> {
    match i {
        None => None,
        Some((_, p)) => Some((true, p)),
    }
}

/// The indentation one level deeper.
pub open spec fn deeper(i: Option<(bool, Seq<char>)>) -> Option<(bool, Seq<char>)> {
    match i {
        None => None,
        Some((h, p)) => Some((h, p + seq![' ', ' '])),
    }
}

/// The cdbase in effect for the next element.
pub open spec fn current_cdbase(c: XmlCtx) -> Seq<char> {
    match c.next_ns {
        Some(n) => n,
        None => c.current_ns,
    }
}

/// Entering a cdbase: nothing changes if it is the one in effect, otherwise it
/// is declared on the next element.
pub open spec fn with_cdbase(c: XmlCtx, b: Seq<char>) -> XmlCtx {
    if c.current_ns == b {
        c
    } else {
        XmlCtx { next_ns: Some(b), ..c }
    }
}

/// The cdbase that a symbol needs declared: its own, unless that is the one in effect.
pub open spec fn uri_cdbase(cb: Option<Seq<char>>, current: Seq<char>) -> Option<Seq<char>> {
    match cb {
        Some(s) => if s == current { None } else { Some(s) },
        None => None,
    }
}

/// The writer inside an element it has opened: the declared cdbase is now in effect.
pub open spec fn opened(c: XmlCtx) -> XmlCtx {
    XmlCtx { indent: after_ind(c.indent), next_ns: None, current_ns: current_cdbase(c) }
}

/// The writer for the children of an opened element.
pub open spec fn inner(c: XmlCtx) -> XmlCtx {
    XmlCtx { indent: deeper(opened(c).indent), ..opened(c) }
}

/// The opening tag of a compound element, with its cdbase if one is to be declared.
pub open spec fn open_tag(tag: Seq<char>, c: XmlCtx) -> Seq<char> {
    ind(c.indent) + match c.next_ns {
        Some(ns) => seq!['<'] + tag + " cdbase=\""@ + escaped(ns) + "\">"@,
        None => seq!['<'] + tag + seq!['>'],
    }
}

/// The closing tag of a compound element opened in `c`.
pub open spec fn close_tag(tag: Seq<char>, c: XmlCtx) -> Seq<char> {
    ind(opened(c).indent) + "</"@ + tag + seq!['>']
}

/// An OMS element for a symbol with the given cdbase, cd and name.
pub open spec fn xml_oms(cb: Option<Seq<char>>, cd: Seq<char>, name: Seq<char>, c: XmlCtx) -> Seq<char> {
    let c2 = match uri_cdbase(cb, current_cdbase(c)) {
        Some(b) => with_cdbase(c, b),
        None => c,
    };
    ind(c2.indent) + "<OMS "@ + match c2.next_ns {
        Some(n) => "cdbase=\""@ + escaped(n) + "\" "@,
        None => seq![],
    } + "cd=\""@ + escaped(cd) + "\" name=\""@ + escaped(name) + "\"/>"@
}

/// An OMV element.
pub open spec fn xml_omv(name: Seq<char>, c: XmlCtx) -> Seq<char> {
    ind(c.indent) + "<OMV name=\""@ + escaped(name) + "\"/>"@
}

/// The opening of an OMATTR element up to the end of its key-value pairs.
pub open spec fn omattr_open(attrs: Seq<Attr<OMMaybeForeign<OpenMath>>>, c: XmlCtx) -> Seq<char>
    decreases attrs, 2int,
{
    let ci = inner(c);
    open_tag("OMATTR"@, c) + ind(ci.indent) + "<OMATP>"@ + xml_attrs(
        attrs,
        XmlCtx { indent: deeper(ci.indent), ..ci },
    ) + ind(ci.indent) + "</OMATP>"@
}

/// The key-value pairs of an OMATP.
pub open spec fn xml_attrs(s: Seq<Attr<OMMaybeForeign<OpenMath>>>, c: XmlCtx) -> Seq<char>
    decreases s, 1int,
{
    if s.len() == 0 {
        seq![]
    } else {
        let a = s.last();
        xml_attrs(s.drop_last(), c) + xml_oms(opt_view(a.cdbase), a.cd@, a.name@, c) + xml_foreign(
            a.value,
            c,
        )
    }
}

/// An object or an OMFOREIGN.
pub open spec fn xml_foreign(f: OMMaybeForeign<OpenMath>, c: XmlCtx) -> Seq<char>
    decreases f, 1int,
{
    match f {
        OMMaybeForeign::OM(o) => xml_om(o, c),
        OMMaybeForeign::Foreign { encoding, value } => {
            let open = match encoding {
                Some(e) => "<OMFOREIGN encoding=\""@ + escaped(e@) + "\">"@,
                None => "<OMFOREIGN>"@,
            };
            if c.indent is Some {
                ind(c.indent) + open + ind(after_ind(c.indent)) + "  "@ + value@ + ind(
                    after_ind(c.indent),
                ) + "</OMFOREIGN>"@
            } else {
                open + value@ + "</OMFOREIGN>"@
            }
        },
    }
}

/// An object with its attributes.
pub open spec fn xml_om(o: OpenMath, c: XmlCtx) -> Seq<char>
    decreases o, 1int,
{
    let attrs = attributes_of(o)@;
    if attrs.len() > 0 {
        omattr_open(attrs, c) + xml_plain(o, inner(c)) + close_tag("OMATTR"@, c)
    } else {
        xml_plain(o, c)
    }
}

/// An object without its attributes.
pub open spec fn xml_plain(o: OpenMath, c: XmlCtx) -> Seq<char>
    decreases o, 0int,
{
    match o {
        OpenMath::OMI { int: i, .. } => ind(c.indent) + "<OMI>"@ + int_text(i@) + "</OMI>"@,
        OpenMath::OMF { float, .. } => ind(c.indent) + "<OMF dec=\""@ + float@ + "\"/>"@,
        OpenMath::OMSTR { string, .. } => ind(c.indent) + "<OMSTR>"@ + text_escaped(string@)
            + "</OMSTR>"@,
        OpenMath::OMB { bytes, .. } => ind(c.indent) + "<OMB>"@ + encode(bytes@).map_values(
            |b: u8| b as char,
        ) + "</OMB>"@,
        OpenMath::OMV { name, .. } => xml_omv(name@, c),
        OpenMath::OMS { cd, name, cdbase, .. } => xml_oms(opt_view(cdbase), cd@, name@, c),
        OpenMath::OMA { applicant, arguments, .. } => open_tag("OMA"@, c) + xml_om(
            *applicant,
            inner(c),
        ) + xml_args(arguments@, inner(c)) + close_tag("OMA"@, c),
        OpenMath::OME { cd, name, cdbase, arguments, .. } => open_tag("OME"@, c) + xml_oms(
            opt_view(cdbase),
            cd@,
            name@,
            inner(c),
        ) + xml_foreigns(arguments@, inner(c)) + close_tag("OME"@, c),
        OpenMath::OMBIND { binder, variables, object, .. } => open_tag("OMBIND"@, c) + xml_om(
            *binder,
            inner(c),
        ) + xml_ombvar(variables@, inner(c)) + xml_om(*object, inner(c)) + close_tag("OMBIND"@, c),
    }
}

/// Seven texts one after the other, grouped as the OMBVAR element is.
proof fn lemma_regroup(
    w: Seq<char>,
    a: Seq<char>,
    b: Seq<char>,
    c: Seq<char>,
    d: Seq<char>,
    e: Seq<char>,
    f: Seq<char>,
)
    ensures
        w + a + b + c + d + e + f == w + (a + b + (c + d + e + f)),
{
    assert(w + a + b + c + d + e + f =~= w + (a + b + (c + d + e + f)));
}

/// The OMBVAR element of an OMBIND.
pub open spec fn xml_ombvar(vars: Seq<BoundVariable>, ci: XmlCtx) -> Seq<char>
    decreases vars, 2int,
{
    ind(ci.indent) + "<OMBVAR"@ + if vars.len() == 0 {
        "/>"@
    } else {
        ">"@ + xml_vars(vars, XmlCtx { indent: deeper(ci.indent), ..ci }) + ind(ci.indent)
            + "</OMBVAR>"@
    }
}

/// A sequence of objects, each written in the same context.
pub open spec fn xml_args(s: Seq<OpenMath>, c: XmlCtx) -> Seq<char>
    decreases s, 1int,
{
    if s.len() == 0 {
        seq![]
    } else {
        xml_args(s.drop_last(), c) + xml_om(s.last(), c)
    }
}

/// A sequence of objects or OMFOREIGNs, each written in the same context.
pub open spec fn xml_foreigns(s: Seq<OMMaybeForeign<OpenMath>>, c: XmlCtx) -> Seq<char>
    decreases s, 1int,
{
    if s.len() == 0 {
        seq![]
    } else {
        xml_foreigns(s.drop_last(), c) + xml_foreign(s.last(), c)
    }
}

/// The bound variables of an OMBIND.
pub open spec fn xml_vars(s: Seq<BoundVariable>, c: XmlCtx) -> Seq<char>
    decreases s, 1int,
{
    if s.len() == 0 {
        seq![]
    } else {
        xml_vars(s.drop_last(), c) + xml_var(s.last(), c)
    }
}

/// One bound variable: an OMV, inside an OMATTR if it has attributes.
pub open spec fn xml_var(v: BoundVariable, c: XmlCtx) -> Seq<char>
    decreases v, 1int,
{
    if v.attributes.len() == 0 {
        xml_omv(v.name@, c)
    } else {
        omattr_open(v.attributes@, c) + xml_omv(v.name@, inner(c)) + close_tag("OMATTR"@, c)
    }
}

/// The state of the XML writer: what [`XmlCtx`] describes, held in executable values.
struct XmlDisplayer<'s> {
    indent: Option<(bool, String)>,
    next_ns: Option<&'s str>,
    current_ns: &'s str,
}

/// The text of an optional string slice.
pub open spec fn opt_str_view(o: Option<&str>) -> Option<Seq<char>> {
    match o {
        Some(s) => Some(s@),
        None => None,
    }
}

impl<'s> View for XmlDisplayer<'s> {
    type V = XmlCtx;

    closed spec fn view(&self) -> XmlCtx {
        XmlCtx {
            indent: match self.indent {
                Some((h, p)) => Some((h, p@)),
                None => None,
            },
            next_ns: opt_str_view(self.next_ns),
            current_ns: self.current_ns@,
        }
    }
}

impl<'s> XmlDisplayer<'s> {
    /// Starts a new line (when pretty-printing) at the current indentation.
    fn indent(&mut self, w: &mut String)
        ensures
            final(w)@ == old(w)@ + ind(old(self)@.indent),
            final(self)@ == (XmlCtx { indent: after_ind(old(self)@.indent), ..old(self)@ }),
    {
        match &self.indent {
            None => {},
            Some((had_content, p)) => {
                if *had_content {
                    push_char(w, '\n');
                }
                push_str(w, p.as_str());
                let q = p.clone();
                self.indent = Some((true, q));
            },
        }
    }

    /// The same writer, one indentation level deeper.
    fn indented(&self) -> (r: XmlDisplayer<'s>)
        ensures
            r@ == (XmlCtx { indent: deeper(self@.indent), ..self@ }),
    {
        let indent = match &self.indent {
            None => None,
            Some((h, p)) => {
                let mut q = p.clone();
                push_str(&mut q, "  ");
                proof {
                    reveal_strlit("  ");
                    assert("  "@ =~= seq![' ', ' ']);
                }
                Some((*h, q))
            },
        };
        XmlDisplayer { indent, next_ns: self.next_ns, current_ns: self.current_ns }
    }

    /// A copy of this writer.
    fn clone(&self) -> (r: XmlDisplayer<'s>)
        ensures
            r@ == self@,
    {
        let indent = match &self.indent {
            None => None,
            Some((h, p)) => Some((*h, p.clone())),
        };
        XmlDisplayer { indent, next_ns: self.next_ns, current_ns: self.current_ns }
    }

    /// The cdbase in effect for the next element.
    fn current_cdbase(&self) -> (r: &'s str)
        ensures
            r@ == current_cdbase(self@),
    {
        match self.next_ns {
            Some(n) => n,
            None => self.current_ns,
        }
    }

    /// Enters `cdbase`.
    fn with_cdbase(self, cdbase: &'s str) -> (r: XmlDisplayer<'s>)
        ensures
            r@ == with_cdbase(self@, cdbase@),
    {
        if str_eq(self.current_ns, cdbase) {
            self
        } else {
            XmlDisplayer { indent: self.indent, next_ns: Some(cdbase), current_ns: self.current_ns }
        }
    }

    /// Writes the opening tag of a compound element; this writer is then inside it.
    fn open(&mut self, w: &mut String, tag: &str)
        ensures
            final(w)@ == old(w)@ + open_tag(tag@, old(self)@),
            final(self)@ == opened(old(self)@),
    {
        let ghost c = self@;
        self.indent(w);
        match self.next_ns {
            Some(ns) => {
                push_char(w, '<');
                push_str(w, tag);
                push_str(w, " cdbase=\"");
                push_escaped(w, ns);
                push_str(w, "\">");
                self.current_ns = ns;
                self.next_ns = None;
            },
            None => {
                push_char(w, '<');
                push_str(w, tag);
                push_char(w, '>');
            },
        }
        assert(final(w)@ =~= old(w)@ + open_tag(tag@, c));
        assert(self@ =~= opened(c));
    }

    /// Writes the closing tag of a compound element, having written its content.
    fn close(&mut self, w: &mut String, tag: &str)
        ensures
            final(w)@ == old(w)@ + ind(old(self)@.indent) + "</"@ + tag@ + seq!['>'],
    {
        self.indent(w);
        push_str(w, "</");
        push_str(w, tag);
        push_char(w, '>');
    }

    /// Writes an OMI.
    fn omi(self, w: &mut String, value: &Int)
        ensures
            final(w)@ == old(w)@ + ind(self@.indent) + "<OMI>"@ + int_text(value@) + "</OMI>"@,
    {
        let mut d = self;
        d.indent(w);
        push_str(w, "<OMI>");
        value.push_text(w);
        push_str(w, "</OMI>");
    }

    /// Writes an OMF, given the decimal text of the float.
    fn omf(self, w: &mut String, dec: &str)
        ensures
            final(w)@ == old(w)@ + ind(self@.indent) + "<OMF dec=\""@ + dec@ + "\"/>"@,
    {
        let mut d = self;
        d.indent(w);
        push_str(w, "<OMF dec=\"");
        push_str(w, dec);
        push_str(w, "\"/>");
    }

    /// Writes an OMB, its bytes in base64.
    fn omb(self, w: &mut String, bytes: &[u8])
        ensures
            final(w)@ == old(w)@ + ind(self@.indent) + "<OMB>"@ + encode(bytes@).map_values(
                |b: u8| b as char,
            ) + "</OMB>"@,
    {
        let mut d = self;
        d.indent(w);
        push_str(w, "<OMB>");
        let enc = bytes.base64().into_string();
        push_str(w, enc.as_str());
        push_str(w, "</OMB>");
    }

    /// Writes an OMSTR.
    fn omstr(self, w: &mut String, string: &str)
        ensures
            final(w)@ == old(w)@ + ind(self@.indent) + "<OMSTR>"@ + text_escaped(string@) + "</OMSTR>"@,
    {
        let mut d = self;
        d.indent(w);
        push_str(w, "<OMSTR>");
        push_text_escaped(w, string);
        push_str(w, "</OMSTR>");
    }

    /// Writes an OMV.
    fn omv(self, w: &mut String, name: &str)
        ensures
            final(w)@ == old(w)@ + xml_omv(name@, self@),
    {
        let mut d = self;
        d.indent(w);
        push_str(w, "<OMV name=\"");
        push_escaped(w, name);
        push_str(w, "\"/>");
    }

    /// Writes an OMS with the cdbase declared on this writer, if any.
    fn oms(self, w: &mut String, cd: &str, name: &str)
        ensures
            final(w)@ == old(w)@ + ind(self@.indent) + "<OMS "@ + match self@.next_ns {
                Some(n) => "cdbase=\""@ + escaped(n) + "\" "@,
                None => seq![],
            } + "cd=\""@ + escaped(cd@) + "\" name=\""@ + escaped(name@) + "\"/>"@,
    {
        let mut d = self;
        let ghost c = d@;
        d.indent(w);
        push_str(w, "<OMS ");
        if let Some(cdbase) = d.next_ns {
            push_str(w, "cdbase=\"");
            push_escaped(w, cdbase);
            push_str(w, "\" ");
        }
        push_str(w, "cd=\"");
        push_escaped(w, cd);
        push_str(w, "\" name=\"");
        push_escaped(w, name);
        push_str(w, "\"/>");
        assert(final(w)@ =~= old(w)@ + ind(c.indent) + "<OMS "@ + match c.next_ns {
            Some(n) => "cdbase=\""@ + escaped(n) + "\" "@,
            None => seq![],
        } + "cd=\""@ + escaped(cd@) + "\" name=\""@ + escaped(name@) + "\"/>"@);
    }

    /// Writes a symbol, declaring its cdbase if it is not the one in effect.
    #[verifier::spinoff_prover]
    #[verifier::rlimit(40)]
    fn uri(self, w: &mut String, cdbase: Option<&'s str>, cd: &str, name: &str)
        ensures
            final(w)@ == old(w)@ + xml_oms(opt_str_view(cdbase), cd@, name@, self@),
    {
        let cur = self.current_cdbase();
        let b = match cdbase {
            Some(s) => if str_eq(s, cur) { None } else { Some(s) },
            None => None,
        };
        match b {
            Some(b) => self.with_cdbase(b).oms(w, cd, name),
            None => self.oms(w, cd, name),
        }
    }
    /// Writes the opening of an OMATTR with its key-value pairs; this writer is
    /// then inside the OMATTR, where the attributed object follows.
    #[verifier::spinoff_prover]
    #[verifier::rlimit(60)]
    fn omattr_open(&mut self, w: &mut String, attrs: &'s Vec<Attr<'s, OMMaybeForeign<'s, OpenMath<'s>>>>)
        ensures
            final(w)@ == old(w)@ + omattr_open(attrs@, old(self)@),
            final(self)@ == opened(old(self)@),
        decreases attrs@, 2int,
    {
        let ghost c = self@;
        self.open(w, "OMATTR");
        let mut ci = self.indented();
        ci.indent(w);
        push_str(w, "<OMATP>");
        let cp = ci.indented();
        cp.attrs(w, attrs);
        ci.indent(w);
        push_str(w, "</OMATP>");
        assert(final(w)@ =~= old(w)@ + omattr_open(attrs@, c));
    }

    /// Writes key-value pairs.
    #[verifier::spinoff_prover]
    #[verifier::rlimit(60)]
    fn attrs(&self, w: &mut String, attrs: &'s Vec<Attr<'s, OMMaybeForeign<'s, OpenMath<'s>>>>)
        ensures
            final(w)@ == old(w)@ + xml_attrs(attrs@, self@),
        decreases attrs@, 1int,
    {
        let ghost start = w@;
        for i in 0..attrs.len()
            invariant
                w@ == start + xml_attrs(attrs@.take(i as int), self@),
        {
            let a = &attrs[i];
            assert(attrs@.take(i + 1).drop_last() =~= attrs@.take(i as int));
            self.clone().uri(w, opt_cow_str(&a.cdbase), cow_str(&a.cd), cow_str(&a.name));
            self.foreign(w, &a.value);
            assert(w@ =~= start + xml_attrs(attrs@.take(i + 1), self@));
        }
        assert(attrs@.take(attrs.len() as int) =~= attrs@);
    }

    /// Writes an object or an OMFOREIGN.
    #[verifier::spinoff_prover]
    #[verifier::rlimit(60)]
    fn foreign(&self, w: &mut String, f: &'s OMMaybeForeign<'s, OpenMath<'s>>)
        ensures
            final(w)@ == old(w)@ + xml_foreign(*f, self@),
        decreases *f, 2int,
    {
        match f {
            OMMaybeForeign::OM(o) => self.clone().om(w, o),
            OMMaybeForeign::Foreign { encoding, value } => {
                let ghost c = self@;
                let mut d = self.clone();
                let pretty = d.indent.is_some();
                if pretty {
                    d.indent(w);
                }
                match opt_cow_str(encoding) {
                    Some(enc) => {
                        push_str(w, "<OMFOREIGN encoding=\"");
                        push_escaped(w, enc);
                        push_str(w, "\">");
                    },
                    None => {
                        push_str(w, "<OMFOREIGN>");
                    },
                }
                if pretty {
                    d.indent(w);
                    push_str(w, "  ");
                    push_str(w, cow_str(value));
                    d.indent(w);
                } else {
                    push_str(w, cow_str(value));
                }
                push_str(w, "</OMFOREIGN>");
                assert(final(w)@ =~= old(w)@ + xml_foreign(*f, c));
            },
        }
    }

    /// Writes an object with its attributes.
    #[verifier::spinoff_prover]
    #[verifier::rlimit(60)]
    fn om(self, w: &mut String, o: &'s OpenMath<'s>)
        ensures
            final(w)@ == old(w)@ + xml_om(*o, self@),
        decreases *o, 2int,
    {
        let attrs = o.attributes();
        if attrs.len() > 0 {
            let ghost c = self@;
            let mut d = self;
            d.omattr_open(w, attrs);
            d.indented().plain(w, o);
            d.close(w, "OMATTR");
            assert(final(w)@ =~= old(w)@ + xml_om(*o, c));
        } else {
            self.plain(w, o);
        }
    }

    /// Writes an object without its attributes.
    #[verifier::spinoff_prover]
    #[verifier::rlimit(60)]
    fn plain(self, w: &mut String, o: &'s OpenMath<'s>)
        ensures
            final(w)@ == old(w)@ + xml_plain(*o, self@),
        decreases *o, 1int,
    {
        let ghost c = self@;
        match o {
            OpenMath::OMI { int: i, .. } => self.omi(w, i),
            OpenMath::OMF { float, .. } => self.omf(w, cow_str(float)),
            OpenMath::OMSTR { string, .. } => self.omstr(w, cow_str(string)),
            OpenMath::OMB { bytes, .. } => self.omb(w, cow_bytes(bytes)),
            OpenMath::OMV { name, .. } => self.omv(w, cow_str(name)),
            OpenMath::OMS { cd, name, cdbase, .. } => self.uri(
                w,
                opt_cow_str(cdbase),
                cow_str(cd),
                cow_str(name),
            ),
            OpenMath::OMA { .. } => self.oma(w, o),
            OpenMath::OME { .. } => self.ome(w, o),
            OpenMath::OMBIND { .. } => self.ombind(w, o),
        }
    }

    /// Writes an OMA.
    #[verifier::spinoff_prover]
    #[verifier::rlimit(60)]
    fn oma(self, w: &mut String, o: &'s OpenMath<'s>)
        requires
            o is OMA,
        ensures
            final(w)@ == old(w)@ + xml_plain(*o, self@),
        decreases *o, 0int,
    {
        let ghost c = self@;
        if let OpenMath::OMA { applicant, arguments, .. } = o {
            let mut d = self;
            d.open(w, "OMA");
            let ci = d.indented();
            ci.clone().om(w, applicant);
            ci.args(w, arguments);
            d.close(w, "OMA");
            assert(final(w)@ =~= old(w)@ + xml_plain(*o, c));
        }
    }

    /// Writes an OME.
    #[verifier::spinoff_prover]
    #[verifier::rlimit(60)]
    fn ome(self, w: &mut String, o: &'s OpenMath<'s>)
        requires
            o is OME,
        ensures
            final(w)@ == old(w)@ + xml_plain(*o, self@),
        decreases *o, 0int,
    {
        let ghost c = self@;
        if let OpenMath::OME { cd, name, cdbase, arguments, .. } = o {
            let mut d = self;
            d.open(w, "OME");
            let ci = d.indented();
            ci.clone().uri(w, opt_cow_str(cdbase), cow_str(cd), cow_str(name));
            ci.foreigns(w, arguments);
            d.close(w, "OME");
            assert(final(w)@ =~= old(w)@ + xml_plain(*o, c));
        }
    }

    /// Writes an OMBIND.
    #[verifier::spinoff_prover]
    #[verifier::rlimit(60)]
    fn ombind(self, w: &mut String, o: &'s OpenMath<'s>)
        requires
            o is OMBIND,
        ensures
            final(w)@ == old(w)@ + xml_plain(*o, self@),
        decreases *o, 0int,
    {
        let ghost c = self@;
        if let OpenMath::OMBIND { binder, variables, object, .. } = o {
            let mut d = self;
            d.open(w, "OMBIND");
            let mut ci = d.indented();
            ci.clone().om(w, binder);
            ci.ombvar(w, variables);
            ci.clone().om(w, object);
            d.close(w, "OMBIND");
            assert(final(w)@ =~= old(w)@ + xml_plain(*o, c));
        }
    }

    /// Writes the OMBVAR element of an OMBIND.
    #[verifier::spinoff_prover]
    #[verifier::rlimit(60)]
    fn ombvar(&mut self, w: &mut String, variables: &'s Vec<BoundVariable<'s>>)
        requires
            old(self)@.indent matches Some((h, _)) ==> h,
        ensures
            final(w)@ == old(w)@ + xml_ombvar(variables@, old(self)@),
            final(self)@ == old(self)@,
        decreases variables@, 2int,
    {
        let ghost c = self@;
        let ghost w0 = w@;
        self.indent(w);
        assert(self@ == c);
        push_str(w, "<OMBVAR");
        let ghost w1 = w@;
        assert(w1 == w0 + ind(c.indent) + "<OMBVAR"@);
        if variables.len() == 0 {
            push_str(w, "/>");
            assert(w@ =~= w0 + xml_ombvar(variables@, c));
        } else {
            push_str(w, ">");
            let inner_w = self.indented();
            inner_w.vars(w, variables);
            let ghost w2 = w@;
            let ghost xv = xml_vars(variables@, XmlCtx { indent: deeper(c.indent), ..c });
            assert(w2 == w1 + ">"@ + xv);
            self.indent(w);
            push_str(w, "</OMBVAR>");
            assert(w@ == w2 + ind(c.indent) + "</OMBVAR>"@);
            assert(xml_ombvar(variables@, c) == ind(c.indent) + "<OMBVAR"@ + (">"@ + xv + ind(c.indent)
                + "</OMBVAR>"@));
            proof {
                lemma_regroup(w0, ind(c.indent), "<OMBVAR"@, ">"@, xv, ind(c.indent), "</OMBVAR>"@);
            }
        }
    }

    /// Writes objects, each in the state of this writer.
    #[verifier::spinoff_prover]
    #[verifier::rlimit(60)]
    fn args(&self, w: &mut String, s: &'s Vec<OpenMath<'s>>)
        ensures
            final(w)@ == old(w)@ + xml_args(s@, self@),
        decreases s@, 1int,
    {
        let ghost start = w@;
        for i in 0..s.len()
            invariant
                w@ == start + xml_args(s@.take(i as int), self@),
        {
            assert(s@.take(i + 1).drop_last() =~= s@.take(i as int));
            self.clone().om(w, &s[i]);
            assert(w@ =~= start + xml_args(s@.take(i + 1), self@));
        }
        assert(s@.take(s.len() as int) =~= s@);
    }

    /// Writes objects or OMFOREIGNs, each in the state of this writer.
    #[verifier::spinoff_prover]
    #[verifier::rlimit(60)]
    fn foreigns(&self, w: &mut String, s: &'s Vec<OMMaybeForeign<'s, OpenMath<'s>>>)
        ensures
            final(w)@ == old(w)@ + xml_foreigns(s@, self@),
        decreases s@, 1int,
    {
        let ghost start = w@;
        for i in 0..s.len()
            invariant
                w@ == start + xml_foreigns(s@.take(i as int), self@),
        {
            assert(s@.take(i + 1).drop_last() =~= s@.take(i as int));
            self.foreign(w, &s[i]);
            assert(w@ =~= start + xml_foreigns(s@.take(i + 1), self@));
        }
        assert(s@.take(s.len() as int) =~= s@);
    }

    /// Writes the bound variables of an OMBIND.
    #[verifier::spinoff_prover]
    #[verifier::rlimit(60)]
    fn vars(&self, w: &mut String, s: &'s Vec<BoundVariable<'s>>)
        ensures
            final(w)@ == old(w)@ + xml_vars(s@, self@),
        decreases s@, 1int,
    {
        let ghost start = w@;
        for i in 0..s.len()
            invariant
                w@ == start + xml_vars(s@.take(i as int), self@),
        {
            assert(s@.take(i + 1).drop_last() =~= s@.take(i as int));
            self.var(w, &s[i]);
            assert(w@ =~= start + xml_vars(s@.take(i + 1), self@));
        }
        assert(s@.take(s.len() as int) =~= s@);
    }

    /// Writes one bound variable.
    #[verifier::spinoff_prover]
    #[verifier::rlimit(60)]
    fn var(&self, w: &mut String, v: &'s BoundVariable<'s>)
        ensures
            final(w)@ == old(w)@ + xml_var(*v, self@),
        decreases *v, 1int,
    {
        let ghost c = self@;
        if v.attributes.len() == 0 {
            self.clone().omv(w, cow_str(&v.name));
        } else {
            let mut d = self.clone();
            d.omattr_open(w, &v.attributes);
            d.indented().omv(w, cow_str(&v.name));
            d.close(w, "OMATTR");
            assert(final(w)@ =~= old(w)@ + xml_var(*v, c));
        }
    }
}

/// Writes an object as OpenMath XML; see [`XmlDisplay::to_string`].
pub struct XmlDisplay<'s, 'om> {
    /// Whether to break lines and indent
    pub pretty: bool,
    /// The object
    pub o: &'s OpenMath<'om>,
    /// The cdbase the object declares for itself, if any
    pub cdbase: Option<&'s str>,
}

/// The context a top-level object is written in.
pub open spec fn top_ctx(pretty: bool, cdbase: Option<Seq<char>>) -> XmlCtx {
    XmlCtx {
        indent: if pretty { Some((false, Seq::<char>::empty())) } else { None },
        next_ns: cdbase,
        current_ns: OPENMATH_BASE_URI@,
    }
}

/// The context the object of an OMOBJ is written in.
pub open spec fn obj_ctx(pretty: bool, ns: Seq<char>) -> XmlCtx {
    XmlCtx {
        indent: if pretty { Some((true, seq![' ', ' '])) } else { None },
        next_ns: None,
        current_ns: ns,
    }
}

/// The XML of an OMOBJ wrapping an object.
pub open spec fn xml_omobj(o: OpenMath, pretty: bool, insert_namespace: bool, cdbase: Option<Seq<char>>) -> Seq<char> {
    "<OMOBJ version=\"2.0\""@ + (if insert_namespace {
        " xmlns=\""@ + XML_NAMESPACE@ + seq!['"']
    } else {
        seq![]
    }) + match cdbase {
        Some(ns) => " cdbase=\""@ + escaped(ns) + seq!['"'],
        None => seq![],
    } + seq!['>'] + xml_om(
        o,
        obj_ctx(
            pretty,
            match cdbase {
                Some(ns) => ns,
                None => OPENMATH_BASE_URI@,
            },
        ),
    ) + if pretty {
        "\n</OMOBJ>"@
    } else {
        "</OMOBJ>"@
    }
}

impl<'s, 'om> XmlDisplay<'s, 'om> {
    /// The OpenMath XML of the object.
    pub fn to_string(&self) -> (r: String)
        ensures
            r@ == xml_om(*self.o, top_ctx(self.pretty, opt_str_view(self.cdbase))),
    {
        let mut w = String::new();
        let d = XmlDisplayer {
            indent: if self.pretty { Some((false, String::new())) } else { None },
            next_ns: self.cdbase,
            current_ns: OPENMATH_BASE_URI,
        };
        d.om(&mut w, self.o);
        w
    }
}

/// Writes an object as the OpenMath XML of an OMOBJ; see [`XmlObjDisplay::to_string`].
pub struct XmlObjDisplay<'s, 'om> {
    /// Whether to break lines and indent
    pub pretty: bool,
    /// Whether to declare the OpenMath XML namespace
    pub insert_namespace: bool,
    /// The object
    pub o: &'s OpenMath<'om>,
    /// The cdbase the object declares for itself, if any
    pub cdbase: Option<&'s str>,
}

impl<'s, 'om> XmlObjDisplay<'s, 'om> {
    /// The OpenMath XML of the OMOBJ.
    pub fn to_string(&self) -> (r: String)
        ensures
            r@ == xml_omobj(*self.o, self.pretty, self.insert_namespace, opt_str_view(self.cdbase)),
    {
        let mut w = String::new();
        push_str(&mut w, "<OMOBJ version=\"2.0\"");
        if self.insert_namespace {
            push_str(&mut w, " xmlns=\"");
            push_str(&mut w, XML_NAMESPACE);
            push_char(&mut w, '"');
        }
        let ns = match self.cdbase {
            Some(ns) => {
                push_str(&mut w, " cdbase=\"");
                push_escaped(&mut w, ns);
                push_char(&mut w, '"');
                ns
            },
            None => OPENMATH_BASE_URI,
        };
        push_char(&mut w, '>');
        let indent = if self.pretty {
            let mut p = String::new();
            push_str(&mut p, "  ");
            proof {
                reveal_strlit("  ");
                assert("  "@ =~= seq![' ', ' ']);
            }
            Some((true, p))
        } else {
            None
        };
        let d = XmlDisplayer { indent, next_ns: None, current_ns: ns };
        d.om(&mut w, self.o);
        if self.pretty {
            push_str(&mut w, "\n</OMOBJ>");
        } else {
            push_str(&mut w, "</OMOBJ>");
        }
        assert(w@ =~= xml_omobj(*self.o, self.pretty, self.insert_namespace, opt_str_view(self.cdbase)));
        w
    }
}

} // verus!
