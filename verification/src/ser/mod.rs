//! Serialization of OpenMath objects: the compact display format, and the XML
//! encoding (in [`xml`]).
use std::borrow::Cow;
use vstd::prelude::*;

use crate::integer::int_text;
use crate::om::{attributes_of, cow_str, opt_cow_str, opt_view, Attr, BoundVariable, OMMaybeForeign, OpenMath};
use crate::text::{nat_decimal, push_char, push_str, push_u128_decimal, str_eq};
use crate::OPENMATH_BASE_URI;

pub mod xml;

pub use xml::{XmlDisplay, XmlObjDisplay, XmlWriteError};

verus! {

/// Errors of the writers of OpenMath objects.
pub trait Error: Sized {
    /// An error with the given message, for what an object cannot write.
    fn custom(err: String) -> Self;
}

/// Convenience structure for the symbol of an OMS: its cdbase, cd and name.
pub struct Uri<'s> {
    /// The content dictionary base
    pub cdbase: Option<&'s str>,
    /// The name of the content dictionary
    pub cd: &'s str,
    /// The name of the symbol
    pub name: &'s str,
}

impl<'s> Uri<'s> {
    /// The cdbase to declare for this symbol where `current_cdbase` is in
    /// effect: its own, unless it is that one.
    pub fn cdbase(&self, current_cdbase: &str) -> (r: Option<&'s str>)
        ensures
            match r {
                Some(s) => self.cdbase == Some(s) && s@ != current_cdbase@,
                None => self.cdbase matches Some(s) ==> s@ == current_cdbase@,
            },
    {
        match self.cdbase {
            Some(s) => if str_eq(s, current_cdbase) { None } else { Some(s) },
            None => None,
        }
    }

    /// The cd of this symbol
    pub fn cd(&self) -> (r: &'s str)
        ensures
            r == self.cd,
    {
        self.cd
    }

    /// The name of this symbol
    pub fn name(&self) -> (r: &'s str)
        ensures
            r == self.name,
    {
        self.name
    }
}

impl<'s> Uri<'s> {
    /// The OMS of this symbol.
    pub fn as_oms(&self) -> (r: OpenMath<'s>)
        ensures
            r matches OpenMath::OMS { cd, name, cdbase, attributes } && cd@ == self.cd@ && name@
                == self.name@ && opt_view(cdbase) == match self.cdbase {
                Some(s) => Some(s@),
                None => None::<Seq<char>>,
            } && attributes@.len() == 0,
    {
        OpenMath::OMS {
            cd: Cow::Borrowed(self.cd),
            name: Cow::Borrowed(self.name),
            cdbase: match self.cdbase {
                Some(s) => Some(Cow::Borrowed(s)),
                None => None,
            },
            attributes: Vec::new(),
        }
    }
}

/// Convenience structure for an OMV: its name.
pub struct Omv<'s>(pub &'s str);

impl<'s> Omv<'s> {
    /// The OMV of this name.
    pub fn to_openmath(&self) -> (r: OpenMath<'s>)
        ensures
            r matches OpenMath::OMV { name, attributes } && name@ == self.0@ && attributes@.len()
                == 0,
    {
        OpenMath::OMV { name: Cow::Borrowed(self.0), attributes: Vec::new() }
    }
}

/// Where the display writer stands: the cdbase to show on the next element,
/// and the cdbase in effect.
pub ghost struct DispCtx {
    pub next_ns: Option<Seq<char>>,
    pub current_ns: Seq<char>,
}

/// The cdbase in effect for the next element.
pub open spec fn disp_current(c: DispCtx) -> Seq<char> {
    match c.next_ns {
        Some(n) => n,
        None => c.current_ns,
    }
}

/// Entering a cdbase: shown on the next element unless it is the one in effect.
pub open spec fn disp_with_cdbase(c: DispCtx, b: Seq<char>) -> DispCtx {
    if c.current_ns == b {
        c
    } else {
        DispCtx { next_ns: Some(b), ..c }
    }
}

/// The writer inside a compound element: the shown cdbase is now in effect.
pub open spec fn taken(c: DispCtx) -> DispCtx {
    match c.next_ns {
        Some(s) => DispCtx { next_ns: None, current_ns: s },
        None => c,
    }
}

/// The `@cdbase` after the tag of a compound element.
pub open spec fn at_prefix(c: DispCtx) -> Seq<char> {
    match c.next_ns {
        Some(s) => seq!['@'] + s,
        None => seq![],
    }
}

/// The `cdbase/` before the cd of a symbol.
pub open spec fn ns_prefix(c: DispCtx) -> Seq<char> {
    match c.next_ns {
        Some(s) => s + seq!['/'],
        None => seq![],
    }
}

/// A symbol.
pub open spec fn disp_oms(cb: Option<Seq<char>>, cd: Seq<char>, name: Seq<char>, c: DispCtx) -> Seq<char> {
    let c2 = match cb {
        Some(s) => if s == disp_current(c) { c } else { disp_with_cdbase(c, s) },
        None => c,
    };
    "OMS("@ + ns_prefix(c2) + cd + seq!['#'] + name + seq![')']
}

/// The bytes of an OMB, in decimal, separated by commas.
pub open spec fn bytes_list(b: Seq<u8>) -> Seq<char>
    decreases b.len(),
{
    if b.len() == 0 {
        seq![]
    } else if b.len() == 1 {
        nat_decimal(b[0] as nat)
    } else {
        bytes_list(b.drop_last()) + seq![','] + nat_decimal(b.last() as nat)
    }
}

/// An object with its attributes.
pub open spec fn disp_om(o: OpenMath, c: DispCtx) -> Seq<char>
    decreases o, 2int,
{
    let attrs = attributes_of(o)@;
    if attrs.len() > 0 {
        "OMATTR"@ + at_prefix(c) + seq!['('] + disp_plain(o, taken(c)) + seq![',', '['] + disp_attrs(
            attrs,
            taken(c),
        ) + seq![']', ')']
    } else {
        disp_plain(o, c)
    }
}

/// Key-value pairs, separated by `, `.
pub open spec fn disp_attrs(s: Seq<Attr<OMMaybeForeign<OpenMath>>>, c: DispCtx) -> Seq<char>
    decreases s, 1int,
{
    if s.len() == 0 {
        seq![]
    } else {
        let a = s.last();
        disp_attrs(s.drop_last(), c) + (if s.len() > 1 { seq![',', ' '] } else { seq![] }) + disp_oms(
            opt_view(a.cdbase),
            a.cd@,
            a.name@,
            c,
        ) + " = "@ + disp_foreign(a.value, c)
    }
}

/// An object or an OMFOREIGN.
pub open spec fn disp_foreign(f: OMMaybeForeign<OpenMath>, c: DispCtx) -> Seq<char>
    decreases f, 2int,
{
    match f {
        OMMaybeForeign::OM(o) => disp_om(o, c),
        OMMaybeForeign::Foreign { encoding: Some(e), value } => "OMFOREIGN(encoding:"@ + e@ + seq![','] + value@
            + seq![')'],
        OMMaybeForeign::Foreign { encoding: None, value } => "OMFOREIGN("@ + value@ + seq![')'],
    }
}

/// An object without its attributes.
pub open spec fn disp_plain(o: OpenMath, c: DispCtx) -> Seq<char>
    decreases o, 1int,
{
    match o {
        OpenMath::OMI { int: i, .. } => "OMI("@ + int_text(i@) + seq![')'],
        OpenMath::OMF { float, .. } => "OMF("@ + float@ + seq![')'],
        OpenMath::OMSTR { string, .. } => "OMSTR(\""@ + string@ + seq!['"', ')'],
        OpenMath::OMB { bytes, .. } => "OMB("@ + bytes_list(bytes@) + seq![')'],
        OpenMath::OMV { name, .. } => "OMV("@ + name@ + seq![')'],
        OpenMath::OMS { cd, name, cdbase, .. } => disp_oms(opt_view(cdbase), cd@, name@, c),
        OpenMath::OMA { applicant, arguments, .. } => if arguments.len() == 0 {
            disp_om(*applicant, taken(c))
        } else {
            "OMA"@ + at_prefix(c) + seq!['('] + disp_om(*applicant, taken(c)) + disp_args(
                arguments@,
                taken(c),
            ) + seq![')']
        },
        OpenMath::OME { cd, name, arguments, .. } => "OME"@ + ns_prefix(c) + cd@ + seq!['#'] + name@
            + seq!['('] + disp_foreigns(arguments@, c) + seq![')'],
        OpenMath::OMBIND { binder, variables, object, .. } => "OMBIND"@ + at_prefix(c) + seq!['(']
            + disp_om(*binder, taken(c)) + seq![',', '['] + disp_vars(variables@, taken(c)) + seq![
            ']',
            ',',
        ] + disp_om(*object, taken(c)) + seq![')'],
    }
}

/// Arguments of an OMA, each after a comma.
pub open spec fn disp_args(s: Seq<OpenMath>, c: DispCtx) -> Seq<char>
    decreases s, 1int,
{
    if s.len() == 0 {
        seq![]
    } else {
        disp_args(s.drop_last(), c) + seq![','] + disp_om(s.last(), c)
    }
}

/// Arguments of an OME, separated by commas.
pub open spec fn disp_foreigns(s: Seq<OMMaybeForeign<OpenMath>>, c: DispCtx) -> Seq<char>
    decreases s, 1int,
{
    if s.len() == 0 {
        seq![]
    } else {
        disp_foreigns(s.drop_last(), c) + (if s.len() > 1 { seq![','] } else { seq![] }) + disp_foreign(
            s.last(),
            c,
        )
    }
}

/// The bound variables of an OMBIND: plain names separated by `, `, and the
/// attributed ones as OMATTRs, where a `, ` comes before the first of the
/// variables only if it is attributed.
pub open spec fn disp_vars(s: Seq<BoundVariable>, c: DispCtx) -> Seq<char>
    decreases s, 1int,
{
    if s.len() == 0 {
        seq![]
    } else {
        disp_vars(s.drop_last(), c) + disp_var(s.last(), s.len() == 1, c)
    }
}

/// One bound variable.
pub open spec fn disp_var(v: BoundVariable, first: bool, c: DispCtx) -> Seq<char>
    decreases v, 1int,
{
    if v.attributes.len() == 0 {
        (if first { seq![] } else { seq![',', ' '] }) + v.name@
    } else {
        (if first { seq![',', ' '] } else { seq![] }) + "OMATTR("@ + "OMV("@ + v.name@ + seq![')']
            + seq![',', '['] + disp_attrs(
            v.attributes@,
            DispCtx { next_ns: None, current_ns: c.current_ns },
        ) + seq![']', ')']
    }
}

/// The display writer's state: what [`DispCtx`] describes, in executable values.
struct DisplaySerializer<'s> {
    next_ns: Option<&'s str>,
    current_ns: &'s str,
}

impl<'s> View for DisplaySerializer<'s> {
    type V = DispCtx;

    closed spec fn view(&self) -> DispCtx {
        DispCtx {
            next_ns: match self.next_ns {
                Some(s) => Some(s@),
                None => None,
            },
            current_ns: self.current_ns@,
        }
    }
}

impl<'s> DisplaySerializer<'s> {
    /// A copy of this writer.
    fn copy(&self) -> (r: DisplaySerializer<'s>)
        ensures
            r@ == self@,
    {
        DisplaySerializer { next_ns: self.next_ns, current_ns: self.current_ns }
    }

    /// The cdbase in effect for the next element.
    fn current_cdbase(&self) -> (r: &'s str)
        ensures
            r@ == disp_current(self@),
    {
        match self.next_ns {
            Some(n) => n,
            None => self.current_ns,
        }
    }

    /// Enters `cdbase`.
    fn with_cdbase(self, cdbase: &'s str) -> (r: DisplaySerializer<'s>)
        ensures
            r@ == disp_with_cdbase(self@, cdbase@),
    {
        if str_eq(self.current_ns, cdbase) {
            self
        } else {
            DisplaySerializer { next_ns: Some(cdbase), current_ns: self.current_ns }
        }
    }

    /// Writes the tag of a compound element with its `@cdbase`; returns the
    /// writer for its content.
    fn open(&self, w: &mut String, tag: &str) -> (r: DisplaySerializer<'s>)
        ensures
            final(w)@ == old(w)@ + tag@ + at_prefix(self@) + seq!['('],
            r@ == taken(self@),
    {
        push_str(w, tag);
        match self.next_ns {
            Some(s) => {
                push_char(w, '@');
                push_str(w, s);
                push_char(w, '(');
                DisplaySerializer { next_ns: None, current_ns: s }
            },
            None => {
                push_char(w, '(');
                self.copy()
            },
        }
    }

    /// Writes the `cdbase/` of the next element, if any.
    fn ns_prefix(&self, w: &mut String)
        ensures
            final(w)@ == old(w)@ + ns_prefix(self@),
    {
        if let Some(s) = self.next_ns {
            push_str(w, s);
            push_char(w, '/');
        }
    }

    /// Writes a symbol.
    fn oms(&self, w: &mut String, cdbase: Option<&'s str>, cd: &str, name: &str)
        ensures
            final(w)@ == old(w)@ + disp_oms(
                match cdbase {
                    Some(s) => Some(s@),
                    None => None,
                },
                cd@,
                name@,
                self@,
            ),
    {
        let cur = self.current_cdbase();
        let d = match cdbase {
            Some(s) => if str_eq(s, cur) { self.copy() } else { self.copy().with_cdbase(s) },
            None => self.copy(),
        };
        push_str(w, "OMS(");
        d.ns_prefix(w);
        push_str(w, cd);
        push_char(w, '#');
        push_str(w, name);
        push_char(w, ')');
    }

    /// Writes the bytes of an OMB.
    fn omb(&self, w: &mut String, bytes: &[u8])
        ensures
            final(w)@ == old(w)@ + "OMB("@ + bytes_list(bytes@) + seq![')'],
    {
        push_str(w, "OMB(");
        let ghost start = w@;
        for i in 0..bytes.len()
            invariant
                w@ == start + bytes_list(bytes@.take(i as int)),
        {
            assert(bytes@.take(i + 1).drop_last() =~= bytes@.take(i as int));
            if i > 0 {
                push_char(w, ',');
            } else {
                assert(bytes@.take(0) =~= Seq::<u8>::empty());
            }
            push_u128_decimal(w, bytes[i] as u128);
            assert(w@ =~= start + bytes_list(bytes@.take(i + 1)));
        }
        assert(bytes@.take(bytes.len() as int) =~= bytes@);
        push_char(w, ')');
    }

    /// Writes an object with its attributes.
    fn om(&self, w: &mut String, o: &'s OpenMath<'s>)
        ensures
            final(w)@ == old(w)@ + disp_om(*o, self@),
        decreases *o, 2int,
    {
        let attrs = o.attributes();
        if attrs.len() > 0 {
            let t = self.open(w, "OMATTR");
            t.plain(w, o);
            push_char(w, ',');
            push_char(w, '[');
            t.attrs(w, attrs);
            push_char(w, ']');
            push_char(w, ')');
            proof {
                reveal_strlit("OMATTR");
            }
            assert(final(w)@ =~= old(w)@ + disp_om(*o, self@));
        } else {
            self.plain(w, o);
        }
    }

    /// Writes key-value pairs.
    fn attrs(&self, w: &mut String, attrs: &'s Vec<Attr<'s, OMMaybeForeign<'s, OpenMath<'s>>>>)
        ensures
            final(w)@ == old(w)@ + disp_attrs(attrs@, self@),
        decreases attrs@, 1int,
    {
        let ghost start = w@;
        for i in 0..attrs.len()
            invariant
                w@ == start + disp_attrs(attrs@.take(i as int), self@),
        {
            let a = &attrs[i];
            assert(attrs@.take(i + 1).drop_last() =~= attrs@.take(i as int));
            if i > 0 {
                push_str(w, ", ");
                proof {
                    reveal_strlit(", ");
                    assert(", "@ =~= seq![',', ' ']);
                }
            }
            self.oms(w, opt_cow_str(&a.cdbase), cow_str(&a.cd), cow_str(&a.name));
            push_str(w, " = ");
            self.foreign(w, &a.value);
            assert(w@ =~= start + disp_attrs(attrs@.take(i + 1), self@));
        }
        assert(attrs@.take(attrs.len() as int) =~= attrs@);
    }

    /// Writes an object or an OMFOREIGN.
    fn foreign(&self, w: &mut String, f: &'s OMMaybeForeign<'s, OpenMath<'s>>)
        ensures
            final(w)@ == old(w)@ + disp_foreign(*f, self@),
        decreases *f, 2int,
    {
        match f {
            OMMaybeForeign::OM(o) => self.om(w, o),
            OMMaybeForeign::Foreign { encoding, value } => {
                match opt_cow_str(encoding) {
                    Some(enc) => {
                        push_str(w, "OMFOREIGN(encoding:");
                        push_str(w, enc);
                        push_char(w, ',');
                    },
                    None => {
                        push_str(w, "OMFOREIGN(");
                    },
                }
                push_str(w, cow_str(value));
                push_char(w, ')');
                assert(final(w)@ =~= old(w)@ + disp_foreign(*f, self@));
            },
        }
    }

    /// Writes an object without its attributes.
    #[verifier::spinoff_prover]
    #[verifier::rlimit(60)]
    fn plain(&self, w: &mut String, o: &'s OpenMath<'s>)
        ensures
            final(w)@ == old(w)@ + disp_plain(*o, self@),
        decreases *o, 1int,
    {
        match o {
            OpenMath::OMI { int: i, .. } => {
                push_str(w, "OMI(");
                i.push_text(w);
                push_char(w, ')');
            },
            OpenMath::OMF { float, .. } => {
                push_str(w, "OMF(");
                push_str(w, cow_str(float));
                push_char(w, ')');
            },
            OpenMath::OMSTR { string, .. } => {
                push_str(w, "OMSTR(\"");
                push_str(w, cow_str(string));
                push_char(w, '"');
                push_char(w, ')');
            },
            OpenMath::OMB { bytes, .. } => self.omb(w, cow_bytes(bytes)),
            OpenMath::OMV { name, .. } => {
                push_str(w, "OMV(");
                push_str(w, cow_str(name));
                push_char(w, ')');
            },
            OpenMath::OMS { cd, name, cdbase, .. } => self.oms(
                w,
                opt_cow_str(cdbase),
                cow_str(cd),
                cow_str(name),
            ),
            OpenMath::OMA { .. } => self.oma(w, o),
            OpenMath::OME { .. } => self.ome(w, o),
            OpenMath::OMBIND { .. } => self.ombind(w, o),
        }
        assert(final(w)@ =~= old(w)@ + disp_plain(*o, self@));
    }

    /// Writes an OMA.
    #[verifier::spinoff_prover]
    #[verifier::rlimit(60)]
    fn oma(&self, w: &mut String, o: &'s OpenMath<'s>)
        requires
            o is OMA,
        ensures
            final(w)@ == old(w)@ + disp_plain(*o, self@),
        decreases *o, 0int,
    {
        if let OpenMath::OMA { applicant, arguments, .. } = o {
            if arguments.len() == 0 {
                let t = DisplaySerializer::taken_of(self);
                t.om(w, applicant);
            } else {
                let t = self.open(w, "OMA");
                t.om(w, applicant);
                t.args(w, arguments);
                push_char(w, ')');
                proof {
                    reveal_strlit("OMA");
                }
                assert(final(w)@ =~= old(w)@ + disp_plain(*o, self@));
            }
        }
    }

    /// The writer for the content of a compound element, without writing anything.
    fn taken_of(&self) -> (r: DisplaySerializer<'s>)
        ensures
            r@ == taken(self@),
    {
        match self.next_ns {
            Some(s) => DisplaySerializer { next_ns: None, current_ns: s },
            None => self.copy(),
        }
    }

    /// Writes an OME.
    #[verifier::spinoff_prover]
    #[verifier::rlimit(60)]
    fn ome(&self, w: &mut String, o: &'s OpenMath<'s>)
        requires
            o is OME,
        ensures
            final(w)@ == old(w)@ + disp_plain(*o, self@),
        decreases *o, 0int,
    {
        if let OpenMath::OME { cd, name, arguments, .. } = o {
            push_str(w, "OME");
            self.ns_prefix(w);
            push_str(w, cow_str(cd));
            push_char(w, '#');
            push_str(w, cow_str(name));
            push_char(w, '(');
            self.foreigns(w, arguments);
            push_char(w, ')');
            proof {
                reveal_strlit("OME");
            }
            assert(final(w)@ =~= old(w)@ + disp_plain(*o, self@));
        }
    }

    /// Writes an OMBIND.
    #[verifier::spinoff_prover]
    #[verifier::rlimit(60)]
    fn ombind(&self, w: &mut String, o: &'s OpenMath<'s>)
        requires
            o is OMBIND,
        ensures
            final(w)@ == old(w)@ + disp_plain(*o, self@),
        decreases *o, 0int,
    {
        if let OpenMath::OMBIND { binder, variables, object, .. } = o {
            let t = self.open(w, "OMBIND");
            t.om(w, binder);
            push_char(w, ',');
            push_char(w, '[');
            t.vars(w, variables);
            push_char(w, ']');
            push_char(w, ',');
            t.om(w, object);
            push_char(w, ')');
            proof {
                reveal_strlit("OMBIND");
            }
            assert(final(w)@ =~= old(w)@ + disp_plain(*o, self@));
        }
    }

    /// Writes the arguments of an OMA.
    fn args(&self, w: &mut String, s: &'s Vec<OpenMath<'s>>)
        ensures
            final(w)@ == old(w)@ + disp_args(s@, self@),
        decreases s@, 1int,
    {
        let ghost start = w@;
        for i in 0..s.len()
            invariant
                w@ == start + disp_args(s@.take(i as int), self@),
        {
            assert(s@.take(i + 1).drop_last() =~= s@.take(i as int));
            push_char(w, ',');
            self.om(w, &s[i]);
            assert(w@ =~= start + disp_args(s@.take(i + 1), self@));
        }
        assert(s@.take(s.len() as int) =~= s@);
    }

    /// Writes the arguments of an OME.
    fn foreigns(&self, w: &mut String, s: &'s Vec<OMMaybeForeign<'s, OpenMath<'s>>>)
        ensures
            final(w)@ == old(w)@ + disp_foreigns(s@, self@),
        decreases s@, 1int,
    {
        let ghost start = w@;
        for i in 0..s.len()
            invariant
                w@ == start + disp_foreigns(s@.take(i as int), self@),
        {
            assert(s@.take(i + 1).drop_last() =~= s@.take(i as int));
            if i > 0 {
                push_char(w, ',');
            }
            self.foreign(w, &s[i]);
            assert(w@ =~= start + disp_foreigns(s@.take(i + 1), self@));
        }
        assert(s@.take(s.len() as int) =~= s@);
    }

    /// Writes the bound variables of an OMBIND.
    fn vars(&self, w: &mut String, s: &'s Vec<BoundVariable<'s>>)
        ensures
            final(w)@ == old(w)@ + disp_vars(s@, self@),
        decreases s@, 1int,
    {
        let ghost start = w@;
        for i in 0..s.len()
            invariant
                w@ == start + disp_vars(s@.take(i as int), self@),
        {
            assert(s@.take(i + 1).drop_last() =~= s@.take(i as int));
            self.var(w, &s[i], i == 0);
            assert(w@ =~= start + disp_vars(s@.take(i + 1), self@));
        }
        assert(s@.take(s.len() as int) =~= s@);
    }

    /// Writes one bound variable.
    #[verifier::spinoff_prover]
    #[verifier::rlimit(60)]
    fn var(&self, w: &mut String, v: &'s BoundVariable<'s>, first: bool)
        ensures
            final(w)@ == old(w)@ + disp_var(*v, first, self@),
        decreases *v, 1int,
    {
        if v.attributes.len() == 0 {
            if !first {
                push_char(w, ',');
                push_char(w, ' ');
            }
            push_str(w, cow_str(&v.name));
        } else {
            if first {
                push_char(w, ',');
                push_char(w, ' ');
            }
            let t = DisplaySerializer { next_ns: None, current_ns: self.current_ns };
            push_str(w, "OMATTR(");
            push_str(w, "OMV(");
            push_str(w, cow_str(&v.name));
            push_char(w, ')');
            push_char(w, ',');
            push_char(w, '[');
            t.attrs(w, &v.attributes);
            push_char(w, ']');
            push_char(w, ')');
            proof {
                reveal_strlit("OMATTR(");
                reveal_strlit("OMV(");
            }
        }
        assert(final(w)@ =~= old(w)@ + disp_var(*v, first, self@));
    }
}

/// The bytes a byte string holds, borrowed.
pub fn cow_bytes<'a>(c: &'a Cow<'_, [u8]>) -> (r: &'a [u8])
    ensures
        r@ == c@,
{
    match c {
        Cow::Borrowed(b) => b,
        Cow::Owned(v) => v.as_slice(),
    }
}

/// Shows an object in the compact display format, for example
/// `OMA(OMS(arith1#plus),OMI(1),OMI(2))`; see [`OMDisplay::to_string`].
pub struct OMDisplay<'s, 'om> {
    /// The object
    pub o: &'s OpenMath<'om>,
    /// The cdbase the object declares for itself, if any
    pub cdbase: Option<&'s str>,
}

/// The context a top-level object is shown in.
pub open spec fn disp_top(cdbase: Option<Seq<char>>) -> DispCtx {
    DispCtx { next_ns: cdbase, current_ns: OPENMATH_BASE_URI@ }
}

impl<'s, 'om> OMDisplay<'s, 'om> {
    /// The display text of the object.
    pub fn to_string(&self) -> (r: String)
        ensures
            r@ == disp_om(
                *self.o,
                disp_top(
                    match self.cdbase {
                        Some(s) => Some(s@),
                        None => None,
                    },
                ),
            ),
    {
        let mut w = String::new();
        let d = DisplaySerializer { next_ns: self.cdbase, current_ns: OPENMATH_BASE_URI };
        d.om(&mut w, self.o);
        w
    }
}

/// Wrapper that produces an OMOBJ wrapper in serialization
pub struct OMObject<'s, 'om>(pub &'s OpenMath<'om>);

impl<'s, 'om> OMObject<'s, 'om> {
    /// Returns the writer of the OpenMath XML of the OMOBJ.
    pub fn xml(&self, pretty: bool, insert_namespace: bool) -> (r: XmlObjDisplay<'s, 'om>)
        ensures
            r.o == self.0,
            r.pretty == pretty,
            r.insert_namespace == insert_namespace,
            r.cdbase is None,
    {
        XmlObjDisplay { o: self.0, pretty, insert_namespace, cdbase: None }
    }

    /// The display text of the OMOBJ: `OMOBJ(...)`.
    pub fn to_string(&self) -> (r: String)
        ensures
            r@ == "OMOBJ("@ + disp_om(*self.0, disp_top(None)) + seq![')'],
    {
        let mut w = String::new();
        push_str(&mut w, "OMOBJ(");
        let d = DisplaySerializer { next_ns: None, current_ns: OPENMATH_BASE_URI };
        d.om(&mut w, self.0);
        push_char(&mut w, ')');
        w
    }
}

impl<'om> OpenMath<'om> {
    /// The writer of the OpenMath XML of this object.
    pub fn xml<'s>(&'s self, pretty: bool) -> (r: XmlDisplay<'s, 'om>)
        ensures
            r.o == self,
            r.pretty == pretty,
            r.cdbase is None,
    {
        XmlDisplay { pretty, o: self, cdbase: None }
    }

    /// The compact display of this object.
    pub fn openmath_display<'s>(&'s self) -> (r: OMDisplay<'s, 'om>)
        ensures
            r.o == self,
            r.cdbase is None,
    {
        OMDisplay { o: self, cdbase: None }
    }

    /// This object as the content of an OMOBJ.
    pub fn omobject<'s>(&'s self) -> (r: OMObject<'s, 'om>)
        ensures
            r.0 == self,
    {
        OMObject(self)
    }
}

/// How the display shows one key-value pair: the symbol of its key, ` = `,
/// and the display of its value.
pub open spec fn disp_pair(a: Attr<OMMaybeForeign<OpenMath>>, c: DispCtx) -> Seq<char> {
    disp_oms(opt_view(a.cdbase), a.cd@, a.name@, c) + " = "@ + disp_foreign(a.value, c)
}

/// The pairs in `s`, each as [`disp_pair`] shows it, one after the other
/// with `, ` between two of them.
pub open spec fn joined_pairs(s: Seq<Attr<OMMaybeForeign<OpenMath>>>, c: DispCtx) -> Seq<char>
    decreases s.len(),
{
    if s.len() == 0 {
        seq![]
    } else if s.len() == 1 {
        disp_pair(s[0], c)
    } else {
        disp_pair(s[0], c) + seq![',', ' '] + joined_pairs(s.drop_first(), c)
    }
}

/// Adding a key-value pair to the attributes adds it to their display: after
/// what was shown, `, ` where something was, then the new pair.
pub proof fn lemma_disp_attrs_push(s: Seq<Attr<OMMaybeForeign<OpenMath>>>, a: Attr<OMMaybeForeign<OpenMath>>, c: DispCtx)
    ensures
        disp_attrs(s.push(a), c) == disp_attrs(s, c) + (if s.len() > 0 {
            seq![',', ' ']
        } else {
            seq![]
        }) + disp_pair(a, c),
{
    assert(s.push(a).drop_last() =~= s);
    assert(s.push(a).last() == a);
}

/// The display of attributes shows every pair, in order, each as
/// [`disp_pair`] shows it, with `, ` between two of them.
pub proof fn lemma_disp_attrs_all(s: Seq<Attr<OMMaybeForeign<OpenMath>>>, c: DispCtx)
    ensures
        disp_attrs(s, c) == joined_pairs(s, c),
    decreases s.len(),
{
    if s.len() > 0 {
        let l = s.drop_last();
        lemma_disp_attrs_all(l, c);
        lemma_disp_attrs_push(l, s.last(), c);
        assert(l.push(s.last()) =~= s);
        lemma_joined_push(l, s.last(), c);
    }
}

/// Adding a pair at the end of the joined pairs.
proof fn lemma_joined_push(s: Seq<Attr<OMMaybeForeign<OpenMath>>>, a: Attr<OMMaybeForeign<OpenMath>>, c: DispCtx)
    ensures
        joined_pairs(s.push(a), c) == joined_pairs(s, c) + (if s.len() > 0 {
            seq![',', ' ']
        } else {
            seq![]
        }) + disp_pair(a, c),
    decreases s.len(),
{
    if s.len() == 0 {
        assert(s.push(a) =~= seq![a]);
        assert(joined_pairs(s, c) =~= Seq::<char>::empty());
        assert(joined_pairs(s.push(a), c) =~= Seq::<char>::empty() + Seq::<char>::empty() + disp_pair(a, c));
    } else if s.len() == 1 {
        assert(s.push(a).drop_first() =~= seq![a]);
        assert(s.push(a)[0] == s[0]);
        assert(joined_pairs(seq![a], c) == disp_pair(a, c));
    } else {
        assert(s.push(a).drop_first() =~= s.drop_first().push(a));
        assert(s.push(a)[0] == s[0]);
        lemma_joined_push(s.drop_first(), a, c);
        assert(joined_pairs(s.push(a), c) =~= joined_pairs(s, c) + seq![',', ' '] + disp_pair(a, c));
    }
}

} // verus!
