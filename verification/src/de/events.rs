//! The XML events that the reader of OpenMath XML consumes, as the `quick_xml`
//! reader produces them.
use quick_xml::events::{BytesEnd, BytesStart, BytesText, Event};
use quick_xml::Reader;
use quick_xml::errors::Error as XmlError;
use vstd::prelude::*;
use vstd::string::StringSliceAdditionalSpecFns;

verus! {

#[verifier::external_type_specification]
#[verifier::external_body]
#[verifier::reject_recursive_types(R)]
pub struct ExReader<R>(Reader<R>);

#[verifier::external_type_specification]
#[verifier::external_body]
pub struct ExXmlError(XmlError);

#[verifier::external_type_specification]
#[verifier::external_body]
pub struct ExBytesStart<'a>(BytesStart<'a>);

#[verifier::external_type_specification]
#[verifier::external_body]
pub struct ExBytesEnd<'a>(BytesEnd<'a>);

#[verifier::external_type_specification]
#[verifier::external_body]
pub struct ExBytesText<'a>(BytesText<'a>);

/// An event as the reader hands it out: the tags and the text still in the
/// form of the reader; every other kind of event is `Other`.
pub enum RawEvent<'a> {
    Start(BytesStart<'a>),
    Empty(BytesStart<'a>),
    End(BytesEnd<'a>),
    Text(BytesText<'a>),
    Eof,
    Other,
}

/// A start or empty tag: its full name, its name without namespace prefix, and
/// its attributes in order (`None` for an attribute that could not be parsed).
pub ghost struct TagView {
    pub name: Seq<u8>,
    pub local: Seq<u8>,
    pub attrs: Seq<Option<(Seq<u8>, Seq<u8>)>>,
}

/// An event: tags, end tags (by name), raw text, end of input, or anything else.
pub ghost enum EventView {
    Start(TagView),
    Empty(TagView),
    End(Seq<u8>),
    Text(Seq<u8>),
    Eof,
    Other,
}

/// One read of the reader: the position in the input before it, and the event
/// read, or `None` where the read failed.
pub ghost struct TokenView {
    pub before: u64,
    pub event: Option<EventView>,
}

/// The raw name of a tag (`BytesStart::name`).
pub uninterp spec fn start_name_of(b: BytesStart) -> Seq<u8>;

/// The name of a tag without namespace prefix (`BytesStart::local_name`).
pub uninterp spec fn start_local_of(b: BytesStart) -> Seq<u8>;

/// The attributes of a tag, raw keys and values (`BytesStart::attributes`).
pub uninterp spec fn start_attrs_of(b: BytesStart) -> Seq<Option<(Seq<u8>, Seq<u8>)>>;

/// The raw name of an end tag (`BytesEnd::name`).
pub uninterp spec fn end_name_of(b: BytesEnd) -> Seq<u8>;

/// The raw bytes of a text event.
pub uninterp spec fn text_bytes_of(b: BytesText) -> Seq<u8>;

/// The events that a reader over `input` produces, one per read, up to and
/// including the end of input or the first failed read.
pub uninterp spec fn xml_tokens(input: Seq<char>) -> Seq<TokenView>;

/// The reads still to come from a reader.
pub uninterp spec fn reader_events(r: Reader<&[u8]>) -> Seq<TokenView>;

/// The view of a tag.
pub open spec fn tag_view(b: BytesStart) -> TagView {
    TagView { name: start_name_of(b), local: start_local_of(b), attrs: start_attrs_of(b) }
}

/// The view of an event.
pub open spec fn raw_view(e: RawEvent) -> EventView {
    match e {
        RawEvent::Start(b) => EventView::Start(tag_view(b)),
        RawEvent::Empty(b) => EventView::Empty(tag_view(b)),
        RawEvent::End(b) => EventView::End(end_name_of(b)),
        RawEvent::Text(b) => EventView::Text(text_bytes_of(b)),
        RawEvent::Eof => EventView::Eof,
        RawEvent::Other => EventView::Other,
    }
}

/// Whether a read ends the reads: the end of input or a failure.
pub open spec fn is_last(t: TokenView) -> bool {
    t.event is None || t.event == Some(EventView::Eof)
}

/// The shape of the reads over an input of `len` bytes: at least one, the last
/// read and only the last ends them, and the positions grow and stay within
/// the input.
pub open spec fn tokens_wf(t: Seq<TokenView>, len: nat) -> bool {
    &&& t.len() > 0
    &&& is_last(t.last())
    &&& forall|k: int| 0 <= k < t.len() - 1 ==> !is_last(#[trigger] t[k])
    &&& forall|k: int| 0 <= k < t.len() ==> #[trigger] t[k].before <= len
    &&& forall|k: int, l: int| 0 <= k <= l < t.len() ==> #[trigger] t[k].before <= #[trigger] t[l].before
}

/// Where `Reader::read_to_end` stops: scanning from read `k` with `depth` tags
/// of the same name still open, the index of the end tag that closes the
/// element, or `None` if the input ends or a read fails first.
pub open spec fn to_end(t: Seq<TokenView>, k: int, name: Seq<u8>, depth: nat) -> Option<int>
    decreases t.len() - k,
{
    if k < 0 || k >= t.len() {
        None
    } else {
        match t[k].event {
            None => None,
            Some(EventView::Eof) => None,
            Some(EventView::Start(g)) => if g.name == name {
                to_end(t, k + 1, name, depth + 1)
            } else {
                to_end(t, k + 1, name, depth)
            },
            Some(EventView::End(n)) => if n == name {
                if depth == 0 {
                    Some(k)
                } else {
                    to_end(t, k + 1, name, (depth - 1) as nat)
                }
            } else {
                to_end(t, k + 1, name, depth)
            },
            _ => to_end(t, k + 1, name, depth),
        }
    }
}

/// `Reader::from_str`: a reader over `input`, whose reads are the events of
/// the input. Claims that those reads have the shape `tokens_wf` describes.
#[verifier::external_body]
pub(crate) fn reader_from_str<'s>(input: &'s str) -> (r: Reader<&'s [u8]>)
    ensures
        reader_events(r) == xml_tokens(input@),
        tokens_wf(reader_events(r), input.spec_bytes().len()),
{
    Reader::from_str(input)
}

/// `Reader::read_event`: the next read, with the tags and text left as the reader gives them.
#[verifier::external_body]
pub(crate) fn read_event<'s>(r: &mut Reader<&'s [u8]>) -> (e: Result<RawEvent<'s>, XmlError>)
    requires
        reader_events(*old(r)).len() > 0,
    ensures
        reader_events(*final(r)) == reader_events(*old(r)).drop_first(),
        match e {
            Ok(ev) => reader_events(*old(r))[0].event == Some(raw_view(ev)),
            Err(_) => reader_events(*old(r))[0].event is None,
        },
{
    match r.read_event() {
        Ok(Event::Start(b)) => Ok(RawEvent::Start(b)),
        Ok(Event::Empty(b)) => Ok(RawEvent::Empty(b)),
        Ok(Event::End(b)) => Ok(RawEvent::End(b)),
        Ok(Event::Text(b)) => Ok(RawEvent::Text(b)),
        Ok(Event::Eof) => Ok(RawEvent::Eof),
        Ok(_) => Ok(RawEvent::Other),
        Err(e) => Err(e),
    }
}

/// `Reader::buffer_position`: the position before the next read.
#[verifier::external_body]
pub(crate) fn buffer_position(r: &Reader<&[u8]>) -> (p: u64)
    requires
        reader_events(*r).len() > 0,
    ensures
        p == reader_events(*r)[0].before,
{
    r.buffer_position()
}

/// `Reader::error_position`: where the last failed read failed. Nothing is
/// claimed of the value.
#[verifier::external_body]
pub(crate) fn error_position(r: &Reader<&[u8]>) -> u64 {
    r.error_position()
}

/// `Reader::read_to_end`: reads up to the end tag named `name` that closes the
/// element whose start tag was the last read, counting nested elements of the
/// same name; returns the positions before the first read and before the end tag.
#[verifier::external_body]
pub(crate) fn read_to_end<'s>(r: &mut Reader<&'s [u8]>, name: &[u8]) -> (res: Result<
    (u64, u64),
    XmlError,
>)
    requires
        reader_events(*old(r)).len() > 0,
    ensures
        match to_end(reader_events(*old(r)), 0, name@, 0) {
            Some(k) => res matches Ok((start, end)) && start == reader_events(*old(r))[0].before
                && end == reader_events(*old(r))[k].before && reader_events(*final(r))
                == reader_events(*old(r)).skip(k + 1),
            None => res is Err,
        },
{
    r.read_to_end(quick_xml::name::QName(name)).map(|s| (s.start, s.end))
}

/// `BytesStart::name`
#[verifier::external_body]
pub(crate) fn start_name(b: &BytesStart) -> (r: Vec<u8>)
    ensures
        r@ == start_name_of(*b),
{
    b.name().as_ref().to_vec()
}

/// `BytesStart::local_name`
#[verifier::external_body]
pub(crate) fn start_local(b: &BytesStart) -> (r: Vec<u8>)
    ensures
        r@ == start_local_of(*b),
{
    b.local_name().as_ref().to_vec()
}

/// `BytesStart::attributes`, each attribute as its raw key and value, `None`
/// where the attribute could not be parsed.
#[verifier::external_body]
pub(crate) fn start_attrs(b: &BytesStart) -> (r: Vec<Option<(Vec<u8>, Vec<u8>)>>)
    ensures
        r@.len() == start_attrs_of(*b).len(),
        forall|i: int| 0 <= i < r@.len() ==> match (#[trigger] r@[i], start_attrs_of(*b)[i]) {
            (Some((k, v)), Some((k2, v2))) => k@ == k2 && v@ == v2,
            (None, None) => true,
            _ => false,
        },
{
    b.attributes().map(|a| a.ok().map(|a| (a.key.as_ref().to_vec(), a.value.to_vec()))).collect()
}

/// `BytesEnd::name`
#[verifier::external_body]
pub(crate) fn end_name(b: &BytesEnd) -> (r: Vec<u8>)
    ensures
        r@ == end_name_of(*b),
{
    b.name().as_ref().to_vec()
}

/// The raw bytes of a text event (`BytesText` as a byte slice).
#[verifier::external_body]
pub(crate) fn text_bytes(b: &BytesText) -> (r: Vec<u8>)
    ensures
        r@ == text_bytes_of(*b),
{
    b.as_ref().to_vec()
}

} // verus!
