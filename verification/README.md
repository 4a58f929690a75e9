# openmath

A library for [OpenMath](https://openmath.org/) objects, written in Verus:
the object model, arbitrary precision integers, base64, writers for the XML
and display encodings, a reader for OpenMath XML (over the `quick_xml`
reader) and the OpenMath JSON encoding over a JSON value tree. Every
function in `src/` carries a contract that Verus proves.

## Layout

- `src/om.rs`: `OpenMath`, `Attr`, `BoundVariable`, `OMMaybeForeign` and
  their mathematical views.
- `src/integer.rs`: `Int`, inline where `i128` holds the value, decimal text
  otherwise; `src/numeric.rs` gives decimal texts their value and compares
  them, and `src/int_order.rs` orders integers by value.
- `src/base64.rs`: base64 encoder and decoder, specified by `encode` and
  `decoded`.
- `src/kind.rs`: the kinds of objects and their names and numbers.
- `src/ser/`: the display format and the XML writer, each specified as a
  function from objects to text.
- `src/de/`: the XML reader. `grammar.rs` states what the reader yields for
  a sequence of reads of the XML reader, `events.rs` holds the calls into
  `quick_xml`, `xml.rs` the reader itself, `convert.rs` the values taken out of
  objects that were read; `written.rs` cuts the XML the writer writes into tags and texts.
  `law.rs` proves that it reads back as the object written, pretty-printed
  or not, wherever the reads of the `quick_xml` reader over that text are
  the reads of those tags and texts and each text read, and each read of a
  tag without attributes, spans its own bytes of the input. The law covers
  objects with OMFOREIGN values that are character data (no `<`), empty or
  starting and ending with a character other than ASCII whitespace, or markup
  made of texts and
  tags without attributes (other than OMFOREIGN) that begins and ends with a
  tag.
- `src/json/`: the JSON encoding: `spec.rs` and `enc.rs` state the decoder
  and the encoder, `de.rs` and `enc.rs` implement them, `law.rs` proves that
  the JSON value of an object reads back as the object, `integer.rs` handles
  integers as JSON values.
- `src/owned.rs`: objects that own their text.
- `app/`: what stays outside the verified library: error types with their
  messages, JSON text through `serde_json`, `Display`, reading from an
  `io::BufRead`, and floating-point values of OMF objects.
- `tests/`: tests of the library, run against the real outside crates.
