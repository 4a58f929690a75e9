//! Base64 encoding and decoding (standard alphabet, `=` padding) as adapters
//! over byte sequences that hand out one chunk at a time.
use vstd::prelude::*;

use crate::text::push_char;

verus! {

/// The padding character `=`.
pub const PAD: u8 = 61u8;

/// The character that encodes the six-bit value `i` (`A`-`Z`, `a`-`z`, `0`-`9`, `+`, `/`).
pub open spec fn table(i: int) -> u8 {
    if i < 26 {
        (65 + i) as u8
    } else if i < 52 {
        (97 + i - 26) as u8
    } else if i < 62 {
        (48 + i - 52) as u8
    } else if i == 62 {
        43u8
    } else {
        47u8
    }
}

/// The six-bit value that a character encodes, if it is in the alphabet.
pub open spec fn sextet(c: u8) -> Option<int> {
    if 65 <= c <= 90 {
        Some(c - 65)
    } else if 97 <= c <= 122 {
        Some(c - 97 + 26)
    } else if 48 <= c <= 57 {
        Some(c - 48 + 52)
    } else if c == 43 {
        Some(62)
    } else if c == 47 {
        Some(63)
    } else {
        None
    }
}

/// The four characters that encode one chunk of one to three bytes; missing
/// bytes are replaced by padding.
pub open spec fn encode_chunk(c: Seq<u8>) -> Seq<u8> {
    let a = c[0] as int;
    if c.len() == 1 {
        seq![table(a / 4), table((a % 4) * 16), PAD, PAD]
    } else if c.len() == 2 {
        let b = c[1] as int;
        seq![table(a / 4), table((a % 4) * 16 + b / 16), table((b % 16) * 4), PAD]
    } else {
        let b = c[1] as int;
        let d = c[2] as int;
        seq![table(a / 4), table((a % 4) * 16 + b / 16), table((b % 16) * 4 + d / 64), table(d % 64)]
    }
}

/// The base64 encoding of a byte sequence.
pub open spec fn encode(s: Seq<u8>) -> Seq<u8>
    decreases s.len(),
{
    if s.len() == 0 {
        seq![]
    } else if s.len() <= 3 {
        encode_chunk(s)
    } else {
        encode_chunk(s.take(3)) + encode(s.skip(3))
    }
}

/// Errors that can occur during base64 decoding
#[derive(Debug, Clone, Copy, PartialEq, Eq, Structural)]
pub enum Error {
    /// A valid base64 string's length must be divisible by 4 (with padding)
    IllegalLength,
    /// padding character (`=`) may only occur at the end of the string
    NonsensicalPadding,
    /// Only alpha-numeric ASCII characters, `+`, and `/` are allowed (and `=` for padding)
    IllegalChar(u8),
}

impl Error {
    /// The message that describes this error.
    pub fn message(&self) -> (r: &'static str)
        ensures
            r@ == match self {
                Error::IllegalLength => "length not divisible by 4"@,
                Error::NonsensicalPadding => "base64 string has characters after padding"@,
                Error::IllegalChar(_) => "base64 string contains illegal characters"@,
            },
    {
        match self {
            Error::IllegalLength => "length not divisible by 4",
            Error::NonsensicalPadding => "base64 string has characters after padding",
            Error::IllegalChar(_) => "base64 string contains illegal characters",
        }
    }
}

/// Decoding the rest of a four-character group from position `k` on, with `acc`
/// the value of the characters read so far and `in_pad` whether one of them was
/// padding. Returns the 24-bit value or the error, and how many characters of `s`
/// were consumed.
pub open spec fn decode_from(s: Seq<u8>, k: int, in_pad: bool, acc: int) -> (Result<int, Error>, int)
    decreases 4 - k,
{
    if k >= 4 {
        (Ok(acc), 4)
    } else if k >= s.len() {
        (Err(Error::IllegalLength), s.len() as int)
    } else {
        let e = s[k];
        if in_pad && e != PAD {
            (Err(Error::NonsensicalPadding), k + 1)
        } else if e == PAD {
            decode_from(s, k + 1, true, acc * 64)
        } else {
            match sextet(e) {
                None => (Err(Error::IllegalChar(e)), k + 1),
                Some(v) => decode_from(s, k + 1, in_pad, acc * 64 + v),
            }
        }
    }
}

/// The three bytes of a 24-bit value, most significant first.
pub open spec fn bytes_of(v: int) -> (u8, u8, u8) {
    ((v / 65536) as u8, ((v / 256) % 256) as u8, (v % 256) as u8)
}

/// How many of the first `k` characters of `s` (at most four of them
/// counted) are padding.
pub open spec fn pads_upto(s: Seq<u8>, k: int) -> int
    decreases k,
{
    if k <= 0 {
        0
    } else {
        pads_upto(s, k - 1) + if k - 1 < s.len() && s[k - 1] == PAD {
            1int
        } else {
            0
        }
    }
}

/// How many of the four characters of the first group of `s` are padding.
pub open spec fn pads(s: Seq<u8>) -> int {
    pads_upto(s, 4)
}

/// How many bytes the first group of `s` holds: three, less one for every
/// padding character.
pub open spec fn kept(s: Seq<u8>) -> int {
    if pads(s) >= 3 {
        0
    } else {
        3 - pads(s)
    }
}

/// The result of decoding the first group of a non-empty input, and how many
/// characters it consumed. Where a group with padding came before (`after`),
/// the rest of the input is refused: padding may only stand at its end.
pub open spec fn decode_group(s: Seq<u8>, after: bool) -> (Result<(u8, u8, u8), Error>, int) {
    if after {
        (Err(Error::NonsensicalPadding), s.len() as int)
    } else {
        let (r, n) = decode_from(s, 0, false, 0);
        match r {
            Ok(v) => (Ok(bytes_of(v)), n),
            Err(e) => (Err(e), n),
        }
    }
}

/// The decoded bytes of a group that holds `k` of them, each as `Ok`, or its error.
pub open spec fn group_bytes(r: Result<(u8, u8, u8), Error>, k: int) -> Seq<Result<u8, Error>> {
    match r {
        Ok((a, b, c)) => seq![Ok(a), Ok(b), Ok(c)].take(k),
        Err(e) => seq![Err(e)],
    }
}

/// Whether the decoder is past padding after the first group of `s`.
pub open spec fn padded_after(s: Seq<u8>, after: bool) -> bool {
    after || (decode_group(s, after).0 is Ok && pads(s) > 0)
}

/// What [`Base64Decoder::flat`] yields for an input, `after` telling whether
/// a group with padding came before: the bytes of every group, an `Err` in
/// place of every group that failed.
pub open spec fn decoded_from(s: Seq<u8>, after: bool) -> Seq<Result<u8, Error>>
    decreases s.len(),
{
    if s.len() == 0 {
        seq![]
    } else {
        let (r, n) = decode_group(s, after);
        let g = group_bytes(r, kept(s));
        if 1 <= n <= s.len() {
            g + decoded_from(s.skip(n), padded_after(s, after))
        } else {
            g
        }
    }
}

/// The decoded bytes of a base64 text, each as `Ok`, with an `Err` in place of
/// every group that failed.
pub open spec fn decoded(s: Seq<u8>) -> Seq<Result<u8, Error>> {
    decoded_from(s, false)
}

/// Every byte of `s`, each as `Ok`.
pub open spec fn all_ok(s: Seq<u8>) -> Seq<Result<u8, Error>> {
    s.map_values(|b: u8| Ok::<u8, Error>(b))
}

fn table_char(i: u8) -> (c: u8)
    requires
        i < 64,
    ensures
        c == table(i as int),
        c != 0,
        sextet(c) == Some(i as int),
{
    if i < 26 {
        65 + i
    } else if i < 52 {
        97 + i - 26
    } else if i < 62 {
        48 + i - 52
    } else if i == 62 {
        43
    } else {
        47
    }
}

fn sextet_of(c: u8) -> (r: Option<u8>)
    ensures
        match r {
            Some(v) => sextet(c) == Some(v as int) && v < 64,
            None => sextet(c) is None,
        },
{
    if 65 <= c && c <= 90 {
        Some(c - 65)
    } else if 97 <= c && c <= 122 {
        Some(c - 97 + 26)
    } else if 48 <= c && c <= 57 {
        Some(c - 48 + 52)
    } else if c == 43 {
        Some(62)
    } else if c == 47 {
        Some(63)
    } else {
        None
    }
}

/// Encodes a byte sequence as base64, yielding one group of four characters
/// (bytes, none of them zero) for every chunk of up to three input bytes.
///
/// Get one from [`Base64Encodable::base64`].
pub struct Base64Encoder {
    input: Vec<u8>,
    pos: usize,
}

impl View for Base64Encoder {
    type V = Seq<u8>;

    /// The bytes not yet encoded.
    closed spec fn view(&self) -> Seq<u8> {
        self.input@.skip(self.pos as int)
    }
}

impl Base64Encoder {
    #[verifier::type_invariant]
    spec fn inv(self) -> bool {
        self.pos <= self.input.len()
    }

    /// An encoder over `input`.
    pub fn new(input: Vec<u8>) -> (r: Base64Encoder)
        ensures
            r@ == input@,
    {
        let r = Base64Encoder { input, pos: 0 };
        assert(r.input@.skip(0) =~= r.input@);
        r
    }

    /// The next group of four characters: the encoding of the next (up to)
    /// three bytes, or `None` when all bytes are encoded.
    pub fn next(&mut self) -> (r: Option<[u8; 4]>)
        ensures
            old(self)@.len() == 0 ==> r is None && final(self)@ == old(self)@,
            old(self)@.len() > 0 ==> ({
                let n = if old(self)@.len() < 3 { old(self)@.len() as int } else { 3 };
                &&& r matches Some(g)
                &&& g@ == encode_chunk(old(self)@.take(n))
                &&& final(self)@ == old(self)@.skip(n)
            }),
    {
        proof {
            use_type_invariant(&*self);
        }
        let len = self.input.len();
        if self.pos == len {
            return None;
        }
        let ghost rem = self@;
        let a = self.input[self.pos];
        let g: [u8; 4];
        let n: usize;
        if len - self.pos == 1 {
            g = [table_char(a / 4), table_char((a % 4) * 16), PAD, PAD];
            n = 1;
        } else if len - self.pos == 2 {
            let b = self.input[self.pos + 1];
            g = [table_char(a / 4), table_char((a % 4) * 16 + b / 16), table_char((b % 16) * 4), PAD];
            n = 2;
        } else {
            let b = self.input[self.pos + 1];
            let c = self.input[self.pos + 2];
            g = [
                table_char(a / 4),
                table_char((a % 4) * 16 + b / 16),
                table_char((b % 16) * 4 + c / 64),
                table_char(c % 64),
            ];
            n = 3;
        }
        let ghost chunk = rem.take(n as int);
        assert(chunk[0] == a);
        assert(g@ =~= encode_chunk(chunk));
        self.pos = self.pos + n;
        assert(self@ =~= rem.skip(n as int));
        Some(g)
    }

    /// Converts into the sequence of base64 characters.
    pub fn chars(self) -> (r: Vec<char>)
        ensures
            r@ == encode(self@).map_values(|b: u8| b as char),
    {
        let mut s = self;
        let mut r: Vec<char> = Vec::new();
        let ghost all = s@;
        loop
            invariant
                encode(all) == r@.map_values(|c: char| c as u8) + encode(s@),
                r@.map_values(|c: char| c as u8).map_values(|b: u8| b as char) == r@,
            ensures
                encode(all) == r@.map_values(|c: char| c as u8),
                r@.map_values(|c: char| c as u8).map_values(|b: u8| b as char) == r@,
            decreases s@.len(),
        {
            let ghost before = s@;
            let ghost r0 = r@;
            match s.next() {
                None => {
                    assert(encode(before) =~= Seq::<u8>::empty());
                    assert(encode(all) =~= r@.map_values(|c: char| c as u8));
                    break;
                },
                Some(g) => {
                    proof {
                        lemma_encode_step(before);
                    }
                    r.push(g[0] as char);
                    r.push(g[1] as char);
                    r.push(g[2] as char);
                    r.push(g[3] as char);
                    proof {
                        assert(r@.map_values(|c: char| c as u8) =~= r0.map_values(|c: char| c as u8) + g@);
                        assert(r@.map_values(|c: char| c as u8).map_values(|b: u8| b as char) =~= r@);
                    }
                },
            }
        }
        proof {
            assert(encode(all).map_values(|b: u8| b as char) =~= r@);
        }
        r
    }

    /// Collects the base64 encoding into a [`String`]
    pub fn into_string(self) -> (r: String)
        ensures
            r@ == encode(self@).map_values(|b: u8| b as char),
    {
        let cs = self.chars();
        let mut s = String::new();
        for i in 0..cs.len()
            invariant
                s@ == cs@.take(i as int),
        {
            push_char(&mut s, cs[i]);
            assert(cs@.take(i + 1) =~= cs@.take(i as int).push(cs@[i as int]));
        }
        assert(cs@.take(cs.len() as int) =~= cs@);
        s
    }
}

/// One step of `encode`: a non-empty input starts with the encoding of its
/// first (up to) three bytes.
pub proof fn lemma_encode_step(s: Seq<u8>)
    requires
        s.len() > 0,
    ensures
        ({
            let n = if s.len() < 3 { s.len() as int } else { 3 };
            encode(s) == encode_chunk(s.take(n)) + encode(s.skip(n))
        }),
{
    if s.len() <= 3 {
        assert(s.take(s.len() as int) =~= s);
        assert(s.skip(s.len() as int) =~= Seq::<u8>::empty());
        if s.len() == 3 {
            assert(s.take(3) =~= s);
        }
        assert(encode(s.skip(if s.len() < 3 { s.len() as int } else { 3 })) =~= Seq::<u8>::empty());
    }
}

/// Every six-bit value is decoded from the character that encodes it, and that
/// character is not the padding character.
pub proof fn lemma_sextet_table(i: int)
    requires
        0 <= i < 64,
    ensures
        sextet(table(i)) == Some(i),
        table(i) != PAD,
{
}

/// Decoding the group that encodes a chunk gives the chunk back, filled up
/// with zeros, and the group has one padding character for every byte the
/// chunk lacks.
pub proof fn lemma_decode_group_chunk(c: Seq<u8>, rest: Seq<u8>)
    requires
        1 <= c.len() <= 3,
    ensures
        pads(encode_chunk(c) + rest) == 3 - c.len(),
        decode_group(encode_chunk(c) + rest, false) == (
            Ok::<(u8, u8, u8), Error>((c[0], if c.len() > 1 { c[1] } else { 0u8 }, if c.len() > 2 { c[2] } else { 0u8 })),
            4int,
        ),
{
    let s = encode_chunk(c) + rest;
    let a = c[0] as int;
    let b = if c.len() > 1 { c[1] as int } else { 0 };
    let d = if c.len() > 2 { c[2] as int } else { 0 };
    let s0 = a / 4;
    let s1 = (a % 4) * 16 + b / 16;
    let s2 = (b % 16) * 4 + d / 64;
    let s3 = d % 64;
    lemma_sextet_table(s0);
    lemma_sextet_table(s1);
    lemma_sextet_table(s2);
    lemma_sextet_table(s3);
    assert(s[0] == table(s0));
    assert(s[1] == table(s1));
    assert(((s0 * 64 + s1) * 64 + s2) * 64 + s3 == a * 65536 + b * 256 + d) by (nonlinear_arith)
        requires
            0 <= a < 256,
            0 <= b < 256,
            0 <= d < 256,
            s0 == a / 4,
            s1 == (a % 4) * 16 + b / 16,
            s2 == (b % 16) * 4 + d / 64,
            s3 == d % 64,
    ;
    let v = a * 65536 + b * 256 + d;
    assert(v / 65536 == a && (v / 256) % 256 == b && v % 256 == d) by (nonlinear_arith)
        requires
            0 <= a < 256,
            0 <= b < 256,
            0 <= d < 256,
            v == a * 65536 + b * 256 + d,
    ;
    if c.len() == 1 {
        assert(s[2] == PAD && s[3] == PAD);
        assert(s1 == (a % 4) * 16);
        assert(decode_from(s, 4, true, ((s0 * 64 + s1) * 64) * 64) == (
            Ok::<int, Error>(v),
            4int,
        ));
    } else if c.len() == 2 {
        assert(s[2] == table(s2) && s[3] == PAD);
        assert(s2 == (b % 16) * 4);
    } else {
        assert(s[2] == table(s2) && s[3] == table(s3));
    }
    reveal_with_fuel(decode_from, 5);
    reveal_with_fuel(pads_upto, 5);
}

/// Decoding the base64 encoding of a byte sequence gives back every byte,
/// and no error.
pub proof fn lemma_decode_encode(x: Seq<u8>)
    ensures
        decoded(encode(x)) == all_ok(x),
    decreases x.len(),
{
    if x.len() == 0 {
        assert(decoded(encode(x)) =~= all_ok(x));
    } else {
        let n = if x.len() <= 3 { x.len() as int } else { 3 };
        let c = x.take(n);
        let rest = encode(x.skip(n));
        lemma_decode_group_chunk(c, rest);
        let e = encode(x);
        if x.len() <= 3 {
            assert(c =~= x);
            assert(rest =~= Seq::<u8>::empty());
        } else {
            lemma_decode_encode(x.skip(3));
        }
        assert(e =~= encode_chunk(c) + rest);
        assert(e.skip(4) =~= rest);
        let b = if x.len() > 1 { x[1] } else { 0u8 };
        let d = if x.len() > 2 { x[2] } else { 0u8 };
        assert(kept(e) == n);
        assert(group_bytes(Ok((x[0], b, d)), n) =~= all_ok(c));
        assert(!padded_after(e, false) || x.len() <= 3);
        if x.len() <= 3 {
            assert(decoded_from(rest, padded_after(e, false)) =~= Seq::<Result<u8, Error>>::empty());
        }
        assert(all_ok(c) + all_ok(x.skip(n)) =~= all_ok(x));
        assert(decoded(e) =~= all_ok(x));
    }
}


/// The base64 encoding of `n` bytes has `4 * ceil(n / 3)` characters, each of
/// them a character of the alphabet or padding.
pub proof fn lemma_encode_shape(x: Seq<u8>)
    ensures
        encode(x).len() == 4 * ((x.len() + 2) / 3),
        forall|i: int| 0 <= i < encode(x).len() ==> #[trigger] encode(x)[i] == PAD || sextet(
            encode(x)[i],
        ) is Some,
    decreases x.len(),
{
    if x.len() > 3 {
        lemma_encode_shape(x.skip(3));
    }
    if x.len() > 0 {
        let c = if x.len() > 3 { x.take(3) } else { x };
        let a = c[0] as int;
        let b = if c.len() > 1 { c[1] as int } else { 0 };
        let d = if c.len() > 2 { c[2] as int } else { 0 };
        lemma_sextet_table(a / 4);
        lemma_sextet_table((a % 4) * 16 + b / 16);
        lemma_sextet_table((b % 16) * 4 + d / 64);
        lemma_sextet_table(d % 64);
        assert forall|i: int| 0 <= i < encode(x).len() implies #[trigger] encode(x)[i] == PAD
            || sextet(encode(x)[i]) is Some by {
            if i >= 4 {
                assert(encode(x)[i] == encode(x.skip(3))[i - 4]);
            }
        }
    }
}

/// Sequences of bytes that can be base64-encoded.
pub trait Base64Encodable {
    /// Encodes these bytes as base64
    fn base64(self) -> Base64Encoder;
}

impl Base64Encodable for Vec<u8> {
    fn base64(self) -> (r: Base64Encoder)
        ensures
            r@ == self@,
    {
        Base64Encoder::new(self)
    }
}

impl<'a> Base64Encodable for &'a [u8] {
    fn base64(self) -> (r: Base64Encoder)
        ensures
            r@ == self@,
    {
        Base64Encoder::new(vstd::slice::slice_to_vec(self))
    }
}

/// A decoded group as the decoder hands it out matches the group that the
/// specification describes.
pub open spec fn group_matches(r: Result<[u8; 3], Error>, t: Result<(u8, u8, u8), Error>) -> bool {
    match (r, t) {
        (Ok(b), Ok((x, y, z))) => b@ == seq![x, y, z],
        (Err(e1), Err(e2)) => e1 == e2,
        _ => false,
    }
}

/// The powers of 64 that bound the value of the first `k` characters of a group.
pub open spec fn pow64(k: int) -> int {
    if k <= 0 {
        1
    } else if k == 1 {
        64
    } else if k == 2 {
        4096
    } else if k == 3 {
        262144
    } else {
        16777216
    }
}

/// Decodes the group that starts at `pos`, `after` telling whether a group
/// with padding came before; returns it, how many bytes it consumed and how
/// many of its characters are padding.
fn decode_group_at(input: &Vec<u8>, pos: usize, after: bool) -> (r: (Result<[u8; 3], Error>, usize, usize))
    requires
        pos < input.len(),
    ensures
        ({
            let s = input@.skip(pos as int);
            let (t, n) = decode_group(s, after);
            &&& r.1 as int == n
            &&& 1 <= n <= s.len()
            &&& group_matches(r.0, t)
            &&& r.0 is Ok ==> r.2 as int == pads(s)
        }),
{
    let ghost s = input@.skip(pos as int);
    let len = input.len();
    if after {
        return (Err(Error::NonsensicalPadding), len - pos, 0);
    }
    let mut in_pad = false;
    let mut acc: u32 = 0;
    let mut k: usize = 0;
    let mut count: usize = 0;
    while k < 4
        invariant
            !after,
            pos < len,
            len == input@.len(),
            s == input@.skip(pos as int),
            k <= 4,
            k <= s.len(),
            count <= k,
            count as int == pads_upto(s, k as int),
            0 <= acc < pow64(k as int),
            decode_from(s, 0, false, 0) == decode_from(s, k as int, in_pad, acc as int),
        decreases 4 - k,
    {
        if k >= len - pos {
            return (Err(Error::IllegalLength), len - pos, count);
        }
        let e = input[pos + k];
        assert(s[k as int] == e);
        if in_pad && e != PAD {
            return (Err(Error::NonsensicalPadding), k + 1, count);
        }
        if e == PAD {
            in_pad = true;
            acc = acc * 64;
            count = count + 1;
        } else {
            match sextet_of(e) {
                None => {
                    return (Err(Error::IllegalChar(e)), k + 1, count);
                },
                Some(v) => {
                    acc = acc * 64 + v as u32;
                },
            }
        }
        k = k + 1;
    }
    let v = acc;
    let b = [(v / 65536) as u8, ((v / 256) % 256) as u8, (v % 256) as u8];
    assert(b@ =~= seq![bytes_of(v as int).0, bytes_of(v as int).1, bytes_of(v as int).2]);
    (Ok(b), 4, count)
}

/// Decodes a base64-encoded byte sequence.
///
/// [`next`](Base64Decoder::next) yields one result per group of four
/// characters: its three bytes, or the error found in it. Padding may only
/// stand at the end of the input, so once a group with padding has been
/// decoded, whatever follows is refused.
///
/// Get one from [`Base64Decodable::decode_base64`], and call
/// [`flat`](Base64Decoder::flat) for the decoded bytes one by one.
pub struct Base64Decoder {
    input: Vec<u8>,
    pos: usize,
    padded: bool,
}

impl View for Base64Decoder {
    type V = Seq<u8>;

    /// The characters not yet decoded.
    closed spec fn view(&self) -> Seq<u8> {
        self.input@.skip(self.pos as int)
    }
}

impl Base64Decoder {
    #[verifier::type_invariant]
    spec fn inv(self) -> bool {
        self.pos <= self.input.len()
    }

    /// Whether a group with padding was decoded already.
    pub closed spec fn after_padding(self) -> bool {
        self.padded
    }

    /// A decoder over `input`.
    pub fn new(input: Vec<u8>) -> (r: Base64Decoder)
        ensures
            r@ == input@,
            !r.after_padding(),
    {
        let r = Base64Decoder { input, pos: 0, padded: false };
        assert(r.input@.skip(0) =~= r.input@);
        r
    }

    /// The next group: its three bytes (zero where the group has padding) or
    /// its error, or `None` when the input is used up. After an error the
    /// decoder goes on after the characters that the failed group consumed.
    pub fn next(&mut self) -> (r: Option<Result<[u8; 3], Error>>)
        ensures
            old(self)@.len() == 0 ==> r is None && final(self)@ == old(self)@
                && final(self).after_padding() == old(self).after_padding(),
            old(self)@.len() > 0 ==> ({
                let (t, n) = decode_group(old(self)@, old(self).after_padding());
                &&& r matches Some(g)
                &&& group_matches(g, t)
                &&& 1 <= n <= old(self)@.len()
                &&& final(self)@ == old(self)@.skip(n)
                &&& final(self).after_padding() == padded_after(old(self)@, old(self).after_padding())
            }),
    {
        proof {
            use_type_invariant(&*self);
        }
        if self.pos == self.input.len() {
            return None;
        }
        let ghost rem = self@;
        let (g, n, p) = decode_group_at(&self.input, self.pos, self.padded);
        let ok = match &g {
            Ok(_) => true,
            Err(_) => false,
        };
        self.padded = self.padded || (ok && p > 0);
        self.pos = self.pos + n;
        assert(self@ =~= rem.skip(n as int));
        Some(g)
    }

    /// The decoded bytes one by one, each as `Ok`, with an `Err` in place of
    /// every group that failed. A group with padding holds one byte less for
    /// every padding character.
    pub fn flat(self) -> (r: Vec<Result<u8, Error>>)
        ensures
            r@ == decoded_from(self@, self.after_padding()),
    {
        proof {
            use_type_invariant(&self);
        }
        let input = &self.input;
        let len = input.len();
        let mut pos = self.pos;
        let mut after = self.padded;
        let mut r: Vec<Result<u8, Error>> = Vec::new();
        let ghost all = self@;
        let ghost a0 = self.padded;
        while pos < len
            invariant
                pos <= len,
                len == input@.len(),
                decoded_from(all, a0) == r@ + decoded_from(input@.skip(pos as int), after),
            decreases len - pos,
        {
            let ghost s = input@.skip(pos as int);
            let ghost r0 = r@;
            let ghost a_old = after;
            let (g, n, p) = decode_group_at(input, pos, after);
            let ghost t = decode_group(s, after).0;
            match g {
                Ok(b) => {
                    assert(t == Ok::<(u8, u8, u8), Error>((b[0], b[1], b[2])));
                    if p < 3 {
                        r.push(Ok(b[0]));
                    }
                    if p < 2 {
                        r.push(Ok(b[1]));
                    }
                    if p < 1 {
                        r.push(Ok(b[2]));
                    }
                    assert(r@ =~= r0 + group_bytes(t, kept(s)));
                    after = after || p > 0;
                },
                Err(e) => {
                    r.push(Err(e));
                    assert(r@ =~= r0 + group_bytes(t, kept(s)));
                },
            }
            assert(after == padded_after(s, a_old));
            assert(s.skip(n as int) =~= input@.skip(pos + n));
            pos = pos + n;
        }
        assert(input@.skip(pos as int).len() == 0);
        assert(r@ + decoded_from(input@.skip(pos as int), after) =~= r@);
        r
    }
}


/// Sequences of base64 characters that can be decoded.
pub trait Base64Decodable {
    /// Decodes these characters as base64
    fn decode_base64(self) -> Base64Decoder;
}

impl Base64Decodable for Vec<u8> {
    fn decode_base64(self) -> (r: Base64Decoder)
        ensures
            r@ == self@,
            !r.after_padding(),
    {
        Base64Decoder::new(self)
    }
}

impl<'a> Base64Decodable for &'a [u8] {
    fn decode_base64(self) -> (r: Base64Decoder)
        ensures
            r@ == self@,
            !r.after_padding(),
    {
        Base64Decoder::new(vstd::slice::slice_to_vec(self))
    }
}

} // verus!
