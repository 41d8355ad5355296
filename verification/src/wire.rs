//! The wire format of messages and handshakes.
use vstd::prelude::*;
use vstd::slice::{slice_subrange, slice_to_vec};
use vstd::utf8::{decode_utf8, encode_utf8, valid_utf8};

use crate::nonzero::{lemma_nonzero_get_new, lemma_nonzero_new_get, NonZeroU32};

verus! {

/// The padding interval in bytes. All message bodies are a size of some multiple of this.
/// All messages bodies are a minimum of this size.
pub const PADDING_BLOCK_SIZE: u32 = 10 * 128 / 8;

/// The most blocks a message body can contain.
pub const MAX_BLOCKS_IN_BODY: u32 = (100 * 1024 * 1024) / (10 * 128 / 8);

/// The maximum number of bytes that can be sent inline; larger values use the HTTP server.
pub const INLINE_MAX_SIZE: u32 = 14 * PADDING_BLOCK_SIZE;

/// The values of the size constants.
pub proof fn lemma_size_constants()
    ensures
        PADDING_BLOCK_SIZE == 160,
        MAX_BLOCKS_IN_BODY == 655360,
        INLINE_MAX_SIZE == 2240,
{
    assert((100 * 1024 * 1024) / (10 * 128 / 8) == 655360) by (nonlinear_arith);
}

/// Metadata for the body of the message.
///
/// Message contents are always 0-filled buffers, so never represented.
#[derive(Copy, Clone, Debug, PartialEq, Eq, Structural)]
pub enum MessageBody {
    Receipt,
    Size(NonZeroU32),
}

impl MessageBody {
    /// The size in bytes of the body, including any part fetched over HTTP.
    pub open spec fn spec_total_size(self) -> nat {
        match self {
            MessageBody::Receipt => PADDING_BLOCK_SIZE as nat,
            MessageBody::Size(size) => size.spec_get() as nat,
        }
    }

    /// The part of the body sent on the message connection: everything for
    /// peers, at most `INLINE_MAX_SIZE` bytes for clients of a server.
    pub open spec fn spec_inline_size(self, p2p: bool) -> nat {
        let total = self.spec_total_size();
        if p2p || total <= INLINE_MAX_SIZE {
            total
        } else {
            INLINE_MAX_SIZE as nat
        }
    }

    /// Whether the body of the message requires an HTTP GET
    /// (attachment size is the message size).
    pub fn has_attachment(&self) -> (res: bool)
        ensures
            res == (self.spec_total_size() > INLINE_MAX_SIZE && *self is Size),
    {
        match self {
            MessageBody::Receipt => false,
            MessageBody::Size(size) => size.get() > INLINE_MAX_SIZE,
        }
    }

    /// Size on the wire of the message's body, excluding bytes fetched via http.
    pub fn inline_size<const P2P: bool>(&self) -> (res: usize)
        ensures
            res == self.spec_inline_size(P2P),
    {
        match self {
            MessageBody::Receipt => PADDING_BLOCK_SIZE as usize,
            MessageBody::Size(size) => {
                let size: u32 = size.get();
                if P2P || size <= INLINE_MAX_SIZE {
                    size as usize
                } else {
                    INLINE_MAX_SIZE as usize
                }
            },
        }
    }

    /// Size of the message's body, including bytes fetched via http.
    pub fn total_size(&self) -> (res: usize)
        ensures
            res == self.spec_total_size(),
    {
        match self {
            MessageBody::Receipt => PADDING_BLOCK_SIZE as usize,
            MessageBody::Size(size) => size.get() as usize,
        }
    }
}

} // verus!

verus! {

broadcast use {lemma_nonzero_get_new, lemma_nonzero_new_get};

// ---------------------------------------------------------------------------
// Big-endian integers
// ---------------------------------------------------------------------------

/// The big-endian bytes of `x`.
pub open spec fn be_bytes(x: u32) -> Seq<u8> {
    seq![(x >> 24u32) as u8, (x >> 16u32) as u8, (x >> 8u32) as u8, x as u8]
}

/// The `u32` whose big-endian bytes are `b0 b1 b2 b3`.
pub open spec fn be_value(b0: u8, b1: u8, b2: u8, b3: u8) -> u32 {
    ((b0 as u32) << 24u32) | ((b1 as u32) << 16u32) | ((b2 as u32) << 8u32) | (b3 as u32)
}

/// The `u32` whose big-endian encoding starts `b`.
pub open spec fn be_decode(b: Seq<u8>) -> u32 {
    be_value(b[0], b[1], b[2], b[3])
}

/// Decoding the big-endian bytes of `x` gives back `x`.
pub proof fn lemma_be_roundtrip(x: u32)
    ensures
        be_decode(be_bytes(x)) == x,
        be_bytes(x).len() == 4,
{
    let b0: u8 = (x >> 24u32) as u8;
    let b1: u8 = (x >> 16u32) as u8;
    let b2: u8 = (x >> 8u32) as u8;
    let b3: u8 = x as u8;
    assert(((b0 as u32) << 24u32) | ((b1 as u32) << 16u32) | ((b2 as u32) << 8u32) | (b3 as u32)
        == x) by (bit_vector)
        requires
            b0 == (x >> 24u32) as u8,
            b1 == (x >> 16u32) as u8,
            b2 == (x >> 8u32) as u8,
            b3 == x as u8,
    ;
}

/// Appends the big-endian bytes of `x` to `buf`.
fn push_u32_be(buf: &mut Vec<u8>, x: u32)
    ensures
        final(buf)@ == old(buf)@ + be_bytes(x),
{
    buf.push((x >> 24u32) as u8);
    buf.push((x >> 16u32) as u8);
    buf.push((x >> 8u32) as u8);
    buf.push(x as u8);
    assert(final(buf)@ =~= old(buf)@ + be_bytes(x));
}

/// Appends `bytes` to `buf`.
fn push_bytes(buf: &mut Vec<u8>, bytes: &[u8])
    ensures
        final(buf)@ == old(buf)@ + bytes@,
{
    let ghost start = buf@;
    let n = bytes.len();
    let mut i: usize = 0;
    while i < n
        invariant
            n == bytes@.len(),
            i <= n,
            buf@ == start + bytes@.take(i as int),
        decreases n - i,
    {
        buf.push(bytes[i]);
        i = i + 1;
        assert(buf@ =~= start + bytes@.take(i as int));
    }
    assert(bytes@.take(n as int) =~= bytes@);
}

// ---------------------------------------------------------------------------
// Strings
// ---------------------------------------------------------------------------

/// A string on the wire: its byte length as a big-endian `u32` (kept modulo
/// 2^32 as a `usize` cast to `u32` keeps it), then its UTF-8 bytes.
pub open spec fn str_frame(bytes: Seq<u8>) -> Seq<u8> {
    be_bytes((bytes.len() as usize) as u32) + bytes
}

/// The UTF-8 bytes of the characters `s`.
pub open spec fn utf8(s: Seq<char>) -> Seq<u8> {
    encode_utf8(s)
}

/// Serialize a string as its length, then its bytes.
pub fn serialize_str(s: &str) -> (res: Vec<u8>)
    ensures
        res@ == str_frame(utf8(s@)),
{
    let mut buf: Vec<u8> = Vec::new();
    serialize_str_to(s, &mut buf);
    buf
}

/// Append a serialized string (its length, then its bytes) to `buf`.
pub fn serialize_str_to(s: &str, buf: &mut Vec<u8>)
    ensures
        final(buf)@ == old(buf)@ + str_frame(utf8(s@)),
{
    let strlen: u32 = #[verifier::truncate] (s.len() as u32);
    push_u32_be(buf, strlen);
    push_bytes(buf, s.as_bytes());
    assert(buf@ =~= old(buf)@ + str_frame(utf8(s@)));
}

} // verus!

verus! {

// ---------------------------------------------------------------------------
// Errors
// ---------------------------------------------------------------------------

#[verifier::external_type_specification]
#[verifier::external_body]
pub struct ExIoError(std::io::Error);

#[verifier::external_type_specification]
#[verifier::external_body]
pub struct ExUtf8Error(std::str::Utf8Error);

#[verifier::external_type_specification]
#[verifier::external_body]
pub struct ExBacktrace(std::backtrace::Backtrace);

/// `std::backtrace::Backtrace::capture`: the stack where it is called, kept
/// where the environment asks for backtraces. Nothing is stated of it: it
/// depends on the environment and the call site.
#[verifier::external_body]
fn capture_backtrace() -> std::backtrace::Backtrace {
    std::backtrace::Backtrace::capture()
}

/// Errors from reading messages.
#[derive(Debug)]
pub enum Error {
    Io(std::io::Error),
    Utf8Error(std::str::Utf8Error),
    /// The bytes that remained where the serialization broke off, and where
    /// the error was found.
    MalformedSerialization(Vec<u8>, std::backtrace::Backtrace),
}

/// `std::str::from_utf8`: the bytes as a string when they are valid UTF-8,
/// an error otherwise; the string's bytes are exactly the input.
#[verifier::external_body]
fn str_from_utf8<'a>(bytes: &'a [u8]) -> (res: Result<&'a str, std::str::Utf8Error>)
    ensures
        res is Ok <==> valid_utf8(bytes@),
        res matches Ok(s) ==> utf8(s@) == bytes@,
{
    std::str::from_utf8(bytes)
}

/// The characters that valid UTF-8 bytes stand for.
pub open spec fn chars_of(bytes: Seq<u8>) -> Seq<char> {
    decode_utf8(bytes)
}

/// A string whose UTF-8 bytes are `bytes` holds the characters they decode to.
proof fn lemma_utf8_chars(s: Seq<char>, bytes: Seq<u8>)
    requires
        utf8(s) == bytes,
    ensures
        s == chars_of(bytes),
        valid_utf8(bytes),
{
    vstd::utf8::encode_utf8_decode_utf8(s);
    vstd::utf8::encode_utf8_valid_utf8(s);
}

// ---------------------------------------------------------------------------
// Decoding
// ---------------------------------------------------------------------------

/// The outcome of decoding a prefix of some bytes.
pub enum Decoding<T> {
    /// The decoded value and the bytes after it.
    Decoded(T, Seq<u8>),
    /// The bytes ran short; these remained where decoding broke off.
    Malformed(Seq<u8>),
    /// A string's bytes were not UTF-8.
    InvalidUtf8,
}

/// Decoding a big-endian `u32` from the front of `buf`.
pub open spec fn spec_deserialize_u32(buf: Seq<u8>) -> Decoding<u32> {
    if buf.len() >= 4 {
        Decoding::Decoded(be_decode(buf), buf.skip(4))
    } else {
        Decoding::Malformed(buf)
    }
}

/// Decoding a length-prefixed UTF-8 string from the front of `buf`.
pub open spec fn spec_deserialize_str(buf: Seq<u8>) -> Decoding<Seq<char>> {
    match spec_deserialize_u32(buf) {
        Decoding::Decoded(n, rest) => {
            if n <= rest.len() {
                if valid_utf8(rest.take(n as int)) {
                    Decoding::Decoded(chars_of(rest.take(n as int)), rest.skip(n as int))
                } else {
                    Decoding::InvalidUtf8
                }
            } else {
                Decoding::Malformed(rest)
            }
        },
        Decoding::Malformed(b) => Decoding::Malformed(b),
        Decoding::InvalidUtf8 => Decoding::InvalidUtf8,
    }
}

/// Read a big-endian `u32` from the front of `buf`, returning it and the bytes after it.
pub fn deserialize_u32(buf: &[u8]) -> (res: Result<(u32, &[u8]), Error>)
    ensures
        match (res, spec_deserialize_u32(buf@)) {
            (Ok((v, rest)), Decoding::Decoded(w, r)) => v == w && rest@ == r,
            (Err(Error::MalformedSerialization(b, _)), Decoding::Malformed(r)) => b@ == r,
            _ => false,
        },
{
    if buf.len() < 4 {
        return Err(Error::MalformedSerialization(slice_to_vec(buf), capture_backtrace()));
    }
    let v: u32 = ((buf[0] as u32) << 24u32) | ((buf[1] as u32) << 16u32) | ((buf[2] as u32)
        << 8u32) | (buf[3] as u32);
    Ok((v, slice_subrange(buf, 4, buf.len())))
}

/// Read a length-prefixed UTF-8 string from the front of `buf`, returning it and the bytes after it.
pub fn deserialize_str(buf: &[u8]) -> (res: Result<(&str, &[u8]), Error>)
    ensures
        match (res, spec_deserialize_str(buf@)) {
            (Ok((s, rest)), Decoding::Decoded(w, r)) => s@ == w && rest@ == r,
            (Err(Error::MalformedSerialization(b, _)), Decoding::Malformed(r)) => b@ == r,
            (Err(Error::Utf8Error(_)), Decoding::InvalidUtf8) => true,
            _ => false,
        },
{
    let (strlen, buf) = deserialize_u32(buf)?;
    let strlen: usize = strlen as usize;
    if strlen > buf.len() {
        return Err(Error::MalformedSerialization(slice_to_vec(buf), capture_backtrace()));
    }
    let strbytes = slice_subrange(buf, 0, strlen);
    match str_from_utf8(strbytes) {
        Ok(s) => {
            proof {
                lemma_utf8_chars(s@, strbytes@);
                assert(strbytes@ =~= buf@.take(strlen as int));
            }
            Ok((s, slice_subrange(buf, strlen, buf.len())))
        },
        Err(e) => {
            assert(strbytes@ =~= buf@.take(strlen as int));
            Err(Error::Utf8Error(e))
        },
    }
}

} // verus!

verus! {

// ---------------------------------------------------------------------------
// Messages
// ---------------------------------------------------------------------------

/// The fields of a message header, as values.
pub struct HeaderFields {
    pub sender: Seq<char>,
    pub group: Seq<char>,
    pub id: u32,
    pub body: MessageBody,
}

/// The `u32` that stands for a body on the wire: 0 for a receipt, else the size.
pub open spec fn body_word(body: MessageBody) -> u32 {
    match body {
        MessageBody::Receipt => 0,
        MessageBody::Size(s) => s.spec_get(),
    }
}

/// The body that a `u32` on the wire stands for.
pub open spec fn body_of_word(w: u32) -> MessageBody {
    if w == 0 {
        MessageBody::Receipt
    } else {
        MessageBody::Size(NonZeroU32::spec_new(w))
    }
}

/// The number of bytes in a serialized header with these sender and group bytes.
pub open spec fn header_len(sender: Seq<u8>, group: Seq<u8>) -> nat {
    20 + sender.len() + group.len()
}

/// A serialized message header: {header_len: u32, sender: {u32, utf-8},
/// group: {u32, utf-8}, id: u32, body: u32}.
pub open spec fn header_wire(h: HeaderFields) -> Seq<u8> {
    let sender = utf8(h.sender);
    let group = utf8(h.group);
    be_bytes(header_len(sender, group) as u32) + str_frame(sender) + str_frame(group)
        + be_bytes(h.id) + be_bytes(body_word(h.body))
}

/// Whether a header can be serialized: its length must fit in the `u32` that leads it.
pub open spec fn header_fits(h: HeaderFields) -> bool {
    header_len(utf8(h.sender), utf8(h.group)) <= u32::MAX
}

/// Decoding a header (after its length prefix) from the front of `buf`.
pub open spec fn spec_deserialize_header(buf: Seq<u8>) -> Decoding<HeaderFields> {
    match spec_deserialize_str(buf) {
        Decoding::Decoded(sender, buf) => match spec_deserialize_str(buf) {
            Decoding::Decoded(group, buf) => match spec_deserialize_u32(buf) {
                Decoding::Decoded(id, buf) => match spec_deserialize_u32(buf) {
                    Decoding::Decoded(w, rest) => Decoding::Decoded(
                        HeaderFields { sender, group, id, body: body_of_word(w) },
                        rest,
                    ),
                    Decoding::Malformed(b) => Decoding::Malformed(b),
                    Decoding::InvalidUtf8 => Decoding::InvalidUtf8,
                },
                Decoding::Malformed(b) => Decoding::Malformed(b),
                Decoding::InvalidUtf8 => Decoding::InvalidUtf8,
            },
            Decoding::Malformed(b) => Decoding::Malformed(b),
            Decoding::InvalidUtf8 => Decoding::InvalidUtf8,
        },
        Decoding::Malformed(b) => Decoding::Malformed(b),
        Decoding::InvalidUtf8 => Decoding::InvalidUtf8,
    }
}

/// Whether a result of decoding a header reports what the decoding gives.
pub open spec fn header_result<T: View<V = HeaderFields>>(
    res: Result<T, Error>,
    d: Decoding<HeaderFields>,
) -> bool {
    match (res, d) {
        (Ok(h), Decoding::Decoded(w, _)) => h@ == w,
        (Err(Error::MalformedSerialization(b, _)), Decoding::Malformed(r)) => b@ == r,
        (Err(Error::Utf8Error(_)), Decoding::InvalidUtf8) => true,
        _ => false,
    }
}

/// Message metadata.
///
/// This has everything needed to reconstruct a message.
#[derive(Debug, PartialEq)]
pub struct MessageHeader {
    /// User who constructed the message.
    pub sender: String,
    /// Group associated with the message.
    /// In client-server mode receipts, this is the recipient instead.
    pub group: String,
    /// ID unique to a message and its receipt for a (sender, group) pair.
    pub id: u32,
    /// The type and size of the message payload.
    pub body: MessageBody,
}

impl View for MessageHeader {
    type V = HeaderFields;

    open spec fn view(&self) -> HeaderFields {
        HeaderFields { sender: self.sender@, group: self.group@, id: self.id, body: self.body }
    }
}

/// A message almost ready for sending.
///
/// We represent each message in two halves: the header, and the body.
/// This way, the server can parse out the header in its own buf,
/// and just pass that around intact, without keeping a (possibly large)
/// 0-filled body around.
#[derive(Debug)]
pub struct SerializedMessage {
    pub header: Vec<u8>,
    pub body: MessageBody,
}

impl MessageHeader {
    /// Generate a concise serialization of the Message.
    pub fn serialize(&self) -> (res: SerializedMessage)
        requires
            header_fits(self@),
        ensures
            res.header@ == header_wire(self@),
            res.body == self.body,
    {
        let body_type: u32 = match self.body {
            MessageBody::Receipt => 0,
            MessageBody::Size(s) => s.get(),
        };
        let sender = self.sender.as_str();
        let group = self.group.as_str();
        let header_len: usize = 20 + sender.len() + group.len();
        let mut header: Vec<u8> = Vec::with_capacity(header_len);
        push_u32_be(&mut header, header_len as u32);
        serialize_str_to(sender, &mut header);
        serialize_str_to(group, &mut header);
        push_u32_be(&mut header, self.id);
        push_u32_be(&mut header, body_type);
        assert(header@ =~= header_wire(self@));
        SerializedMessage { header, body: self.body }
    }

    /// Creates a MessageHeader from bytes created via serialization,
    /// but with the size already parsed out.
    pub fn deserialize(buf: &[u8]) -> (res: Result<MessageHeader, Error>)
        ensures
            header_result(res, spec_deserialize_header(buf@)),
    {
        let (sender, buf) = deserialize_str(buf)?;
        let sender = sender.to_string();
        let (group, buf) = deserialize_str(buf)?;
        let group = group.to_string();
        let (id, buf) = deserialize_u32(buf)?;
        let (body, _) = deserialize_u32(buf)?;
        let body = match NonZeroU32::new(body) {
            Some(size) => MessageBody::Size(size),
            None => MessageBody::Receipt,
        };
        Ok(MessageHeader { sender, group, id, body })
    }
}

/// Message metadata, borrowing its strings.
///
/// This has everything needed to reconstruct a message.
#[derive(Debug)]
pub struct MessageHeaderRef<'a> {
    pub sender: &'a str,
    pub group: &'a str,
    pub id: u32,
    pub body: MessageBody,
}

impl<'a> View for MessageHeaderRef<'a> {
    type V = HeaderFields;

    open spec fn view(&self) -> HeaderFields {
        HeaderFields { sender: self.sender@, group: self.group@, id: self.id, body: self.body }
    }
}

impl<'a> MessageHeaderRef<'a> {
    /// Creates a MessageHeaderRef from bytes created via serialization,
    /// but with the size already parsed out.
    pub fn deserialize(buf: &'a [u8]) -> (res: Result<MessageHeaderRef<'a>, Error>)
        ensures
            header_result(res, spec_deserialize_header(buf@)),
    {
        let (sender, buf) = deserialize_str(buf)?;
        let (group, buf) = deserialize_str(buf)?;
        let (id, buf) = deserialize_u32(buf)?;
        let (body, _) = deserialize_u32(buf)?;
        let body = match NonZeroU32::new(body) {
            Some(size) => MessageBody::Size(size),
            None => MessageBody::Receipt,
        };
        Ok(MessageHeaderRef { sender, group, id, body })
    }
}

} // verus!

verus! {

// ---------------------------------------------------------------------------
// Laws of the wire format
// ---------------------------------------------------------------------------

/// Decoding a `u32` from its big-endian bytes followed by more bytes gives it back
/// and leaves the bytes that followed.
pub proof fn lemma_u32_roundtrip(x: u32, rest: Seq<u8>)
    ensures
        spec_deserialize_u32(be_bytes(x) + rest) == Decoding::Decoded(x, rest),
{
    lemma_be_roundtrip(x);
    let b = be_bytes(x) + rest;
    assert(b.skip(4) =~= rest);
    assert(be_decode(b) == be_decode(be_bytes(x)));
}

/// Decoding a serialized string followed by more bytes gives the string back
/// and leaves the bytes that followed.
pub proof fn lemma_str_roundtrip(s: Seq<char>, rest: Seq<u8>)
    requires
        utf8(s).len() <= u32::MAX,
    ensures
        spec_deserialize_str(str_frame(utf8(s)) + rest) == Decoding::Decoded(s, rest),
{
    let bytes = utf8(s);
    let n = (bytes.len() as usize) as u32;
    assert(n == bytes.len());
    lemma_u32_roundtrip(n, bytes + rest);
    assert(str_frame(bytes) + rest =~= be_bytes(n) + (bytes + rest));
    assert((bytes + rest).take(n as int) =~= bytes);
    assert((bytes + rest).skip(n as int) =~= rest);
    lemma_utf8_chars(s, bytes);
}

/// The bytes of a serialized header, split where each field starts.
proof fn lemma_header_parts(h: HeaderFields)
    requires
        header_fits(h),
    ensures
        header_wire(h) == be_bytes(header_len(utf8(h.sender), utf8(h.group)) as u32) + (
        str_frame(utf8(h.sender)) + (str_frame(utf8(h.group)) + (be_bytes(h.id) + (be_bytes(
        body_word(h.body)) + Seq::<u8>::empty())))),
        header_wire(h).len() == header_len(utf8(h.sender), utf8(h.group)),
{
    let sender = utf8(h.sender);
    let group = utf8(h.group);
    assert(header_wire(h) =~= be_bytes(header_len(sender, group) as u32) + (str_frame(sender) + (
    str_frame(group) + (be_bytes(h.id) + (be_bytes(body_word(h.body)) + Seq::<u8>::empty())))));
}

/// A serialized header starts with its own length, and decoding the rest of it
/// gives back the header that was serialized, with nothing left over.
pub proof fn lemma_header_roundtrip(h: HeaderFields)
    requires
        header_fits(h),
        h.body is Size ==> body_word(h.body) != 0,
    ensures
        header_wire(h).len() == header_len(utf8(h.sender), utf8(h.group)),
        be_decode(header_wire(h)) == header_wire(h).len(),
        spec_deserialize_header(header_wire(h).skip(4)) == Decoding::Decoded(h, Seq::<u8>::empty()),
{
    let sender = utf8(h.sender);
    let group = utf8(h.group);
    let len = header_len(sender, group) as u32;
    let w = body_word(h.body);
    let empty = Seq::<u8>::empty();
    let tail4 = be_bytes(w) + empty;
    let tail3 = be_bytes(h.id) + tail4;
    let tail2 = str_frame(group) + tail3;
    let tail1 = str_frame(sender) + tail2;
    lemma_header_parts(h);
    lemma_u32_roundtrip(len, tail1);
    lemma_str_roundtrip(h.sender, tail2);
    lemma_str_roundtrip(h.group, tail3);
    lemma_u32_roundtrip(h.id, tail4);
    lemma_u32_roundtrip(w, empty);
    assert(body_of_word(w) == h.body);
}

} // verus!

verus! {

// ---------------------------------------------------------------------------
// Reading and writing whole messages
// ---------------------------------------------------------------------------

/// The length that leads a serialized message: the big-endian `u32` in its first four bytes.
pub fn header_size(header_size_bytes: [u8; 4]) -> (res: u32)
    ensures
        res == be_decode(header_size_bytes@),
{
    ((header_size_bytes[0] as u32) << 24u32) | ((header_size_bytes[1] as u32) << 16u32) | ((
    header_size_bytes[2] as u32) << 8u32) | (header_size_bytes[3] as u32)
}

/// Put a message read from a stream back together: `header_size_bytes` are the
/// four bytes that lead it and `header_rest` the header bytes after them.
/// Gives the whole serialized header and the number of body bytes that follow
/// it on the connection, which the reader discards.
pub fn get_message_with_header_size<const P2P: bool>(
    header_size_bytes: [u8; 4],
    header_rest: &[u8],
) -> (res: Result<(Vec<u8>, usize), Error>)
    ensures
        match (res, spec_deserialize_header(header_rest@)) {
            (Ok((buf, skip)), Decoding::Decoded(h, _)) => buf@ == header_size_bytes@
                + header_rest@ && skip == h.body.spec_inline_size(P2P),
            (Err(Error::MalformedSerialization(b, _)), Decoding::Malformed(r)) => b@ == r,
            (Err(Error::Utf8Error(_)), Decoding::InvalidUtf8) => true,
            _ => false,
        },
{
    let header = MessageHeaderRef::deserialize(header_rest)?;
    let mut header_buf: Vec<u8> = Vec::new();
    push_bytes(&mut header_buf, &header_size_bytes);
    push_bytes(&mut header_buf, header_rest);
    Ok((header_buf, header.body.inline_size::<P2P>()))
}

/// Read an identifier (a string whose length came before it) from its bytes.
pub fn parse_identifier(buf: &[u8]) -> (res: Result<String, Error>)
    ensures
        res is Ok <==> valid_utf8(buf@),
        res matches Ok(s) ==> s@ == chars_of(buf@),
        res matches Err(e) ==> e is Utf8Error,
{
    match str_from_utf8(buf) {
        Ok(s) => {
            proof {
                lemma_utf8_chars(s@, buf@);
            }
            Ok(s.to_string())
        },
        Err(e) => Err(Error::Utf8Error(e)),
    }
}

/// What one vectored write of a header and a body achieved.
#[derive(Debug, PartialEq, Eq, Structural)]
pub enum WriteProgress {
    /// Everything was written.
    Complete,
    /// The header was written in full and the body up to this offset;
    /// the rest of the body is written in one go.
    BodyFrom(usize),
    /// Nothing was written though bytes remain.
    WriteZero,
    /// Only this many bytes of the header were written; write again from there.
    HeaderFrom(usize),
}

/// Decide how a message write continues after a vectored write of the
/// remaining `header_len` header bytes and `body_len` body bytes wrote `written` bytes.
pub fn write_progress(header_len: usize, body_len: usize, written: usize) -> (res: WriteProgress)
    requires
        header_len + body_len <= usize::MAX,
        written <= header_len + body_len,
    ensures
        written == header_len + body_len ==> res == WriteProgress::Complete,
        written != header_len + body_len && written >= header_len ==> res
            == WriteProgress::BodyFrom((written - header_len) as usize),
        written < header_len && written == 0 ==> res == WriteProgress::WriteZero,
        0 < written < header_len ==> res == WriteProgress::HeaderFrom(written),
{
    if written == header_len + body_len {
        WriteProgress::Complete
    } else if written >= header_len {
        WriteProgress::BodyFrom(written - header_len)
    } else if written == 0 {
        WriteProgress::WriteZero
    } else {
        WriteProgress::HeaderFrom(written)
    }
}

/// The bytes that a message occupies on a connection: its header, then its
/// inline body, which is all zeros.
pub open spec fn message_wire(m: SerializedMessage, p2p: bool) -> Seq<u8> {
    m.header@ + Seq::new(m.body.spec_inline_size(p2p), |i: int| 0u8)
}

impl SerializedMessage {
    /// The zero-filled part of the body that is sent inline with the header.
    pub fn inline_body<const P2P: bool>(&self) -> (res: Vec<u8>)
        ensures
            res@ == Seq::new(self.body.spec_inline_size(P2P), |i: int| 0u8),
    {
        let n = self.body.inline_size::<P2P>();
        let mut body: Vec<u8> = Vec::with_capacity(n);
        let mut i: usize = 0;
        while i < n
            invariant
                i <= n,
                body@ == Seq::new(i as nat, |j: int| 0u8),
            decreases n - i,
        {
            body.push(0u8);
            i = i + 1;
            assert(body@ =~= Seq::new(i as nat, |j: int| 0u8));
        }
        body
    }
}

// ---------------------------------------------------------------------------
// Handshakes
// ---------------------------------------------------------------------------

/// A serialized handshake: {sender: {u32, utf-8}, group: {u32, utf-8}}.
pub open spec fn handshake_wire(sender: Seq<char>, group: Seq<char>) -> Seq<u8> {
    str_frame(utf8(sender)) + str_frame(utf8(group))
}

/// Handshake between client and server (peers do not use).
#[derive(Eq, Debug, Hash, PartialEq)]
pub struct Handshake {
    /// Who is sending this handshake.
    pub sender: String,
    /// For normal messages, the group the message was sent to.
    /// For receipts, the client the receipt is for.
    pub group: String,
}

impl Handshake {
    /// Generate a serialized handshake message.
    pub fn serialize(&self) -> (res: Vec<u8>)
        requires
            8 + utf8(self.sender@).len() + utf8(self.group@).len() <= usize::MAX,
        ensures
            res@ == handshake_wire(self.sender@, self.group@),
    {
        serialize_handshake(self.sender.as_str(), self.group.as_str())
    }
}

/// A reference to a Handshake's fields.
pub struct HandshakeRef<'a> {
    pub sender: &'a str,
    pub group: &'a str,
}

impl HandshakeRef<'_> {
    /// Generate a serialized handshake message.
    pub fn serialize(&self) -> (res: Vec<u8>)
        requires
            8 + utf8(self.sender@).len() + utf8(self.group@).len() <= usize::MAX,
        ensures
            res@ == handshake_wire(self.sender@, self.group@),
    {
        serialize_handshake(self.sender, self.group)
    }
}

/// Serialize a handshake from its sender and group.
pub fn serialize_handshake(sender: &str, group: &str) -> (res: Vec<u8>)
    requires
        8 + utf8(sender@).len() + utf8(group@).len() <= usize::MAX,
    ensures
        res@ == handshake_wire(sender@, group@),
{
    let handshake_len: usize = 8 + sender.len() + group.len();
    let mut handshake: Vec<u8> = Vec::with_capacity(handshake_len);
    serialize_str_to(sender, &mut handshake);
    serialize_str_to(group, &mut handshake);
    assert(handshake@ =~= handshake_wire(sender@, group@));
    handshake
}

/// Reading the two identifiers of a serialized handshake gives back its sender,
/// then its group, with nothing left over.
pub proof fn lemma_handshake_roundtrip(sender: Seq<char>, group: Seq<char>)
    requires
        utf8(sender).len() <= u32::MAX,
        utf8(group).len() <= u32::MAX,
    ensures
        spec_deserialize_str(handshake_wire(sender, group)) == Decoding::Decoded(
            sender,
            str_frame(utf8(group)),
        ),
        spec_deserialize_str(str_frame(utf8(group))) == Decoding::Decoded(
            group,
            Seq::<u8>::empty(),
        ),
{
    lemma_str_roundtrip(sender, str_frame(utf8(group)));
    lemma_str_roundtrip(group, Seq::<u8>::empty());
    assert(str_frame(utf8(group)) + Seq::<u8>::empty() =~= str_frame(utf8(group)));
}

} // verus!

verus! {

/// What a reader gets back of a message that was written to a connection:
/// the first four bytes give the header's length; the header bytes after them
/// decode to the header that was serialized; and after the header exactly the
/// inline part of the body follows, which the reader skips.
pub proof fn lemma_message_roundtrip(h: HeaderFields, m: SerializedMessage, p2p: bool)
    requires
        header_fits(h),
        h.body is Size ==> body_word(h.body) != 0,
        m.header@ == header_wire(h),
        m.body == h.body,
    ensures
        ({
            let w = message_wire(m, p2p);
            let len = header_wire(h).len();
            &&& be_decode(w.take(4)) == len
            &&& 4 <= len <= w.len()
            &&& w.subrange(0, len as int) == m.header@
            &&& spec_deserialize_header(w.subrange(4, len as int)) == Decoding::Decoded(h, Seq::<u8>::empty())
            &&& w.len() - len == h.body.spec_inline_size(p2p)
        }),
{
    lemma_header_roundtrip(h);
    let w = message_wire(m, p2p);
    let len = header_wire(h).len();
    assert(w.take(4) =~= header_wire(h).take(4));
    assert(be_decode(w.take(4)) == be_decode(header_wire(h)));
    assert(w.subrange(0, len as int) =~= m.header@);
    assert(w.subrange(4, len as int) =~= header_wire(h).skip(4));
}

/// The part of a message's body that is not sent inline is fetched over HTTP:
/// a body has an attachment exactly when clients of a server send less of it
/// inline than its whole size; peers always send all of it.
pub proof fn lemma_attachment_split(body: MessageBody)
    ensures
        (body.spec_total_size() > INLINE_MAX_SIZE && body is Size) <==> body.spec_inline_size(false)
            < body.spec_total_size(),
        body.spec_inline_size(true) == body.spec_total_size(),
        body.spec_inline_size(false) <= INLINE_MAX_SIZE,
{
    lemma_size_constants();
}

} // verus!
