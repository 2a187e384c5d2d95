//! Messages of the protocol and their encoding on the wire.
use vstd::prelude::*;

use crate::text::{
    bytes_of, chars_of, is_byte_text, lemma_text_round_trip, text_from_bytes, text_to_bytes,
};

verus! {

/// The value of four bytes read most significant first.
pub open spec fn be_value(b: Seq<u8>) -> nat {
    b[0] as nat * 16777216 + b[1] as nat * 65536 + b[2] as nat * 256 + b[3] as nat
}

/// The four bytes of `v`, most significant first.
pub open spec fn be_bytes(v: nat) -> Seq<u8> {
    seq![(v / 16777216) as u8, ((v / 65536) % 256) as u8, ((v / 256) % 256) as u8, (v % 256) as u8]
}

/// Divides a `u32` into its four bytes, most significant first.
pub fn uint_to_bytes(val: u32) -> (r: [u8; 4])
    ensures
        r@ == be_bytes(val as nat),
        be_value(r@) == val,
{
    let r = [
        (val / 16777216) as u8,
        ((val / 65536) % 256) as u8,
        ((val / 256) % 256) as u8,
        (val % 256) as u8,
    ];
    assert(r@ =~= be_bytes(val as nat));
    assert(be_value(r@) == val) by (nonlinear_arith)
        requires
            r@[0] == val / 16777216,
            r@[1] == (val / 65536) % 256,
            r@[2] == (val / 256) % 256,
            r@[3] == val % 256,
    {}
    r
}

/// Makes a `u32` from four bytes, most significant first.
pub fn bytes_to_uint(val: [u8; 4]) -> (r: u32)
    ensures
        r == be_value(val@),
{
    (val[0] as u32) * 16777216 + (val[1] as u32) * 65536 + (val[2] as u32) * 256 + val[3] as u32
}

/// Code byte of `Name`.
pub const NAME: u8 = 1;
/// Code byte of `AlreadyHere`.
pub const ALREADY_HERE: u8 = 2;
/// Code byte of `MessageTo`.
pub const MESSAGE_TO: u8 = 3;
/// Code byte of `MessageFrom`.
pub const MESSAGE_FROM: u8 = 4;
/// Code byte of `Welcome`.
pub const WELCOME: u8 = 5;

/// The largest length field that a frame may declare: the bound on what one
/// frame makes a reader allocate.
pub const MAX_FRAME_LEN: u32 = 1048576;

/// A message of the protocol.
#[derive(PartialEq, Eq, Debug, Clone)]
pub enum Code {
    /// Name(name): a client asks to join under this name.
    Name(String),
    /// AlreadyHere: the name asked for is taken.
    AlreadyHere,
    /// MessageTo(text): text sent by its author.
    MessageTo(String),
    /// MessageFrom(name, text): text handed on, with the name of its author.
    MessageFrom(String, String),
    /// Welcome(room, admin): the name was accepted.
    Welcome(String, String),
}

/// What a `Code` holds, its texts as sequences of characters.
pub enum Message {
    Name(Seq<char>),
    AlreadyHere,
    MessageTo(Seq<char>),
    MessageFrom(Seq<char>, Seq<char>),
    Welcome(Seq<char>, Seq<char>),
}

impl View for Code {
    type V = Message;

    open spec fn view(&self) -> Message {
        match self {
            Code::Name(n) => Message::Name(n@),
            Code::AlreadyHere => Message::AlreadyHere,
            Code::MessageTo(t) => Message::MessageTo(t@),
            Code::MessageFrom(n, t) => Message::MessageFrom(n@, t@),
            Code::Welcome(r, a) => Message::Welcome(r@, a@),
        }
    }
}

/// Why a message cannot be encoded.
#[derive(PartialEq, Eq, Debug, Clone, Copy)]
pub enum EncodeError {
    /// A text holds a character whose code does not fit in one byte.
    NotByteText,
    /// The payload is longer than `MAX_FRAME_LEN`.
    TooLong,
}

/// Why bytes are not a message.
#[derive(PartialEq, Eq, Debug, Clone, Copy)]
pub enum DecodeError {
    /// The length fields are out of bounds or inconsistent.
    Framing,
    /// The code byte names no message.
    UnsupportedCode(u8),
}

/// Every text of `m` fits in one byte per character.
pub open spec fn texts_are_bytes(m: Message) -> bool {
    match m {
        Message::Name(t) => is_byte_text(t),
        Message::AlreadyHere => true,
        Message::MessageTo(t) => is_byte_text(t),
        Message::MessageFrom(n, t) => is_byte_text(n) && is_byte_text(t),
        Message::Welcome(r, a) => is_byte_text(r) && is_byte_text(a),
    }
}

/// The value of the length field that the encoding of `m` carries.
pub open spec fn payload_len(m: Message) -> nat {
    match m {
        Message::Name(t) => t.len(),
        Message::AlreadyHere => 0,
        Message::MessageTo(t) => t.len(),
        Message::MessageFrom(n, t) => 4 + n.len() + t.len(),
        Message::Welcome(r, a) => 4 + r.len() + a.len(),
    }
}

/// A message that can travel on the wire.
pub open spec fn is_valid(m: Message) -> bool {
    texts_are_bytes(m) && payload_len(m) <= MAX_FRAME_LEN
}

/// A frame whose payload is one text.
pub open spec fn text_frame(code: u8, t: Seq<char>) -> Seq<u8> {
    seq![code] + be_bytes(t.len()) + bytes_of(t)
}

/// A frame whose payload is a name, given with its length, then a text.
pub open spec fn pair_frame(code: u8, n: Seq<char>, t: Seq<char>) -> Seq<u8> {
    seq![code] + be_bytes(4 + n.len() + t.len()) + be_bytes(n.len()) + bytes_of(n) + bytes_of(t)
}

/// The bytes that encode `m`.
pub open spec fn encode_spec(m: Message) -> Seq<u8> {
    match m {
        Message::Name(t) => text_frame(NAME, t),
        Message::AlreadyHere => seq![ALREADY_HERE] + be_bytes(0),
        Message::MessageTo(t) => text_frame(MESSAGE_TO, t),
        Message::MessageFrom(n, t) => pair_frame(MESSAGE_FROM, n, t),
        Message::Welcome(r, a) => pair_frame(WELCOME, r, a),
    }
}

/// The code byte is one that a frame may start with.
pub open spec fn is_known_code(c: u8) -> bool {
    c == NAME || c == ALREADY_HERE || c == MESSAGE_TO || c == MESSAGE_FROM || c == WELCOME
}

/// The code of a message whose payload starts with the length of a name.
pub open spec fn is_pair_code(c: u8) -> bool {
    c == MESSAGE_FROM || c == WELCOME
}

/// What the start of a byte stream holds.
pub enum Decoded {
    /// More bytes are needed to decide.
    Incomplete,
    /// A message, and how many bytes its frame took.
    Complete(Message, nat),
    /// The frame is refused.
    Rejected(DecodeError),
}

/// The length field of a frame whose header is complete.
pub open spec fn declared_len(s: Seq<u8>) -> int {
    be_value(s.subrange(1, 5)) as int
}

/// The name length that a pair frame carries at the start of its payload.
pub open spec fn declared_name_len(s: Seq<u8>) -> int {
    be_value(s.subrange(5, 9)) as int
}

/// How the bytes `s` decode, read from their start. `AlreadyHere` is complete
/// with its code byte alone. The length fields are checked as soon as they are
/// in: the length once the header is, the name length of a pair frame once
/// its nine bytes are.
pub open spec fn decode_spec(s: Seq<u8>) -> Decoded {
    if s.len() == 0 {
        Decoded::Incomplete
    } else if s[0] == ALREADY_HERE {
        Decoded::Complete(Message::AlreadyHere, 1)
    } else if !is_known_code(s[0]) {
        Decoded::Rejected(DecodeError::UnsupportedCode(s[0]))
    } else if s.len() < 5 {
        Decoded::Incomplete
    } else if declared_len(s) > MAX_FRAME_LEN || (is_pair_code(s[0]) && declared_len(s) < 4) {
        Decoded::Rejected(DecodeError::Framing)
    } else if is_pair_code(s[0]) && s.len() >= 9 && declared_name_len(s) + 4 > declared_len(s) {
        Decoded::Rejected(DecodeError::Framing)
    } else if s.len() < 5 + declared_len(s) {
        Decoded::Incomplete
    } else if !is_pair_code(s[0]) {
        let t = chars_of(s.subrange(5, 5 + declared_len(s)));
        Decoded::Complete(
            if s[0] == NAME { Message::Name(t) } else { Message::MessageTo(t) },
            (5 + declared_len(s)) as nat,
        )
    } else {
        let n = chars_of(s.subrange(9, 9 + declared_name_len(s)));
        let t = chars_of(s.subrange(9 + declared_name_len(s), 5 + declared_len(s)));
        Decoded::Complete(
            if s[0] == MESSAGE_FROM { Message::MessageFrom(n, t) } else { Message::Welcome(n, t) },
            (5 + declared_len(s)) as nat,
        )
    }
}

/// `r` is the executable form of `d`.
pub open spec fn decode_result_is(r: Result<Option<(Code, usize)>, DecodeError>, d: Decoded) -> bool {
    match d {
        Decoded::Incomplete => r == Ok::<Option<(Code, usize)>, DecodeError>(None),
        Decoded::Complete(m, k) => r matches Ok(Some((c, n))) && c@ == m && n == k,
        Decoded::Rejected(e) => r == Err::<Option<(Code, usize)>, DecodeError>(e),
    }
}

/// Appends the bytes `b` to `out`.
fn push_all(out: &mut Vec<u8>, b: &[u8])
    ensures
        final(out)@ == old(out)@ + b@,
{
    let mut i: usize = 0;
    while i < b.len()
        invariant
            i <= b@.len(),
            out@ == old(out)@ + b@.subrange(0, i as int),
        decreases b@.len() - i,
    {
        out.push(b[i]);
        i = i + 1;
        assert(out@ =~= old(out)@ + b@.subrange(0, i as int));
    }
    assert(b@.subrange(0, b@.len() as int) =~= b@);
}

/// Encodes a message whose payload is one text.
fn encode_text(code: u8, t: &String) -> (r: Result<Vec<u8>, EncodeError>)
    ensures
        !is_byte_text(t@) ==> r == Err::<Vec<u8>, EncodeError>(EncodeError::NotByteText),
        is_byte_text(t@) && t@.len() > MAX_FRAME_LEN ==> r == Err::<Vec<u8>, EncodeError>(
            EncodeError::TooLong,
        ),
        is_byte_text(t@) && t@.len() <= MAX_FRAME_LEN ==> (r matches Ok(v) && v@
            == text_frame(code, t@)),
{
    let tb = match text_to_bytes(t.as_str()) {
        Some(tb) => tb,
        None => return Err(EncodeError::NotByteText),
    };
    if tb.len() > MAX_FRAME_LEN as usize {
        return Err(EncodeError::TooLong);
    }
    let mut out: Vec<u8> = Vec::new();
    out.push(code);
    push_all(&mut out, &uint_to_bytes(tb.len() as u32));
    push_all(&mut out, tb.as_slice());
    assert(out@ =~= text_frame(code, t@));
    Ok(out)
}

/// Encodes a message whose payload is a name and a text.
fn encode_pair(code: u8, n: &String, t: &String) -> (r: Result<Vec<u8>, EncodeError>)
    ensures
        !(is_byte_text(n@) && is_byte_text(t@)) ==> r == Err::<Vec<u8>, EncodeError>(
            EncodeError::NotByteText,
        ),
        is_byte_text(n@) && is_byte_text(t@) && 4 + n@.len() + t@.len() > MAX_FRAME_LEN ==> r
            == Err::<Vec<u8>, EncodeError>(EncodeError::TooLong),
        is_byte_text(n@) && is_byte_text(t@) && 4 + n@.len() + t@.len() <= MAX_FRAME_LEN ==> (r matches Ok(v)
            && v@ == pair_frame(code, n@, t@)),
{
    let nb = match text_to_bytes(n.as_str()) {
        Some(nb) => nb,
        None => return Err(EncodeError::NotByteText),
    };
    let tb = match text_to_bytes(t.as_str()) {
        Some(tb) => tb,
        None => return Err(EncodeError::NotByteText),
    };
    if nb.len() > MAX_FRAME_LEN as usize - 4 || tb.len() > MAX_FRAME_LEN as usize - 4 - nb.len() {
        return Err(EncodeError::TooLong);
    }
    let mut out: Vec<u8> = Vec::new();
    out.push(code);
    push_all(&mut out, &uint_to_bytes((4 + nb.len() + tb.len()) as u32));
    push_all(&mut out, &uint_to_bytes(nb.len() as u32));
    push_all(&mut out, nb.as_slice());
    push_all(&mut out, tb.as_slice());
    assert(out@ =~= pair_frame(code, n@, t@));
    Ok(out)
}

/// Encodes `message`: its code byte, a four-byte length, then its payload.
/// `AlreadyHere` carries a zero length and no payload.
pub fn encode(message: &Code) -> (r: Result<Vec<u8>, EncodeError>)
    ensures
        !texts_are_bytes(message@) ==> r == Err::<Vec<u8>, EncodeError>(EncodeError::NotByteText),
        texts_are_bytes(message@) && payload_len(message@) > MAX_FRAME_LEN ==> r == Err::<
            Vec<u8>,
            EncodeError,
        >(EncodeError::TooLong),
        is_valid(message@) ==> (r matches Ok(v) && v@ == encode_spec(message@)),
{
    match message {
        Code::Name(t) => encode_text(NAME, t),
        Code::AlreadyHere => {
            let mut out: Vec<u8> = Vec::new();
            out.push(ALREADY_HERE);
            push_all(&mut out, &uint_to_bytes(0));
            assert(out@ =~= encode_spec(message@));
            Ok(out)
        },
        Code::MessageTo(t) => encode_text(MESSAGE_TO, t),
        Code::MessageFrom(n, t) => encode_pair(MESSAGE_FROM, n, t),
        Code::Welcome(r, a) => encode_pair(WELCOME, r, a),
    }
}

/// Reads the four bytes of `b` from `at` as one value, most significant first.
fn read_uint_at(b: &[u8], at: usize) -> (r: u32)
    requires
        at + 4 <= b@.len(),
    ensures
        r == be_value(b@.subrange(at as int, at + 4)),
{
    let quad = [b[at], b[at + 1], b[at + 2], b[at + 3]];
    assert(quad@ =~= b@.subrange(at as int, at + 4));
    bytes_to_uint(quad)
}

/// Decodes the frame at the start of `bytes`: `Ok(None)` while more bytes are
/// needed, else the message and the number of bytes its frame took, or why
/// the frame is refused. Bytes after the frame are not read.
pub fn decode(bytes: &[u8]) -> (r: Result<Option<(Code, usize)>, DecodeError>)
    ensures
        decode_result_is(r, decode_spec(bytes@)),
{
    if bytes.len() == 0 {
        return Ok(None);
    }
    let code = bytes[0];
    if code == ALREADY_HERE {
        return Ok(Some((Code::AlreadyHere, 1)));
    }
    if !(code == NAME || code == MESSAGE_TO || code == MESSAGE_FROM || code == WELCOME) {
        return Err(DecodeError::UnsupportedCode(code));
    }
    if bytes.len() < 5 {
        return Ok(None);
    }
    let len = read_uint_at(bytes, 1);
    let pair = code == MESSAGE_FROM || code == WELCOME;
    if len > MAX_FRAME_LEN || (pair && len < 4) {
        return Err(DecodeError::Framing);
    }
    let len = len as usize;
    if pair && bytes.len() >= 9 && read_uint_at(bytes, 5) as usize > len - 4 {
        return Err(DecodeError::Framing);
    }
    if bytes.len() - 5 < len {
        return Ok(None);
    }
    if !pair {
        let t = text_from_bytes(bytes, 5, 5 + len);
        let m = if code == NAME {
            Code::Name(t)
        } else {
            Code::MessageTo(t)
        };
        return Ok(Some((m, 5 + len)));
    }
    let name_len = read_uint_at(bytes, 5) as usize;
    let n = text_from_bytes(bytes, 9, 9 + name_len);
    let t = text_from_bytes(bytes, 9 + name_len, 5 + len);
    let m = if code == MESSAGE_FROM {
        Code::MessageFrom(n, t)
    } else {
        Code::Welcome(n, t)
    };
    Ok(Some((m, 5 + len)))
}

/// How many bytes the frame of `m` takes when it is read back: the code byte
/// alone for `AlreadyHere`, the whole encoding otherwise.
pub open spec fn frame_len(m: Message) -> nat {
    match m {
        Message::AlreadyHere => 1,
        _ => 5 + payload_len(m),
    }
}

/// The bytes that `encode` writes beyond the frame that a reader takes: the
/// zero length field that follows the code byte of `AlreadyHere`.
pub fn padding_after(message: &Code) -> (r: usize)
    ensures
        r == encode_spec(message@).len() - frame_len(message@),
{
    match message {
        Code::AlreadyHere => 4,
        _ => 0,
    }
}

/// Four bytes read back give the value they were made from.
pub proof fn lemma_be_round_trip(v: nat)
    requires
        v < 4294967296,
    ensures
        be_bytes(v).len() == 4,
        be_value(be_bytes(v)) == v,
{
    let b = be_bytes(v);
    assert(b[0] == v / 16777216) by (nonlinear_arith)
        requires
            v < 4294967296,
            b[0] == (v / 16777216) as u8,
    ;
    assert(b[1] == (v / 65536) % 256);
    assert(b[2] == (v / 256) % 256);
    assert(b[3] == v % 256);
    assert(be_value(b) == v) by (nonlinear_arith)
        requires
            b[0] == v / 16777216,
            b[1] == (v / 65536) % 256,
            b[2] == (v / 256) % 256,
            b[3] == v % 256,
            v < 4294967296,
    ;
}

/// Decoding a one-text frame gives back its text.
proof fn lemma_decode_text_frame(code: u8, t: Seq<char>)
    requires
        code == NAME || code == MESSAGE_TO,
        is_byte_text(t),
        t.len() <= MAX_FRAME_LEN,
    ensures
        ({
            let s = text_frame(code, t);
            &&& s.len() == 5 + t.len()
            &&& declared_len(s) == t.len()
            &&& decode_spec(s) == Decoded::Complete(
                if code == NAME { Message::Name(t) } else { Message::MessageTo(t) },
                5 + t.len(),
            )
        }),
{
    let s = text_frame(code, t);
    lemma_be_round_trip(t.len());
    lemma_text_round_trip(Seq::empty(), t);
    assert(s.subrange(1, 5) =~= be_bytes(t.len()));
    assert(s.subrange(5, 5 + t.len() as int) =~= bytes_of(t));
}

/// Decoding a name-and-text frame gives back the name and the text.
proof fn lemma_decode_pair_frame(code: u8, n: Seq<char>, t: Seq<char>)
    requires
        is_pair_code(code),
        is_byte_text(n),
        is_byte_text(t),
        4 + n.len() + t.len() <= MAX_FRAME_LEN,
    ensures
        ({
            let s = pair_frame(code, n, t);
            &&& s.len() == 9 + n.len() + t.len()
            &&& declared_len(s) == 4 + n.len() + t.len()
            &&& declared_name_len(s) == n.len()
            &&& decode_spec(s) == Decoded::Complete(
                if code == MESSAGE_FROM { Message::MessageFrom(n, t) } else { Message::Welcome(n, t) },
                9 + n.len() + t.len(),
            )
        }),
{
    let s = pair_frame(code, n, t);
    let l = 4 + n.len() + t.len();
    lemma_be_round_trip(l);
    lemma_be_round_trip(n.len());
    lemma_text_round_trip(Seq::empty(), n);
    lemma_text_round_trip(Seq::empty(), t);
    assert(s.subrange(1, 5) =~= be_bytes(l));
    assert(s.subrange(5, 9) =~= be_bytes(n.len()));
    assert(s.subrange(9, 9 + n.len() as int) =~= bytes_of(n));
    assert(s.subrange(9 + n.len() as int, 5 + l as int) =~= bytes_of(t));
}

/// Decoding the encoding of a valid message gives the message back, from a
/// frame of `frame_len` bytes.
pub proof fn lemma_decode_encode(m: Message)
    requires
        is_valid(m),
    ensures
        decode_spec(encode_spec(m)) == Decoded::Complete(m, frame_len(m)),
{
    match m {
        Message::Name(t) => lemma_decode_text_frame(NAME, t),
        Message::AlreadyHere => {},
        Message::MessageTo(t) => lemma_decode_text_frame(MESSAGE_TO, t),
        Message::MessageFrom(n, t) => lemma_decode_pair_frame(MESSAGE_FROM, n, t),
        Message::Welcome(r, a) => lemma_decode_pair_frame(WELCOME, r, a),
    }
}

/// The encoding of `MessageFrom(name, text)` declares the length
/// `4 + len(name) + len(text)`, and decoding it recovers exactly the name and
/// the text.
pub proof fn lemma_message_from_frame(name: Seq<char>, text: Seq<char>)
    requires
        is_valid(Message::MessageFrom(name, text)),
    ensures
        declared_len(encode_spec(Message::MessageFrom(name, text))) == 4 + name.len() + text.len(),
        encode_spec(Message::MessageFrom(name, text)).len() == 9 + name.len() + text.len(),
        decode_spec(encode_spec(Message::MessageFrom(name, text))) == Decoded::Complete(
            Message::MessageFrom(name, text),
            9 + name.len() + text.len(),
        ),
{
    lemma_decode_pair_frame(MESSAGE_FROM, name, text);
}

/// A `MessageFrom` or `Welcome` frame is refused with `Framing` when its
/// length is below 4, once its header is in, or when its name length reaches
/// its length, once the name length is in: no payload byte is waited for.
pub proof fn lemma_decode_rejects_bad_lengths(s: Seq<u8>)
    requires
        s.len() >= 5,
        is_pair_code(s[0]),
    ensures
        declared_len(s) < 4 ==> decode_spec(s) == Decoded::Rejected(DecodeError::Framing),
        s.len() >= 9 && declared_name_len(s) >= declared_len(s) ==> decode_spec(s)
            == Decoded::Rejected(DecodeError::Framing),
{
}

} // verus!
