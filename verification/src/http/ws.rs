//! WebSocket handshake and framing.
use base64::Engine;
use sha1::Digest;
use vstd::prelude::*;
use vstd::string::*;
use vstd::utf8::encode_utf8;
use crate::bytes::{
    be16, be64, lemma_be16, lemma_be64, put_bytes, put_u16, put_u64, read_u16, read_u64, slice,
    to_vec, u16_at, u64_at,
};
use crate::text::copy_text;

verus! {

broadcast use crate::bytes::group_be_len;

/// The text that every handshake appends to the key of the client.
pub const MAGIC_GUID: &'static str = "258EAFA5-E914-47DA-95CA-C5AB0DC85B11";

/// The SHA-1 digest of some bytes.
pub uninterp spec fn sha1_digest(data: Seq<u8>) -> Seq<u8>;

/// `Sha1::digest` of the crate `sha1`: the digest of the bytes, 20 bytes long.
/// What the digest is, is left to its name.
#[verifier::external_body]
fn sha1_of(data: &[u8]) -> (r: Vec<u8>)
    ensures
        r@ == sha1_digest(data@),
        r@.len() == 20,
{
    sha1::Sha1::digest(data).to_vec()
}

/// The character for a number below 64 in the standard base64 alphabet.
pub open spec fn base64_char(n: int) -> char {
    if n < 26 {
        (0x41 + n) as char
    } else if n < 52 {
        (0x61 + (n - 26)) as char
    } else if n < 62 {
        (0x30 + (n - 52)) as char
    } else if n == 62 {
        '+'
    } else {
        '/'
    }
}

/// The byte at `i`, zero behind the end.
pub open spec fn byte_or_zero(data: Seq<u8>, i: int) -> int {
    if i < data.len() {
        data[i] as int
    } else {
        0
    }
}

/// Character `i` of the padded base64 encoding: each group of three bytes
/// makes four characters of six bits each, and `=` stands for what is missing
/// at the end.
pub open spec fn base64_at(data: Seq<u8>, i: int) -> char {
    let g = i / 4;
    let j = i % 4;
    let bits = byte_or_zero(data, 3 * g) * 0x1_0000 + byte_or_zero(data, 3 * g + 1) * 0x100
        + byte_or_zero(data, 3 * g + 2);
    if 3 * g + j > data.len() {
        '='
    } else if j == 0 {
        base64_char(bits / 0x4_0000)
    } else if j == 1 {
        base64_char((bits / 0x1000) % 0x40)
    } else if j == 2 {
        base64_char((bits / 0x40) % 0x40)
    } else {
        base64_char(bits % 0x40)
    }
}

/// The padded base64 encoding of some bytes.
pub open spec fn base64_of(data: Seq<u8>) -> Seq<char> {
    Seq::new((4 * ((data.len() + 2) / 3)) as nat, |i: int| base64_at(data, i))
}

/// `Engine::encode` of the crate `base64` with the engine `STANDARD`: the
/// encoding in the standard alphabet, padded to a multiple of four.
#[verifier::external_body]
fn base64_text(data: &[u8]) -> (r: String)
    requires
        data@.len() <= 0xffff,
    ensures
        r@ == base64_of(data@),
{
    base64::engine::general_purpose::STANDARD.encode(data)
}

/// The bytes whose digest answers the key of a client.
pub open spec fn handshake_bytes(key: Seq<char>) -> Seq<u8> {
    encode_utf8(key) + encode_utf8(MAGIC_GUID@)
}

/// The answer to the key of a client.
pub fn compute_accept_key(key: &str) -> (r: String)
    ensures
        r@ == base64_of(sha1_digest(handshake_bytes(key@))),
{
    let mut data = to_vec(key.as_bytes());
    put_bytes(&mut data, MAGIC_GUID.as_bytes());
    let digest = sha1_of(data.as_slice());
    base64_text(digest.as_slice())
}

/// The response that switches to the WebSocket protocol.
pub open spec fn switching_text(accept: Seq<char>) -> Seq<char> {
    "HTTP/1.1 101 Switching Protocols\r\nUpgrade: websocket\r\nConnection: Upgrade\r\nSec-WebSocket-Accept: "@
        + accept + "\r\n\r\n"@
}

/// The response that switches to the WebSocket protocol, with the given answer
/// to the key of the client.
pub fn switching_response(accept: &str) -> (r: String)
    ensures
        r@ == switching_text(accept@),
{
    let mut out = copy_text(
        "HTTP/1.1 101 Switching Protocols\r\nUpgrade: websocket\r\nConnection: Upgrade\r\nSec-WebSocket-Accept: ",
    );
    out.append(accept);
    out.append("\r\n\r\n");
    out
}

/// The response to a client that asks to switch to the WebSocket protocol.
pub fn upgrade_response(key: &str) -> (r: String)
    ensures
        r@ == switching_text(base64_of(sha1_digest(handshake_bytes(key@)))),
{
    let accept = compute_accept_key(key);
    switching_response(accept.as_str())
}

/// A WebSocket frame.
#[derive(Debug)]
pub struct WsFrame {
    /// Whether the frame ends its message.
    pub fin: bool,
    pub opcode: u8,
    pub payload: Vec<u8>,
}

/// The model of a frame.
#[verifier::ext_equal]
pub struct WsModel {
    pub fin: bool,
    pub opcode: u8,
    pub payload: Seq<u8>,
}

impl View for WsFrame {
    type V = WsModel;

    open spec fn view(&self) -> WsModel {
        WsModel { fin: self.fin, opcode: self.opcode, payload: self.payload@ }
    }
}

/// A frame that carries binary data.
pub open spec fn binary_frame(data: Seq<u8>) -> WsModel {
    WsModel { fin: true, opcode: 2, payload: data }
}

/// A frame that answers a ping.
pub open spec fn pong_frame() -> WsModel {
    WsModel { fin: true, opcode: 0xa, payload: Seq::empty() }
}

/// A frame that closes the connection with a code and a reason.
pub open spec fn close_frame(code: u16, reason: Seq<char>) -> WsModel {
    WsModel { fin: true, opcode: 8, payload: be16(code as int) + encode_utf8(reason) }
}

/// The first byte of a frame.
pub open spec fn first_byte(f: WsModel) -> u8 {
    if f.fin {
        (0x80 + f.opcode as int % 0x80) as u8
    } else {
        f.opcode
    }
}

/// The length of a payload: one byte up to 125, else a mark and two bytes, or
/// a mark and eight bytes.
pub open spec fn length_bytes(n: int) -> Seq<u8> {
    if n < 126 {
        seq![n as u8]
    } else if n <= 0xffff {
        seq![126u8] + be16(n)
    } else {
        seq![127u8] + be64(n)
    }
}

/// The bytes of a frame as a server sends it.
pub open spec fn encoded(f: WsModel) -> Seq<u8> {
    seq![first_byte(f)] + length_bytes(f.payload.len() as int) + f.payload
}

/// Where the payload length of a frame is written, and what it is: offset
/// behind it and length.
pub open spec fn payload_length(buf: Seq<u8>) -> Option<(int, int)> {
    let short = buf[1] as int % 0x80;
    if buf.len() < 2 {
        None
    } else if short < 126 {
        Some((2, short))
    } else if short == 126 {
        if buf.len() < 4 {
            None
        } else {
            Some((4, u16_at(buf, 2)))
        }
    } else if buf.len() < 10 {
        None
    } else {
        Some((10, u64_at(buf, 2)))
    }
}

/// Bytes combined with a key of four bytes.
pub open spec fn masked(data: Seq<u8>, key: Seq<u8>) -> Seq<u8> {
    Seq::new(data.len(), |i: int| data[i] ^ key[i % 4])
}

/// The frame at the start of a buffer and how many bytes it takes; nothing
/// while it is not complete.
pub open spec fn decoded(buf: Seq<u8>) -> Option<(WsModel, int)> {
    match payload_length(buf) {
        None => None,
        Some((offset, len)) => {
            let is_masked = buf[1] >= 0x80;
            let start = if is_masked {
                offset + 4
            } else {
                offset
            };
            if buf.len() < start + len {
                None
            } else {
                let raw = buf.subrange(start, start + len);
                Some(
                    (
                        WsModel {
                            fin: buf[0] >= 0x80,
                            opcode: (buf[0] % 0x10) as u8,
                            payload: if is_masked {
                                masked(raw, buf.subrange(offset, offset + 4))
                            } else {
                                raw
                            },
                        },
                        start + len,
                    ),
                )
            }
        },
    }
}

/// Whether a decoder returned what it should.
pub open spec fn decode_agrees(r: Option<(WsFrame, usize)>, m: Option<(WsModel, int)>) -> bool {
    match (r, m) {
        (Some(a), Some(b)) => a.0@ == b.0 && a.1 == b.1,
        (None, None) => true,
        _ => false,
    }
}

/// Bytes combined with a key of four bytes.
fn unmask(data: &[u8], key: &[u8]) -> (r: Vec<u8>)
    requires
        key@.len() == 4,
    ensures
        r@ == masked(data@, key@),
{
    let mut out: Vec<u8> = Vec::new();
    let mut i: usize = 0;
    while i < data.len()
        invariant
            key@.len() == 4,
            i <= data@.len(),
            out@ =~= masked(data@, key@).take(i as int),
        decreases data@.len() - i,
    {
        out.push(data[i] ^ key[i % 4]);
        i = i + 1;
    }
    assert(masked(data@, key@).take(i as int) =~= masked(data@, key@));
    out
}

impl WsFrame {
    pub fn binary(data: Vec<u8>) -> (r: Self)
        ensures
            r@ == binary_frame(data@),
    {
        Self { fin: true, opcode: 0x2, payload: data }
    }

    pub fn pong() -> (r: Self)
        ensures
            r@ == pong_frame(),
    {
        let r = Self { fin: true, opcode: 0xa, payload: Vec::new() };
        assert(r.payload@ =~= Seq::empty());
        r
    }

    pub fn close(code: u16, reason: &str) -> (r: Self)
        ensures
            r@ == close_frame(code, reason@),
    {
        let mut payload: Vec<u8> = Vec::new();
        put_u16(&mut payload, code);
        assert(payload@ =~= be16(code as int));
        put_bytes(&mut payload, reason.as_bytes());
        Self { fin: true, opcode: 0x8, payload }
    }

    /// The bytes of the frame as a server sends it.
    pub fn encode_server(&self) -> (r: Vec<u8>)
        ensures
            r@ == encoded(self@),
    {
        let first: u8 = if self.fin {
            0x80 + self.opcode % 0x80
        } else {
            self.opcode
        };
        let len: usize = self.payload.len();
        let mut buf: Vec<u8> = vec![first];
        assert(buf@ =~= seq![first_byte(self@)]);
        let mut length: Vec<u8> = Vec::new();
        if len < 126 {
            length.push(len as u8);
        } else if len <= 0xffff {
            length.push(126);
            assert(length@ =~= seq![126u8]);
            put_u16(&mut length, len as u16);
        } else {
            length.push(127);
            assert(length@ =~= seq![127u8]);
            put_u64(&mut length, len as u64);
        }
        assert(length@ =~= length_bytes(len as int));
        put_bytes(&mut buf, length.as_slice());
        put_bytes(&mut buf, self.payload.as_slice());
        buf
    }

    /// The frame at the start of a buffer and how many bytes it takes; `None`
    /// while it is not complete.
    pub fn decode(buf: &[u8]) -> (r: Option<(Self, usize)>)
        ensures
            decode_agrees(r, decoded(buf@)),
    {
        let total: usize = buf.len();
        if total < 2 {
            return None;
        }
        let b0: u8 = buf[0];
        let b1: u8 = buf[1];
        let is_masked: bool = b1 >= 0x80;
        let short: u8 = b1 % 0x80;
        let mut len: u64 = short as u64;
        let mut offset: usize = 2;
        if short == 126 {
            if total < 4 {
                return None;
            }
            len = read_u16(buf, 2) as u64;
            offset = 4;
        } else if short == 127 {
            if total < 10 {
                return None;
            }
            len = read_u64(buf, 2);
            offset = 10;
        }
        let start: usize = if is_masked {
            offset + 4
        } else {
            offset
        };
        if total < start || len > (total - start) as u64 {
            return None;
        }
        let end: usize = start + len as usize;
        let raw = slice(buf, start, end);
        let payload: Vec<u8> = if is_masked {
            unmask(raw, slice(buf, offset, offset + 4))
        } else {
            to_vec(raw)
        };
        Some((WsFrame { fin: b0 >= 0x80, opcode: b0 % 0x10, payload }, end))
    }
}

/// A frame that a server sent is decoded as it was, whatever follows it: the
/// decoder takes exactly its bytes.
pub proof fn law_decode_reverses_encode(f: WsModel, rest: Seq<u8>)
    requires
        f.opcode < 0x10,
        f.payload.len() <= u64::MAX,
    ensures
        decoded(encoded(f) + rest) == Some((f, encoded(f).len() as int)),
{
    let buf = encoded(f) + rest;
    let n = f.payload.len() as int;
    let l = length_bytes(n);
    assert(buf[0] == first_byte(f));
    assert(buf[1] == l[0]);
    if n < 126 {
        assert(l.len() == 1);
        assert(buf.subrange(2, 2 + n) =~= f.payload);
    } else if n <= 0xffff {
        lemma_be16(n);
        assert(l.len() == 3);
        assert(buf[2] == be16(n)[0] && buf[3] == be16(n)[1]);
        assert(u16_at(buf, 2) == n);
        assert(buf.subrange(4, 4 + n) =~= f.payload);
    } else {
        lemma_be64(n);
        assert(l.len() == 9);
        assert(buf.subrange(2, 10) =~= be64(n));
        assert(u64_at(buf, 2) == u64_at(buf.subrange(2, 10), 0));
        assert(buf.subrange(10, 10 + n) =~= f.payload);
    }
}

/// While a frame is not complete, nothing is decoded.
pub proof fn law_incomplete_frame_waits(f: WsModel, n: int)
    requires
        f.payload.len() <= u64::MAX,
        0 <= n < encoded(f).len(),
    ensures
        decoded(encoded(f).take(n)) is None,
{
    let full = encoded(f);
    let buf = full.take(n);
    let len = f.payload.len() as int;
    let l = length_bytes(len);
    assert(full.len() == 1 + l.len() + len);
    if n >= 2 {
        assert(buf[1] == l[0]);
        if len >= 126 && len <= 0xffff && n >= 4 {
            lemma_be16(len);
            assert(buf[2] == be16(len)[0] && buf[3] == be16(len)[1]);
        }
        if len > 0xffff && n >= 10 {
            lemma_be64(len);
            assert(buf.subrange(2, 10) =~= be64(len));
            assert(u64_at(buf, 2) == u64_at(buf.subrange(2, 10), 0));
        }
    }
}

/// Masking twice with one key gives the data back.
pub proof fn law_masking_reverses_itself(data: Seq<u8>, key: Seq<u8>)
    requires
        key.len() == 4,
    ensures
        masked(masked(data, key), key) == data,
{
    let twice = masked(masked(data, key), key);
    assert forall|i: int| 0 <= i < data.len() implies twice[i] == data[i] by {
        let d = data[i];
        let k = key[i % 4];
        assert((d ^ k) ^ k == d) by (bit_vector);
    }
    assert(twice =~= data);
}

} // verus!
