//! How frames of the WebSocket protocol travel, and what base64 text is.
use vstd::prelude::*;
use crate::bytes::{be16, be64};
use crate::http::ws::{WsModel, base64_char, base64_of, byte_or_zero, decoded, encoded, masked};

verus! {

// ── frames ──────────────────────────────────────────────────────────────

/// The bytes of a length as they stand behind the first byte of a frame, the
/// first of them with the mark of a masked frame added.
pub open spec fn size_bytes(n: int, mark: int) -> Seq<u8> {
    if n <= 125 {
        seq![(mark + n) as u8]
    } else if n <= 65535 {
        seq![(mark + 126) as u8, (n / 256) as u8, (n % 256) as u8]
    } else {
        seq![(mark + 127) as u8] + be64(n)
    }
}

/// A frame of a client: the mark of its end and its kind in the first byte,
/// the length with the mark of a mask, a key of four bytes, and the payload
/// combined with the key byte by byte.
pub proof fn law_client_frame_is_read(
    first: u8,
    payload: Seq<u8>,
    key: Seq<u8>,
    sent: Seq<u8>,
    rest: Seq<u8>,
)
    requires
        key.len() == 4,
        sent.len() == payload.len(),
        payload.len() <= u64::MAX,
        forall|i: int| 0 <= i < sent.len() ==> #[trigger] sent[i] == payload[i] ^ key[i % 4],
    ensures
        ({
            let head = seq![first] + size_bytes(payload.len() as int, 128) + key;
            decoded(head + sent + rest) == Some(
                (
                    WsModel { fin: first >= 128, opcode: (first % 16) as u8, payload },
                    (head.len() + payload.len()) as int,
                ),
            )
        }),
{
    let n = payload.len() as int;
    let size = size_bytes(n, 128);
    let head = seq![first] + size + key;
    let buf = head + sent + rest;
    lemma_size_is_read(first, n, 128, key + sent + rest);
    assert(buf =~= seq![first] + size + (key + sent + rest));
    let offset = 1 + size.len() as int;
    assert(buf[1] == size[0]);
    assert(buf.subrange(offset, offset + 4) =~= key);
    assert(buf.subrange(offset + 4, offset + 4 + n) =~= sent);
    assert(sent =~= masked(payload, key));
    crate::http::ws::law_masking_reverses_itself(payload, key);
}

proof fn lemma_size_is_read(first: u8, n: int, mark: int, rest: Seq<u8>)
    requires
        0 <= n <= u64::MAX,
        mark == 0 || mark == 128,
    ensures
        crate::http::ws::payload_length(seq![first] + size_bytes(n, mark) + rest) == Some(
            (1 + size_bytes(n, mark).len() as int, n),
        ),
        size_bytes(n, mark).len() > 0,
        (size_bytes(n, mark)[0] >= 128) <==> mark == 128,
{
    let buf = seq![first] + size_bytes(n, mark) + rest;
    assert(buf[1] == size_bytes(n, mark)[0]);
    if n <= 125 {
    } else if n <= 65535 {
        assert(buf[2] == (n / 256) as u8);
        assert(buf[3] == (n % 256) as u8);
    } else {
        crate::bytes::lemma_be64(n);
        let front = seq![first, (mark + 127) as u8];
        crate::mp4::fragment_laws::lemma_u64_in(front, n, rest);
        assert(buf =~= front + be64(n) + rest);
    }
}

/// A frame of the server: the same without a mask.
pub proof fn law_server_frame_is_written(f: WsModel)
    requires
        f.opcode < 16,
        f.payload.len() <= u64::MAX,
    ensures
        encoded(f) == seq![
            if f.fin {
                (128 + f.opcode) as u8
            } else {
                f.opcode
            },
        ] + size_bytes(f.payload.len() as int, 0) + f.payload,
{
    let n = f.payload.len() as int;
    if 125 < n && n <= 65535 {
        reveal(be16);
        assert(be16(n) =~= seq![(n / 256) as u8, (n % 256) as u8]);
        assert(seq![126u8] + be16(n) =~= size_bytes(n, 0));
    }
}

// ── base64 ──────────────────────────────────────────────────────────────

/// The characters of base64 text, in the order of what they stand for.
pub open spec fn alphabet() -> Seq<char> {
    "ABCDEFGHIJKLMNOPQRSTUVWXYZabcdefghijklmnopqrstuvwxyz0123456789+/"@
}

/// The characters of base64 text are those of the standard alphabet.
pub proof fn law_base64_alphabet(n: int)
    requires
        0 <= n < 64,
    ensures
        alphabet().len() == 64,
        base64_char(n) == alphabet()[n],
{
    reveal_strlit("ABCDEFGHIJKLMNOPQRSTUVWXYZabcdefghijklmnopqrstuvwxyz0123456789+/");
}

proof fn lemma_six_bits(bits: int)
    requires
        0 <= bits < 16777216,
    ensures
        0 <= bits / 262144 < 64,
        bits == (bits / 262144) * 262144 + ((bits / 4096) % 64) * 4096 + ((bits / 64) % 64) * 64
            + bits % 64,
{
    let a = bits / 64;
    let b = bits / 4096;
    assert(b == a / 64);
    assert(bits / 262144 == b / 64);
}

proof fn lemma_character(data: Seq<u8>, g: int, j: int, bits: int)
    requires
        0 <= g,
        0 <= j < 4,
        3 * g + j <= data.len(),
        3 * g < data.len(),
        bits == byte_or_zero(data, 3 * g) * 65536 + byte_or_zero(data, 3 * g + 1) * 256
            + byte_or_zero(data, 3 * g + 2),
    ensures
        4 * g + j < base64_of(data).len(),
        base64_of(data)[4 * g + j] == base64_char(
            if j == 0 {
                bits / 262144
            } else if j == 1 {
                (bits / 4096) % 64
            } else if j == 2 {
                (bits / 64) % 64
            } else {
                bits % 64
            },
        ),
{
    assert((4 * g + j) / 4 == g && (4 * g + j) % 4 == j);
    assert(4 * g + j < 4 * ((data.len() + 2) / 3));
}

/// Three bytes make four characters, which stand for six bits each, the
/// highest first.
pub proof fn law_base64_keeps_bits(data: Seq<u8>, g: int) -> (s: Seq<int>)
    requires
        0 <= g,
        3 * g + 3 <= data.len(),
    ensures
        s.len() == 4,
        forall|j: int|
            0 <= j < 4 ==> 0 <= #[trigger] s[j] < 64 && base64_of(data)[4 * g + j]
                == alphabet()[s[j]],
        data[3 * g] * 65536 + data[3 * g + 1] * 256 + data[3 * g + 2] == s[0] * 262144 + s[1] * 4096
            + s[2] * 64 + s[3],
{
    let bits = data[3 * g] * 65536 + data[3 * g + 1] * 256 + data[3 * g + 2];
    let s = seq![bits / 262144, (bits / 4096) % 64, (bits / 64) % 64, bits % 64];
    lemma_six_bits(bits);
    assert forall|j: int| 0 <= j < 4 implies 0 <= #[trigger] s[j] < 64 && base64_of(data)[4 * g + j]
        == alphabet()[s[j]] by {
        lemma_character(data, g, j, bits);
        law_base64_alphabet(s[j]);
    }
    s
}

/// One or two bytes that are left make four characters too: two or three that
/// stand for their bits, filled up with zeros, and `=` for the rest.
pub proof fn law_base64_is_padded(data: Seq<u8>, g: int) -> (s: Seq<int>)
    requires
        0 <= g,
        3 * g < data.len() < 3 * g + 3,
    ensures
        s.len() == data.len() - 3 * g + 1,
        forall|j: int|
            0 <= j < s.len() ==> 0 <= #[trigger] s[j] < 64 && base64_of(data)[4 * g + j]
                == alphabet()[s[j]],
        forall|i: int| 4 * g + s.len() <= i < 4 * g + 4 ==> #[trigger] base64_of(data)[i] == '=',
        base64_of(data).len() == 4 * g + 4,
        s.len() == 2 ==> data[3 * g] * 16 == s[0] * 64 + s[1],
        s.len() == 3 ==> (data[3 * g] * 256 + data[3 * g + 1]) * 4 == s[0] * 4096 + s[1] * 64
            + s[2],
{
    let bits = byte_or_zero(data, 3 * g) * 65536 + byte_or_zero(data, 3 * g + 1) * 256
        + byte_or_zero(data, 3 * g + 2);
    let all = seq![bits / 262144, (bits / 4096) % 64, (bits / 64) % 64, bits % 64];
    let s = all.take(data.len() - 3 * g + 1);
    lemma_six_bits(bits);
    assert((data.len() + 2) / 3 == g + 1);
    assert forall|j: int| 0 <= j < s.len() implies 0 <= #[trigger] s[j] < 64 && base64_of(data)[4
        * g + j] == alphabet()[s[j]] by {
        assert(s[j] == all[j]);
        lemma_character(data, g, j, bits);
        law_base64_alphabet(s[j]);
    }
    assert forall|i: int| 4 * g + s.len() <= i < 4 * g + 4 implies #[trigger] base64_of(data)[i]
        == '=' by {
        assert(i / 4 == g && i % 4 == i - 4 * g);
    }
    assert(all[0] == s[0] && all[1] == s[1]);
    if s.len() == 3 {
        assert(all[2] == s[2]);
    }
    s
}

} // verus!
