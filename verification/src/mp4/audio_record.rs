//! A demuxer finds the AAC configuration that was written.
use vstd::prelude::*;
use crate::bytes::{be16, be32, lemma_be32, u32_at};
use crate::media::CodecId;
use crate::mp4::boxes::{ESDS, MP4A, SOUN, box_bytes, lemma_box_len};
use crate::mp4::entries::{
    aac_config, ber_len, ber_value, child_at, child_box, esds_asc, esds_info, first_child, lemma_first_child,
};
use crate::mp4::fragmented_demuxer::{asc_of, descriptor_len, first_five};
use crate::mp4::muxer::TrackParts;
use crate::mp4::records::{ber_bytes, config_rate, decoder_descriptor, esds_descriptors};
use crate::mp4::roundtrip::{found_config, lemma_box_skip, lemma_digits, written_entry};
use crate::mp4::writer::{asc_or_default, audio_fields, fixed16, sample_entry_bytes, zeros};

verus! {

broadcast use crate::bytes::group_be_len;

/// The body of the `esds` box that is written for a configuration.
pub open spec fn written_esds(asc: Seq<u8>) -> Seq<u8> {
    be32(0) + esds_descriptors(asc)
}

/// Whether a written configuration can be told from the descriptors around
/// it: its length fits in seven bits, the length of the decoder descriptor
/// does not read as a tag, and behind a length of two bytes nothing that reads
/// as a descriptor comes before it.
pub open spec fn asc_findable(asc: Seq<u8>) -> bool {
    &&& 0 < asc.len() < 0x80
    &&& asc.len() != 121
    &&& asc.len() >= 125 ==> esds_asc(written_esds(asc), 4) is None
}

/// The length of a descriptor as it is written.
proof fn lemma_descriptor_len(e: Seq<u8>, at: int, len: int)
    requires
        0 <= at,
        0 <= len < 0x4000,
        at + ber_bytes(len).len() <= e.len(),
        e.subrange(at, at + ber_bytes(len).len()) == ber_bytes(len),
    ensures
        descriptor_len(e, at, 0, 0) == Some((len, at + ber_bytes(len).len())),
{
    let b = ber_bytes(len);
    let part = e.subrange(at, at + b.len());
    assert(part[0] == e[at]);
    if len >= 0x80 {
        assert(part[1] == e[at + 1]);
        assert(descriptor_len(e, at + 1, len / 0x80, 1) == Some((len, at + 2)));
    }
}

proof fn lemma_first_five(e: Seq<u8>, i: int, at: int, end: int)
    requires
        0 <= i <= at < end <= e.len(),
        e[at] == 0x05,
        forall|j: int| i <= j < at ==> e[j] != 0x05,
    ensures
        first_five(e, i, end) == at,
    decreases at - i,
{
    if i < at {
        assert(e[i] != 0x05);
        lemma_first_five(e, i + 1, at, end);
    }
}

/// What stands where in the body of a written `esds` box.
proof fn lemma_esds_bytes(asc: Seq<u8>)
    requires
        0 < asc.len() < 0x80,
    ensures
        ({
            let e = written_esds(asc);
            let n = asc.len() as int;
            let d = ber_bytes(12 + n);
            let o = ber_bytes(20 + d.len() + n);
            let b = 5 + o.len() as int;
            let f = b + 5 + d.len() + 10;
            &&& e.len() == f + 2 + n + 3
            &&& e.len() == b + 20 + d.len() + n
            &&& e[4] == 0x03
            &&& e.subrange(5, b) == o
            &&& e[b] == 0 && e[b + 1] == 1 && e[b + 2] == 0 && e[b + 3] == 0 && e[b + 4] == 0x04
            &&& e.subrange(b + 5, b + 5 + d.len()) == d
            &&& e[f - 10] == 0x40 && e[f - 9] == 0x15 && e[f - 8] == 0 && e[f - 7] == 0
            &&& e[f - 6] == 3 && e[f - 5] == 0 && e[f - 4] == 0 && e[f - 3] == 3 && e[f - 2] == 0
            &&& e[f - 1] == 0 && e[f] == 0x05 && e[f + 1] == n
            &&& e.subrange(f + 2, f + 2 + n) == asc
            &&& e[f + 2 + n] == 0x06
        }),
{
    let e = written_esds(asc);
    let n = asc.len() as int;
    let d = ber_bytes(12 + n);
    let o = ber_bytes(20 + d.len() + n);
    let b = 5 + o.len() as int;
    let f = b + 5 + d.len() + 10;
    assert(decoder_descriptor(asc).len() == 1 + d.len() + 12 + n);
    assert(e.subrange(5, b) =~= o);
    assert(e.subrange(b + 5, b + 5 + d.len()) =~= d);
    assert(e.subrange(f + 2, f + 2 + n) =~= asc);
}

/// The nested descriptor is found.
proof fn lemma_nested(asc: Seq<u8>)
    requires
        0 < asc.len() < 0x80,
        asc.len() != 121,
    ensures
        asc_of(written_esds(asc)) == asc,
{
    let e = written_esds(asc);
    let n = asc.len() as int;
    let d = ber_bytes(12 + n);
    let len = 20 + d.len() + n;
    let o = ber_bytes(len);
    let b = 5 + o.len() as int;
    let f = b + 5 + d.len() + 10;
    lemma_esds_bytes(asc);
    lemma_descriptor_len(e, 5, len);
    let part = e.subrange(b + 5, b + 5 + d.len());
    assert(part[0] == e[b + 5]);
    if d.len() == 2 {
        assert(part[1] == e[b + 6]);
    }
    assert forall|j: int| b <= j < f implies e[j] != 0x05 by {
        if j == b + 5 {
        } else if d.len() == 2 && j == b + 6 {
        } else if j < b + 5 {
            assert(j == b || j == b + 1 || j == b + 2 || j == b + 3 || j == b + 4);
        } else {
            assert(j == f - 10 || j == f - 9 || j == f - 8 || j == f - 7 || j == f - 6 || j == f - 5
                || j == f - 4 || j == f - 3 || j == f - 2 || j == f - 1);
        }
    }
    lemma_first_five(e, b, f, b + len);
    assert(descriptor_len(e, f + 1, 0, 0) == Some((n, f + 2)));
}

/// The scan over the outer descriptors goes on behind a length of one byte.
proof fn lemma_scan_step(e: Seq<u8>, i: int)
    requires
        0 <= i,
        i + 2 < e.len(),
        e[i] == 0x03 || e[i] == 0x04,
        e[i + 1] < 0x80,
    ensures
        i + 2 + e[i + 1] <= e.len() ==> esds_asc(e, i) == esds_asc(e, i + 2 + e[i + 1]),
{
    let tail = e.skip(i + 1);
    assert(tail[0] == e[i + 1]);
    assert(ber_len(tail) == Some((e[i + 1] as int, 1int)));
}

/// The scan reads a length of two bytes by its second byte.
proof fn lemma_scan_long_step(e: Seq<u8>, i: int)
    requires
        0 <= i,
        i + 2 < e.len(),
        e[i] == 0x03,
        e[i + 1] == 0x81,
    ensures
        i + 3 + e[i + 2] <= e.len() ==> esds_asc(e, i) == esds_asc(e, i + 3 + e[i + 2]),
{
    let tail = e.skip(i + 1);
    assert(tail[0] == e[i + 1] && tail[1] == e[i + 2]);
    assert(ber_value(tail, 1) == e[i + 2] as int) by {
        reveal_with_fuel(ber_value, 3);
    }
    assert(ber_len(tail) == Some((e[i + 2] as int, 2int)));
}

/// The scan ends at what is no descriptor.
proof fn lemma_scan_ends(e: Seq<u8>, i: int)
    requires
        0 <= i,
        i + 2 < e.len() ==> e[i] != 0x03 && e[i] != 0x04 && e[i] != 0x05,
    ensures
        esds_asc(e, i) is None,
{
}

/// The scan behind a length of two bytes, when the decoder descriptor has a
/// length of one.
proof fn lemma_shallow_mid(e: Seq<u8>, n: int)
    requires
        107 <= n <= 115,
        e.len() == n + 28,
        e[4] == 0x03 && e[5] == 0x81 && e[6] == n - 107,
        e[7] == 0 && e[8] == 1 && e[9] == 0 && e[10] == 0 && e[11] == 0x04 && e[12] == 12 + n,
        e[13] == 0x40 && e[14] == 0x15 && e[15] == 0,
        e[n + 25] == 0x06,
    ensures
        esds_asc(e, 4) is None,
{
    lemma_scan_long_step(e, 4);
    let i = n - 100;
    assert(esds_asc(e, 4) == esds_asc(e, i));
    if i == 11 {
        lemma_scan_step(e, 11);
        lemma_scan_ends(e, 13 + 12 + n);
    } else {
        assert(i == 7 || i == 8 || i == 9 || i == 10 || i == 12 || i == 13 || i == 14 || i == 15);
        lemma_scan_ends(e, i);
    }
}

/// The scan behind a length of two bytes, when the decoder descriptor has one
/// of two bytes too.
proof fn lemma_shallow_long(e: Seq<u8>, n: int)
    requires
        116 <= n <= 124,
        n != 121,
        e.len() == n + 29,
        e[4] == 0x03 && e[5] == 0x81 && e[6] == n - 106,
        e[16] == 0 && e[17] == 0 && e[18] == 3 && e[19] == 0 && e[20] == 0 && e[21] == 3,
        e[22] == 0 && e[23] == 0 && e[24] == 0x05 && e[25] == n,
    ensures
        esds_asc(e, 4) is None || esds_asc(e, 4) == Some(e.subrange(26, 26 + n)),
{
    lemma_scan_long_step(e, 4);
    let i = n - 99;
    assert(esds_asc(e, 4) == esds_asc(e, i));
    if i == 24 {
        let tail = e.skip(25);
        assert(tail[0] == e[25]);
        assert(ber_len(tail) == Some((n, 1int)));
    } else if i == 18 {
        lemma_scan_step(e, 18);
        lemma_scan_ends(e, 20);
    } else if i == 21 {
        lemma_scan_step(e, 21);
        lemma_scan_ends(e, 23);
    } else {
        assert(i == 17 || i == 19 || i == 20 || i == 23 || i == 25);
        lemma_scan_ends(e, i);
    }
}

/// The scan over the outer descriptors finds nothing else.
proof fn lemma_shallow(asc: Seq<u8>)
    requires
        0 < asc.len() < 125,
        asc.len() != 121,
    ensures
        esds_asc(written_esds(asc), 4) is None || esds_asc(written_esds(asc), 4) == Some(asc),
{
    let e = written_esds(asc);
    let n = asc.len() as int;
    let d = ber_bytes(12 + n);
    let len = 20 + d.len() + n;
    let o = ber_bytes(len);
    let b = 5 + o.len() as int;
    lemma_esds_bytes(asc);
    let outer = e.subrange(5, b);
    assert(outer[0] == e[5]);
    let inner = e.subrange(b + 5, b + 5 + d.len());
    assert(inner[0] == e[b + 5]);
    if len < 0x80 {
        lemma_scan_step(e, 4);
        lemma_scan_ends(e, e.len() as int);
    } else {
        assert(outer[1] == e[6]);
        if n <= 115 {
            lemma_shallow_mid(e, n);
        } else {
            lemma_shallow_long(e, n);
        }
    }
}

/// The configuration is found in the body of a written `esds` box.
proof fn lemma_esds_info(asc: Seq<u8>)
    requires
        asc_findable(asc),
    ensures
        esds_info(written_esds(asc)) == Some(asc),
{
    lemma_nested(asc);
    if asc.len() < 125 {
        lemma_shallow(asc);
    }
}

proof fn lemma_audio_fields(rate: u32)
    ensures
        ({
            let f = audio_fields(2, rate);
            &&& f.len() == 28
            &&& forall|i: int|
                0 <= i < 28 && i != 7 && i != 17 && i != 19 && i != 24 && i != 25 ==> (
                #[trigger] f[i]) == 0
        }),
{
    reveal(be16);
    reveal(audio_fields);
    let f = audio_fields(2, rate);
    let v = fixed16(rate as int);
    let x = rate as int % 0x1_0000;
    assert(v == x * 0x1_0000);
    assert(v % 0x100 == 0 && (v / 0x100) % 0x100 == 0);
    assert(be32(v)[2] == 0 && be32(v)[3] == 0) by {
        reveal(be32);
    }
    assert(zeros(6).len() == 6 && zeros(8).len() == 8);
    assert(f[24] == be32(v)[0] && f[25] == be32(v)[1] && f[26] == be32(v)[2] && f[27] == be32(v)[3]);
    assert forall|i: int|
        0 <= i < 28 && i != 7 && i != 17 && i != 19 && i != 24 && i != 25 implies (
    #[trigger] f[i]) == 0 by {
        if i < 6 {
            assert(f[i] == zeros(6)[i]);
        } else if i < 8 {
            assert(f[i] == be16(1)[i - 6]);
        } else if i < 16 {
            assert(f[i] == zeros(8)[i - 8]);
        } else if i < 18 {
            assert(f[i] == be16(2)[i - 16]);
        } else if i < 20 {
            assert(f[i] == be16(16)[i - 18]);
        } else if i < 22 {
            assert(f[i] == be16(0)[i - 20]);
        } else if i < 24 {
            assert(f[i] == be16(0)[i - 22]);
        }
    }
}

/// The `esds` box of a written sample entry is found.
proof fn lemma_esds_found(rate: u32, e: Seq<u8>)
    requires
        8 + e.len() < 0x1_0000,
    ensures
        child_box(audio_fields(2, rate) + box_bytes(ESDS, e), ESDS) == Some(e),
{
    let f = audio_fields(2, rate);
    let x = box_bytes(ESDS, e);
    let body = f + x;
    let size = 8 + e.len() as int;
    lemma_audio_fields(rate);
    lemma_box_len(ESDS, e);
    assert(x == be32(size) + be32(ESDS as int) + e) by {
        reveal(box_bytes);
    }
    lemma_be32(size);
    lemma_be32(ESDS as int);
    assert(body[28] == be32(size)[0] && body[29] == be32(size)[1] && body[30] == be32(size)[2]
        && body[31] == be32(size)[3]);
    assert(be32(size)[0] == 0 && be32(size)[1] == 0) by {
        reveal(be32);
    }
    assert(body[32] == be32(ESDS as int)[0] && body[33] == be32(ESDS as int)[1] && body[34] == be32(
        ESDS as int,
    )[2] && body[35] == be32(ESDS as int)[3]);
    assert(u32_at(body, 28) == size);
    assert(u32_at(body, 32) == ESDS);
    lemma_digits(body, 32, ESDS);
    assert(child_at(body, ESDS, 28));
    assert forall|q: int| 0 <= q < 28 implies !child_at(body, ESDS, q) by {
        if u32_at(body, q + 4) == ESDS {
            lemma_digits(body, q + 4, ESDS);
            let i = q + 4;
            if i < 28 {
                assert(body[i] == f[i]);
                if i + 1 < 28 {
                    assert(body[i + 1] == f[i + 1]);
                }
                if i + 2 < 28 {
                    assert(body[i + 2] == f[i + 2]);
                }
            }
        }
    }
    assert(first_child(body, ESDS, 28));
    lemma_first_child(body, ESDS, 28);
    assert(body.subrange(36, 28 + size) =~= e);
}

proof fn lemma_aac_config(body: Seq<u8>, e: Seq<u8>, asc: Seq<u8>)
    requires
        child_box(body, ESDS) == Some(e),
        esds_info(e) == Some(asc),
    ensures
        aac_config(body) == asc,
{
}

/// The `esds` box of a findable configuration is short, and gives it back.
proof fn lemma_esds_readable(asc: Seq<u8>)
    requires
        asc_findable(asc),
    ensures
        8 + written_esds(asc).len() < 0x1_0000,
        esds_info(written_esds(asc)) == Some(asc),
{
    lemma_esds_bytes(asc);
    lemma_esds_info(asc);
}

/// A demuxer finds the decoder configuration that was written for an AAC
/// track.
pub proof fn law_audio_record_found(t: TrackParts)
    requires
        t.handler == SOUN,
        t.codec == CodecId::AAC,
        asc_findable(asc_or_default(t.config)),
    ensures
        found_config(t) == asc_or_default(t.config),
{
    let asc = asc_or_default(t.config);
    let e = written_esds(asc);
    let rate = config_rate(t.config);
    let body = audio_fields(2, rate) + box_bytes(ESDS, e);
    lemma_esds_readable(asc);
    lemma_esds_found(rate, e);
    lemma_aac_config(body, e, asc);
    lemma_box_skip(MP4A, body);
    lemma_written_body(t, body);
}

/// What a demuxer reads of the written sample entry of an AAC track.
proof fn lemma_written_body(t: TrackParts, body: Seq<u8>)
    requires
        t.handler == SOUN,
        t.codec == CodecId::AAC,
        sample_entry_bytes(t.codec, t.config, t.width, t.height) == box_bytes(MP4A, body),
        box_bytes(MP4A, body).skip(8) == body,
    ensures
        found_config(t) == aac_config(body),
{
    assert(written_entry(t).body == body);
}

} // verus!
