//! Decoder configuration records as they are written into a file.
use vstd::prelude::*;
use crate::bytes::{be16, put_bytes, put_u16, read_u32, slice, to_vec, u32_at, views};
use crate::media::CodecId;

verus! {

broadcast use crate::bytes::group_be_len;

/// The length-prefixed NAL units from offset `i` on, up to the first that does
/// not fit.
pub open spec fn nalus_from(data: Seq<u8>, i: int) -> Seq<Seq<u8>>
    decreases data.len() - i,
{
    if i < 0 || i + 4 > data.len() || i + 4 + u32_at(data, i) > data.len() {
        Seq::empty()
    } else {
        let end = i + 4 + u32_at(data, i);
        seq![data.subrange(i + 4, end)] + nalus_from(data, end)
    }
}

/// Splits length-prefixed NAL units.
pub fn split_nalus_avcc(data: &[u8]) -> (r: Vec<Vec<u8>>)
    ensures
        views(r@) == nalus_from(data@, 0),
{
    let total: usize = data.len();
    let mut out: Vec<Vec<u8>> = Vec::new();
    let mut i: usize = 0;
    proof {
        assert(views(out@) + nalus_from(data@, 0) =~= nalus_from(data@, 0));
    }
    while i <= total && total - i >= 4
        invariant
            i <= total == data@.len(),
            views(out@) + nalus_from(data@, i as int) == nalus_from(data@, 0),
        ensures
            views(out@) == nalus_from(data@, 0),
        decreases total - i,
    {
        let len: usize = read_u32(data, i) as usize;
        if len > total - i - 4 {
            assert(views(out@) + Seq::<Seq<u8>>::empty() =~= views(out@));
            break;
        }
        let ghost before = views(out@);
        let nal = to_vec(slice(data, i + 4, i + 4 + len));
        out.push(nal);
        proof {
            assert(views(out@) =~= before.push(nal@));
            let rest = nalus_from(data@, i + 4 + len);
            assert(before + (seq![nal@] + rest) =~= before.push(nal@) + rest);
        }
        i = i + 4 + len;
        if total - i < 4 {
            assert(views(out@) + Seq::<Seq<u8>>::empty() =~= views(out@));
        }
    }
    out
}

/// The type of a NAL unit.
pub open spec fn nal_type(nal: Seq<u8>, hevc: bool) -> int {
    if hevc {
        nal[0] as int / 2
    } else {
        nal[0] as int % 0x20
    }
}

/// How many of the first `n` units have type `t`.
pub open spec fn count_units(nals: Seq<Seq<u8>>, hevc: bool, t: int, n: int) -> int
    decreases n,
{
    if n <= 0 {
        0
    } else {
        count_units(nals, hevc, t, n - 1) + if nal_type(nals[n - 1], hevc) == t {
            1int
        } else {
            0int
        }
    }
}

/// Those of the first `n` units that have type `t`, each behind its 16-bit
/// length.
pub open spec fn unit_bytes(nals: Seq<Seq<u8>>, hevc: bool, t: int, n: int) -> Seq<u8>
    decreases n,
{
    if n <= 0 {
        Seq::empty()
    } else if nal_type(nals[n - 1], hevc) == t {
        unit_bytes(nals, hevc, t, n - 1) + be16(nals[n - 1].len() as int % 0x1_0000) + nals[n - 1]
    } else {
        unit_bytes(nals, hevc, t, n - 1)
    }
}

/// Whether every unit has a header.
pub open spec fn units_nonempty(nals: Seq<Seq<u8>>) -> bool {
    forall|i: int| 0 <= i < nals.len() ==> (#[trigger] nals[i]).len() > 0
}

/// The units of type `t`, counted and written one after the other.
fn collect_units(nals: &Vec<Vec<u8>>, hevc: bool, t: u8) -> (r: (usize, Vec<u8>))
    requires
        units_nonempty(views(nals@)),
    ensures
        r.0 == count_units(views(nals@), hevc, t as int, nals@.len() as int),
        r.0 <= nals@.len(),
        r.1@ == unit_bytes(views(nals@), hevc, t as int, nals@.len() as int),
{
    let mut count: usize = 0;
    let mut out: Vec<u8> = Vec::new();
    let mut i: usize = 0;
    while i < nals.len()
        invariant
            units_nonempty(views(nals@)),
            i <= nals@.len(),
            count == count_units(views(nals@), hevc, t as int, i as int),
            count <= i,
            out@ == unit_bytes(views(nals@), hevc, t as int, i as int),
        decreases nals@.len() - i,
    {
        let nal = &nals[i];
        assert(views(nals@)[i as int] == nal@);
        let kind: u8 = if hevc {
            nal[0] / 2
        } else {
            nal[0] % 0x20
        };
        if kind == t {
            count = count + 1;
            put_u16(&mut out, (nal.len() % 0x1_0000) as u16);
            put_bytes(&mut out, nal.as_slice());
        }
        i = i + 1;
    }
    (count, out)
}

/// The first unit of type `t` among those from `i` on.
pub open spec fn first_unit(nals: Seq<Seq<u8>>, hevc: bool, t: int, i: int) -> Option<Seq<u8>>
    decreases nals.len() - i,
{
    if i < 0 || i >= nals.len() {
        None
    } else if nal_type(nals[i], hevc) == t {
        Some(nals[i])
    } else {
        first_unit(nals, hevc, t, i + 1)
    }
}

/// The record written for a stream whose configuration says nothing.
pub open spec fn default_avcc() -> Seq<u8> {
    seq![1, 0x42, 0, 0x1e, 0xff, 0xe1, 0, 25]
}

/// Whether the configuration already is an AVC decoder configuration record.
pub open spec fn is_avcc(data: Seq<u8>) -> bool {
    data.len() >= 7 && data[0] == 1
}

/// The larger of two bytes.
pub open spec fn max_u8(a: u8, b: u8) -> u8 {
    if a >= b {
        a
    } else {
        b
    }
}

/// The AVC decoder configuration record for a configuration: the record
/// itself, or one built from the units behind a 5-byte FLV tag header.
pub open spec fn avcc_record(data: Seq<u8>) -> Seq<u8> {
    if is_avcc(data) {
        data
    } else if data.len() <= 5 {
        default_avcc()
    } else {
        let inner = data.skip(5);
        let nals = nalus_from(inner, 0);
        let n = nals.len() as int;
        seq![1, inner[0], 0, max_u8(inner[1], inner[2]), 0xff] + seq![
            (0xe0 + count_units(nals, false, 7, n) % 0x20) as u8,
        ] + unit_bytes(nals, false, 7, n) + seq![(count_units(nals, false, 8, n) % 0x100) as u8]
            + unit_bytes(nals, false, 8, n)
    }
}

/// Whether a record can be made of the configuration: it is one, or it is too
/// short for anything, or it holds whole units.
pub open spec fn avcc_source_ok(data: Seq<u8>) -> bool {
    is_avcc(data) || data.len() <= 5 || (data.len() >= 8 && units_nonempty(
        nalus_from(data.skip(5), 0),
    ))
}

/// The AVC decoder configuration record for a configuration.
pub fn parse_avcc_config(data: &[u8]) -> (r: Vec<u8>)
    requires
        avcc_source_ok(data@),
    ensures
        r@ == avcc_record(data@),
{
    if data.len() >= 7 && data[0] == 1 {
        return to_vec(data);
    }
    if data.len() <= 5 {
        let fallback: Vec<u8> = vec![1, 0x42, 0, 0x1e, 0xff, 0xe1, 0, 25];
        assert(fallback@ =~= default_avcc());
        return fallback;
    }
    let inner = slice(data, 5, data.len());
    assert(inner@ =~= data@.skip(5));
    let nals = split_nalus_avcc(inner);
    let level: u8 = if inner[1] >= inner[2] {
        inner[1]
    } else {
        inner[2]
    };
    let mut avcc: Vec<u8> = vec![1, inner[0], 0, level, 0xff];
    assert(avcc@ =~= seq![1, inner@[0], 0, max_u8(inner@[1], inner@[2]), 0xff]);
    let (sps_count, sps) = collect_units(&nals, false, 7);
    let (pps_count, pps) = collect_units(&nals, false, 8);
    let sps_header: Vec<u8> = vec![(0xe0 + sps_count % 0x20) as u8];
    assert(sps_header@ =~= seq![
        (0xe0 + count_units(views(nals@), false, 7, nals@.len() as int) % 0x20) as u8,
    ]);
    put_bytes(&mut avcc, sps_header.as_slice());
    put_bytes(&mut avcc, sps.as_slice());
    let pps_header: Vec<u8> = vec![(pps_count % 0x100) as u8];
    assert(pps_header@ =~= seq![
        (count_units(views(nals@), false, 8, nals@.len() as int) % 0x100) as u8,
    ]);
    put_bytes(&mut avcc, pps_header.as_slice());
    put_bytes(&mut avcc, pps.as_slice());
    avcc
}

/// Whether the configuration already is an HEVC decoder configuration record.
pub open spec fn is_hvcc(data: Seq<u8>) -> bool {
    data.len() >= 23 && data[0] == 1
}

/// Profile and level bytes taken from the first video parameter set.
pub open spec fn hvcc_profile(vps: Option<Seq<u8>>) -> Seq<u8> {
    match vps {
        Some(v) => seq![
            (v[2] - v[2] % 4) as u8,
            0,
            ((v[3] / 0x20) * 0x20 + v[4] / 8) as u8,
        ],
        None => seq![0, 0, 0],
    }
}

/// The HEVC decoder configuration record for a configuration: the record
/// itself, or one built from the units behind a 5-byte FLV tag header.
pub open spec fn hvcc_record(data: Seq<u8>) -> Seq<u8> {
    if is_hvcc(data) {
        data
    } else if data.len() <= 5 {
        seq![1]
    } else {
        let nals = nalus_from(data.skip(5), 0);
        let n = nals.len() as int;
        seq![1] + hvcc_profile(first_unit(nals, true, 16, 0)) + seq![
            0xfc,
            0,
            0,
            0,
            (count_units(nals, true, 16, n) % 0x10) as u8,
            (count_units(nals, true, 17, n) % 0x10) as u8,
            (count_units(nals, true, 18, n) % 0x40) as u8,
        ] + unit_bytes(nals, true, 16, n) + unit_bytes(nals, true, 17, n) + unit_bytes(
            nals,
            true,
            18,
            n,
        )
    }
}

/// Whether a record can be made of the configuration: it is one, or it is too
/// short for anything, or it holds whole units with a full parameter set.
pub open spec fn hvcc_source_ok(data: Seq<u8>) -> bool {
    let nals = nalus_from(data.skip(5), 0);
    is_hvcc(data) || data.len() <= 5 || (units_nonempty(nals) && (first_unit(
        nals,
        true,
        16,
        0,
    ) matches Some(vps) ==> vps.len() >= 5))
}

fn find_unit(nals: &Vec<Vec<u8>>, hevc: bool, t: u8) -> (r: Option<usize>)
    requires
        units_nonempty(views(nals@)),
    ensures
        match r {
            Some(i) => i < nals@.len() && first_unit(views(nals@), hevc, t as int, 0) == Some(
                nals@[i as int]@,
            ),
            None => first_unit(views(nals@), hevc, t as int, 0) is None,
        },
{
    let mut i: usize = 0;
    while i < nals.len()
        invariant
            units_nonempty(views(nals@)),
            i <= nals@.len(),
            first_unit(views(nals@), hevc, t as int, i as int) == first_unit(
                views(nals@),
                hevc,
                t as int,
                0,
            ),
        decreases nals@.len() - i,
    {
        let nal = &nals[i];
        assert(views(nals@)[i as int] == nal@);
        let kind: u8 = if hevc {
            nal[0] / 2
        } else {
            nal[0] % 0x20
        };
        if kind == t {
            return Some(i);
        }
        i = i + 1;
    }
    None
}

fn all_nonempty(nals: &Vec<Vec<u8>>) -> (r: bool)
    ensures
        r == units_nonempty(views(nals@)),
{
    let ghost models = views(nals@);
    let mut i: usize = 0;
    while i < nals.len()
        invariant
            i <= nals@.len(),
            models == views(nals@),
            forall|j: int| 0 <= j < i ==> (#[trigger] models[j]).len() > 0,
        decreases nals@.len() - i,
    {
        assert(models[i as int] == nals@[i as int]@);
        if nals[i].len() == 0 {
            return false;
        }
        i = i + 1;
    }
    true
}

/// Whether an AVC record can be made of a configuration.
pub fn check_avcc_source(data: &[u8]) -> (r: bool)
    ensures
        r == avcc_source_ok(data@),
{
    let len: usize = data.len();
    if len <= 5 || (len >= 7 && data[0] == 1) {
        return true;
    }
    if len < 8 {
        return false;
    }
    let rest = slice(data, 5, len);
    assert(rest@ =~= data@.skip(5));
    all_nonempty(&split_nalus_avcc(rest))
}

/// Whether an HEVC record can be made of a configuration.
pub fn check_hvcc_source(data: &[u8]) -> (r: bool)
    ensures
        r == hvcc_source_ok(data@),
{
    let len: usize = data.len();
    if len <= 5 || (len >= 23 && data[0] == 1) {
        return true;
    }
    let rest = slice(data, 5, len);
    assert(rest@ =~= data@.skip(5));
    let nals = split_nalus_avcc(rest);
    if !all_nonempty(&nals) {
        return false;
    }
    match find_unit(&nals, true, 16) {
        Some(i) => nals[i].len() >= 5,
        None => true,
    }
}

/// The HEVC decoder configuration record for a configuration.
pub fn parse_hvcc_config(data: &[u8]) -> (r: Vec<u8>)
    requires
        hvcc_source_ok(data@),
    ensures
        r@ == hvcc_record(data@),
{
    if data.len() >= 23 && data[0] == 1 {
        return to_vec(data);
    }
    let mut hvcc: Vec<u8> = vec![1];
    assert(hvcc@ =~= seq![1u8]);
    if data.len() <= 5 {
        return hvcc;
    }
    let inner = slice(data, 5, data.len());
    assert(inner@ =~= data@.skip(5));
    let nals = split_nalus_avcc(inner);
    let profile: Vec<u8> = match find_unit(&nals, true, 16) {
        Some(i) => {
            let vps = &nals[i];
            let space: u8 = vps[2] - vps[2] % 4;
            let level: u8 = (vps[3] / 0x20) * 0x20 + vps[4] / 8;
            vec![space, 0, level]
        },
        None => vec![0, 0, 0],
    };
    assert(profile@ =~= hvcc_profile(first_unit(views(nals@), true, 16, 0)));
    let (vps_count, vps) = collect_units(&nals, true, 16);
    let (sps_count, sps) = collect_units(&nals, true, 17);
    let (pps_count, pps) = collect_units(&nals, true, 18);
    let counts: Vec<u8> = vec![
        0xfc,
        0,
        0,
        0,
        (vps_count % 0x10) as u8,
        (sps_count % 0x10) as u8,
        (pps_count % 0x40) as u8,
    ];
    let ghost n = nals@.len() as int;
    assert(counts@ =~= seq![
        0xfc,
        0,
        0,
        0,
        (count_units(views(nals@), true, 16, n) % 0x10) as u8,
        (count_units(views(nals@), true, 17, n) % 0x10) as u8,
        (count_units(views(nals@), true, 18, n) % 0x40) as u8,
    ]);
    put_bytes(&mut hvcc, profile.as_slice());
    put_bytes(&mut hvcc, counts.as_slice());
    put_bytes(&mut hvcc, vps.as_slice());
    put_bytes(&mut hvcc, sps.as_slice());
    put_bytes(&mut hvcc, pps.as_slice());
    hvcc
}

/// The sampling frequency for an index of the AAC table.
pub open spec fn aac_rate(index: int) -> u32 {
    if index == 0 {
        96000
    } else if index == 1 {
        88200
    } else if index == 2 {
        64000
    } else if index == 3 {
        48000
    } else if index == 4 {
        44100
    } else if index == 5 {
        32000
    } else if index == 6 {
        24000
    } else if index == 7 {
        22050
    } else if index == 8 {
        16000
    } else if index == 9 {
        12000
    } else if index == 10 {
        11025
    } else if index == 11 {
        8000
    } else if index == 12 {
        7350
    } else {
        44100
    }
}

/// The sampling frequency that an audio specific config announces: its index
/// is the four bits behind the five bits of the object type.
pub open spec fn config_rate(config: Seq<u8>) -> u32 {
    if config.len() >= 2 {
        aac_rate((config[0] as int % 8) * 2 + config[1] as int / 0x80)
    } else {
        44100
    }
}

/// The sampling frequency that an audio specific config announces.
pub fn config_to_sample_rate(config: &[u8]) -> (r: u32)
    ensures
        r == config_rate(config@),
        7350 <= r <= 96000,
{
    if config.len() < 2 {
        return 44100;
    }
    let index: u8 = (config[0] % 8) * 2 + config[1] / 0x80;
    match index {
        0 => 96000,
        1 => 88200,
        2 => 64000,
        3 => 48000,
        4 => 44100,
        5 => 32000,
        6 => 24000,
        7 => 22050,
        8 => 16000,
        9 => 12000,
        10 => 11025,
        11 => 8000,
        12 => 7350,
        _ => 44100,
    }
}

/// Whether a unit is a parameter set from which a picture size is read.
pub open spec fn sized_unit(codec: CodecId, nal: Seq<u8>) -> bool {
    ||| codec == CodecId::H264 && nal.len() >= 5 && nal_type(nal, false) == 7
    ||| codec == CodecId::H265 && nal.len() >= 6 && nal_type(nal, true) == 17
}

/// The picture size read from the first such unit among those from `i` on.
pub open spec fn units_size(codec: CodecId, nals: Seq<Seq<u8>>, i: int) -> Option<(u32, u32)>
    decreases nals.len() - i,
{
    if i < 0 || i >= nals.len() {
        None
    } else if sized_unit(codec, nals[i]) {
        let k: int = if codec == CodecId::H264 {
            3
        } else {
            4
        };
        let nal = nals[i];
        Some(
            (
                (nal[k] * 0x100 + nal[k + 1]) as u32,
                if nal.len() > k + 3 {
                    (nal[k + 2] * 0x100 + nal[k + 3]) as u32
                } else {
                    0
                },
            ),
        )
    } else {
        units_size(codec, nals, i + 1)
    }
}

/// Width, height and frame rate that a configuration gives.
pub open spec fn video_info(codec: CodecId, data: Seq<u8>) -> Option<(u32, u32, u32)> {
    let inner = if data.len() > 5 {
        data.skip(5)
    } else {
        data
    };
    if codec == CodecId::H264 || codec == CodecId::H265 {
        match units_size(codec, nalus_from(inner, 0), 0) {
            Some((w, h)) => Some((w, h, 30)),
            None => None,
        }
    } else {
        None
    }
}

/// Width, height and frame rate that a configuration gives.
pub fn extract_video_info(codec: CodecId, data: &[u8]) -> (r: Option<(u32, u32, u32)>)
    ensures
        r == video_info(codec, data@),
{
    let from: usize = if data.len() > 5 {
        5
    } else {
        0
    };
    let inner = slice(data, from, data.len());
    assert(inner@ =~= if data@.len() > 5 {
        data@.skip(5)
    } else {
        data@
    });
    if codec != CodecId::H264 && codec != CodecId::H265 {
        return None;
    }
    let nals = split_nalus_avcc(inner);
    let mut i: usize = 0;
    while i < nals.len()
        invariant
            codec == CodecId::H264 || codec == CodecId::H265,
            i <= nals@.len(),
            views(nals@) == nalus_from(inner@, 0),
            inner@ == if data@.len() > 5 {
                data@.skip(5)
            } else {
                data@
            },
            units_size(codec, views(nals@), i as int) == units_size(codec, views(nals@), 0),
        decreases nals@.len() - i,
    {
        let nal = &nals[i];
        assert(views(nals@)[i as int] == nal@);
        let sized: bool = if codec == CodecId::H264 {
            nal.len() >= 5 && nal[0] % 0x20 == 7
        } else {
            nal.len() >= 6 && nal[0] / 2 == 17
        };
        if sized {
            let k: usize = if codec == CodecId::H264 {
                3
            } else {
                4
            };
            let width: u32 = nal[k] as u32 * 0x100 + nal[k + 1] as u32;
            let height: u32 = if nal.len() > k + 3 {
                nal[k + 2] as u32 * 0x100 + nal[k + 3] as u32
            } else {
                0
            };
            return Some((width, height, 30));
        }
        i = i + 1;
    }
    None
}

/// A descriptor length in groups of seven bits, of at most three bytes.
pub open spec fn ber_bytes(len: int) -> Seq<u8> {
    if len < 0x80 {
        seq![len as u8]
    } else if len < 0x4000 {
        seq![(0x80 + len / 0x80) as u8, (len % 0x80) as u8]
    } else {
        seq![
            (0x80 + (len / 0x4000) % 0x80) as u8,
            (0x80 + (len / 0x80) % 0x80) as u8,
            (len % 0x80) as u8,
        ]
    }
}

/// Appends a descriptor length.
pub fn put_ber_length(buf: &mut Vec<u8>, len: usize)
    ensures
        final(buf)@ == old(buf)@ + ber_bytes(len as int),
{
    if len < 0x80 {
        buf.push(len as u8);
    } else if len < 0x4000 {
        buf.push((0x80 + len / 0x80) as u8);
        buf.push((len % 0x80) as u8);
    } else {
        buf.push((0x80 + (len / 0x4000) % 0x80) as u8);
        buf.push((0x80 + (len / 0x80) % 0x80) as u8);
        buf.push((len % 0x80) as u8);
    }
    assert(buf@ =~= old(buf)@ + ber_bytes(len as int));
}

/// The decoder descriptor of an AAC stream.
pub open spec fn decoder_descriptor(asc: Seq<u8>) -> Seq<u8> {
    seq![0x04u8] + ber_bytes(12 + asc.len() as int) + seq![
        0x40u8,
        0x15u8,
        0,
        0,
        3,
        0,
        0,
        3,
        0,
        0,
    ] + seq![0x05u8, (asc.len() % 0x100) as u8] + asc
}

/// The elementary stream descriptor of an AAC stream.
pub open spec fn esds_descriptors(asc: Seq<u8>) -> Seq<u8> {
    let decoder = decoder_descriptor(asc);
    seq![0x03u8] + ber_bytes(7 + decoder.len() as int) + seq![0u8, 1, 0, 0] + decoder + seq![
        0x06u8,
        1,
        0x02,
    ]
}

/// The elementary stream descriptor of an AAC stream.
pub fn build_esds_descriptors(audio_specific_config: &[u8]) -> (r: Vec<u8>)
    requires
        audio_specific_config@.len() <= usize::MAX - 64,
    ensures
        r@ == esds_descriptors(audio_specific_config@),
{
    let asc_len: usize = audio_specific_config.len();
    let mut decoder: Vec<u8> = vec![0x04];
    assert(decoder@ =~= seq![0x04u8]);
    put_ber_length(&mut decoder, 12 + asc_len);
    let fields: Vec<u8> = vec![0x40, 0x15, 0, 0, 3, 0, 0, 3, 0, 0];
    assert(fields@ =~= seq![0x40u8, 0x15u8, 0, 0, 3, 0, 0, 3, 0, 0]);
    put_bytes(&mut decoder, fields.as_slice());
    let info: Vec<u8> = vec![0x05, (asc_len % 0x100) as u8];
    assert(info@ =~= seq![0x05u8, (asc_len % 0x100) as u8]);
    put_bytes(&mut decoder, info.as_slice());
    put_bytes(&mut decoder, audio_specific_config);
    assert(decoder@ =~= decoder_descriptor(audio_specific_config@));
    let mut esds: Vec<u8> = vec![0x03];
    assert(esds@ =~= seq![0x03u8]);
    put_ber_length(&mut esds, 7 + decoder.len());
    let stream: Vec<u8> = vec![0, 1, 0, 0];
    assert(stream@ =~= seq![0u8, 1, 0, 0]);
    put_bytes(&mut esds, stream.as_slice());
    put_bytes(&mut esds, decoder.as_slice());
    let sync: Vec<u8> = vec![0x06, 1, 0x02];
    assert(sync@ =~= seq![0x06u8, 1, 0x02]);
    put_bytes(&mut esds, sync.as_slice());
    esds
}

} // verus!
