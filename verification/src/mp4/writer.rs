//! Boxes of a movie header, as they are written.
use vstd::prelude::*;
use crate::bytes::{
    be16, be24, be32, put_bytes, put_u16, put_u32,
};
use crate::media::CodecId;
use crate::mp4::boxes::{
    AVC1, AVCC, DINF, DREF, ESDS, FTYP, HDLR, HEV1, HVCC, MDHD, MP4A, MVHD, SMHD, STCO, STSC, STSD,
    STSZ, STTS, TKHD, URL_, VMHD, box_bytes,
};
use crate::mp4::records::{
    avcc_record, avcc_source_ok, build_esds_descriptors, check_avcc_source, check_hvcc_source,
    config_rate, config_to_sample_rate, esds_descriptors, hvcc_record, hvcc_source_ok, parse_avcc_config, parse_hvcc_config,
};

verus! {

broadcast use crate::bytes::group_be_len;

/// The brands `isom`, `iso2`, `avc1` and `mp41`, and the name of the writer.
pub const ISOM: u32 = 0x6973_6f6d;
pub const ISO2: u32 = 0x6973_6f32;
pub const MP41: u32 = 0x6d70_3431;

/// `n` zero bytes.
pub open spec fn zeros(n: int) -> Seq<u8> {
    Seq::new(n as nat, |i: int| 0u8)
}

/// Appends `n` zero bytes.
pub fn put_zeros(buf: &mut Vec<u8>, n: usize)
    ensures
        final(buf)@ == old(buf)@ + zeros(n as int),
{
    let mut i: usize = 0;
    let ghost before = buf@;
    assert(before + zeros(0) =~= before);
    while i < n
        invariant
            i <= n,
            buf@ == before + zeros(i as int),
        decreases n - i,
    {
        buf.push(0);
        assert(buf@ =~= before + zeros(i + 1));
        i = i + 1;
    }
}

/// A box with the given type and body.
pub fn make_box(kind: u32, data: &[u8]) -> (r: Vec<u8>)
    ensures
        r@ == box_bytes(kind, data@),
{
    let mut buf: Vec<u8> = Vec::new();
    put_box(&mut buf, kind, data);
    assert(buf@ =~= box_bytes(kind, data@));
    buf
}

/// Appends a box. Its size field holds the low 32 bits of its size.
pub fn put_box(buf: &mut Vec<u8>, kind: u32, data: &[u8])
    ensures
        final(buf)@ == old(buf)@ + box_bytes(kind, data@),
{
    let size: u32 = ((data.len() as u64 % 0x1_0000_0000 + 8) % 0x1_0000_0000) as u32;
    proof {
        let n = data@.len() as int;
        assert(size == (8 + n) % 0x1_0000_0000);
        crate::bytes::lemma_be32_mod(8 + n);
    }
    put_u32(buf, size);
    put_u32(buf, kind);
    put_bytes(buf, data);
    reveal(box_bytes);
    assert(buf@ =~= old(buf)@ + box_bytes(kind, data@));
}

/// A box whose body begins with a version and flags.
pub open spec fn full_box_bytes(kind: u32, version: u8, flags: int, data: Seq<u8>) -> Seq<u8> {
    box_bytes(kind, seq![version] + be24(flags) + data)
}

/// Appends a box whose body begins with a version and flags.
pub fn write_full_box(buf: &mut Vec<u8>, kind: u32, version: u8, flags: u32, data: &[u8])
    ensures
        final(buf)@ == old(buf)@ + full_box_bytes(kind, version, flags as int, data@),
{
    let mut body: Vec<u8> = vec![
        version,
        ((flags / 0x1_0000) % 0x100) as u8,
        ((flags / 0x100) % 0x100) as u8,
        (flags % 0x100) as u8,
    ];
    reveal(be24);
    assert(body@ =~= seq![version] + be24(flags as int));
    put_bytes(&mut body, data);
    put_box(buf, kind, body.as_slice());
}

/// The file type box.
#[verifier::opaque]
pub open spec fn ftyp_bytes() -> Seq<u8> {
    box_bytes(
        FTYP,
        Seq::<u8>::empty() + be32(ISOM as int) + be32(0x200) + be32(ISOM as int) + be32(
            ISO2 as int,
        ) + be32(AVC1 as int) + be32(MP41 as int),
    )
}

/// Appends the file type box.
pub fn write_ftyp(buf: &mut Vec<u8>)
    ensures
        final(buf)@ == old(buf)@ + ftyp_bytes(),
{
    let mut d: Vec<u8> = Vec::new();
    put_u32(&mut d, ISOM);
    put_u32(&mut d, 0x200);
    put_u32(&mut d, ISOM);
    put_u32(&mut d, ISO2);
    put_u32(&mut d, AVC1);
    put_u32(&mut d, MP41);
    reveal(ftyp_bytes);
    put_box(buf, FTYP, d.as_slice());
}

/// The identity matrix of movie and track headers.
pub open spec fn matrix_bytes() -> Seq<u8> {
    Seq::<u8>::empty() + be32(0x1_0000) + zeros(12) + be32(0x1_0000) + zeros(12) + be32(0x4000_0000)
}

/// Appends the identity matrix.
pub fn put_matrix(buf: &mut Vec<u8>)
    ensures
        final(buf)@ == old(buf)@ + matrix_bytes(),
{
    let mut d: Vec<u8> = Vec::new();
    put_u32(&mut d, 0x1_0000);
    put_zeros(&mut d, 12);
    put_u32(&mut d, 0x1_0000);
    put_zeros(&mut d, 12);
    put_u32(&mut d, 0x4000_0000);
    put_bytes(buf, d.as_slice());
}

/// The fields of a movie header behind its version and flags.
#[verifier::opaque]
pub open spec fn mvhd_fields(duration_ms: u32, next_track_id: u32) -> Seq<u8> {
    Seq::<u8>::empty() + be32(0) + be32(0) + be32(1000) + be32(duration_ms as int) + be32(0x1_0000)
        + be16(0x0100) + be16(0) + zeros(8) + matrix_bytes() + zeros(24) + be32(
        next_track_id as int,
    )
}

/// The movie header.
pub open spec fn mvhd_bytes(duration_ms: u32, next_track_id: u32) -> Seq<u8> {
    full_box_bytes(MVHD, 0, 0, mvhd_fields(duration_ms, next_track_id))
}

/// The fields of a movie header behind its version and flags.
pub fn put_mvhd_fields(duration_ms: u32, next_track_id: u32) -> (r: Vec<u8>)
    ensures
        r@ == mvhd_fields(duration_ms, next_track_id),
{
    let mut d: Vec<u8> = Vec::new();
    put_u32(&mut d, 0);
    put_u32(&mut d, 0);
    put_u32(&mut d, 1000);
    put_u32(&mut d, duration_ms);
    put_u32(&mut d, 0x1_0000);
    put_u16(&mut d, 0x0100);
    put_u16(&mut d, 0);
    put_zeros(&mut d, 8);
    put_matrix(&mut d);
    put_zeros(&mut d, 24);
    put_u32(&mut d, next_track_id);
    reveal(mvhd_fields);
    d
}

/// Appends the movie header.
pub fn write_mvhd(buf: &mut Vec<u8>, duration_ms: u32, next_track_id: u32)
    ensures
        final(buf)@ == old(buf)@ + mvhd_bytes(duration_ms, next_track_id),
{
    let d = put_mvhd_fields(duration_ms, next_track_id);
    write_full_box(buf, MVHD, 0, 0, d.as_slice());
}

/// A number as 16.16 fixed point, its low 32 bits.
pub open spec fn fixed16(n: int) -> int {
    (n % 0x1_0000) * 0x1_0000
}

/// The fields of a track header behind its version and flags.
#[verifier::opaque]
pub open spec fn tkhd_fields(
    track_id: u32,
    duration: u32,
    volume: u16,
    width: u32,
    height: u32,
) -> Seq<u8> {
    Seq::<u8>::empty() + be32(0) + be32(0) + be32(track_id as int) + be32(0) + be32(
        duration as int,
    ) + zeros(8) + be16(0) + be16(0) + be16(volume as int) + be16(0) + matrix_bytes() + be32(
        fixed16(width as int),
    ) + be32(fixed16(height as int))
}

/// The fields of a track header behind its version and flags.
pub fn put_tkhd_fields(track_id: u32, duration: u32, volume: u16, width: u32, height: u32) -> (r:
    Vec<u8>)
    ensures
        r@ == tkhd_fields(track_id, duration, volume, width, height),
{
    let mut d: Vec<u8> = Vec::new();
    put_u32(&mut d, 0);
    put_u32(&mut d, 0);
    put_u32(&mut d, track_id);
    put_u32(&mut d, 0);
    put_u32(&mut d, duration);
    put_zeros(&mut d, 8);
    put_u16(&mut d, 0);
    put_u16(&mut d, 0);
    put_u16(&mut d, volume);
    put_u16(&mut d, 0);
    put_matrix(&mut d);
    put_u32(&mut d, (width % 0x1_0000) * 0x1_0000);
    put_u32(&mut d, (height % 0x1_0000) * 0x1_0000);
    reveal(tkhd_fields);
    d
}

/// The volume of a track: full for a track without pictures.
pub open spec fn track_volume(width: u32) -> u16 {
    if width == 0 {
        0x0100
    } else {
        0
    }
}

/// The track header.
pub open spec fn tkhd_bytes(track_id: u32, duration: u32, width: u32, height: u32) -> Seq<u8> {
    full_box_bytes(TKHD, 0, 7, tkhd_fields(track_id, duration, track_volume(width), width, height))
}

/// Appends the track header.
pub fn write_tkhd(buf: &mut Vec<u8>, track_id: u32, duration: u32, width: u32, height: u32)
    ensures
        final(buf)@ == old(buf)@ + tkhd_bytes(track_id, duration, width, height),
{
    let volume: u16 = if width == 0 {
        0x0100
    } else {
        0
    };
    let d = put_tkhd_fields(track_id, duration, volume, width, height);
    write_full_box(buf, TKHD, 0, 7, d.as_slice());
}

/// The media header.
pub open spec fn mdhd_bytes(timescale: u32, duration: u32) -> Seq<u8> {
    full_box_bytes(
        MDHD,
        0,
        0,
        Seq::<u8>::empty() + be32(0) + be32(0) + be32(timescale as int) + be32(duration as int)
            + be16(0x55c4) + be16(0),
    )
}

/// Appends the media header.
pub fn write_mdhd(buf: &mut Vec<u8>, timescale: u32, duration: u32)
    ensures
        final(buf)@ == old(buf)@ + mdhd_bytes(timescale, duration),
{
    let mut d: Vec<u8> = Vec::new();
    put_u32(&mut d, 0);
    put_u32(&mut d, 0);
    put_u32(&mut d, timescale);
    put_u32(&mut d, duration);
    put_u16(&mut d, 0x55c4);
    put_u16(&mut d, 0);
    write_full_box(buf, MDHD, 0, 0, d.as_slice());
}

/// `zlmediakit-rs` and a terminating zero.
pub open spec fn writer_name() -> Seq<u8> {
    seq![0x7a, 0x6c, 0x6d, 0x65, 0x64, 0x69, 0x61, 0x6b, 0x69, 0x74, 0x2d, 0x72, 0x73, 0]
}

/// The handler box.
pub open spec fn hdlr_bytes(handler: u32) -> Seq<u8> {
    full_box_bytes(
        HDLR,
        0,
        0,
        Seq::<u8>::empty() + be32(0) + be32(handler as int) + zeros(12) + writer_name(),
    )
}

/// Appends the handler box.
pub fn write_hdlr(buf: &mut Vec<u8>, handler: u32)
    ensures
        final(buf)@ == old(buf)@ + hdlr_bytes(handler),
{
    let mut d: Vec<u8> = Vec::new();
    put_u32(&mut d, 0);
    put_u32(&mut d, handler);
    put_zeros(&mut d, 12);
    let name: Vec<u8> = vec![
        0x7a, 0x6c, 0x6d, 0x65, 0x64, 0x69, 0x61, 0x6b, 0x69, 0x74, 0x2d, 0x72, 0x73, 0,
    ];
    assert(name@ =~= writer_name());
    put_bytes(&mut d, name.as_slice());
    write_full_box(buf, HDLR, 0, 0, d.as_slice());
}

/// The video media header.
pub open spec fn vmhd_bytes() -> Seq<u8> {
    full_box_bytes(VMHD, 0, 1, zeros(8))
}

/// Appends the video media header.
pub fn write_vmhd(buf: &mut Vec<u8>)
    ensures
        final(buf)@ == old(buf)@ + vmhd_bytes(),
{
    let mut d: Vec<u8> = Vec::new();
    put_zeros(&mut d, 8);
    assert(d@ =~= zeros(8));
    write_full_box(buf, VMHD, 0, 1, d.as_slice());
}

/// The sound media header.
pub open spec fn smhd_bytes() -> Seq<u8> {
    full_box_bytes(SMHD, 0, 0, zeros(4))
}

/// Appends the sound media header.
pub fn write_smhd(buf: &mut Vec<u8>)
    ensures
        final(buf)@ == old(buf)@ + smhd_bytes(),
{
    let mut d: Vec<u8> = Vec::new();
    put_zeros(&mut d, 4);
    assert(d@ =~= zeros(4));
    write_full_box(buf, SMHD, 0, 0, d.as_slice());
}

/// The data information box: the data is in this file.
pub open spec fn dinf_bytes() -> Seq<u8> {
    box_bytes(
        DINF,
        full_box_bytes(DREF, 0, 0, be32(1) + full_box_bytes(URL_, 0, 1, Seq::empty())),
    )
}

/// Appends the data information box.
pub fn write_dinf(buf: &mut Vec<u8>)
    ensures
        final(buf)@ == old(buf)@ + dinf_bytes(),
{
    let nothing: Vec<u8> = Vec::new();
    let mut dref_data: Vec<u8> = Vec::new();
    put_u32(&mut dref_data, 1);
    assert(dref_data@ =~= be32(1));
    write_full_box(&mut dref_data, URL_, 0, 1, nothing.as_slice());
    let mut dref: Vec<u8> = Vec::new();
    write_full_box(&mut dref, DREF, 0, 0, dref_data.as_slice());
    assert(dref@ =~= full_box_bytes(
        DREF,
        0,
        0,
        be32(1) + full_box_bytes(URL_, 0, 1, Seq::empty()),
    ));
    put_box(buf, DINF, dref.as_slice());
}

/// The fixed fields of a video sample entry: 78 bytes.
#[verifier::opaque]
pub open spec fn visual_fields(width: u32, height: u32, name: Seq<u8>) -> Seq<u8> {
    Seq::<u8>::empty() + zeros(6) + be16(1) + zeros(16) + be16(width as int % 0x1_0000) + be16(
        height as int % 0x1_0000,
    ) + be32(0x48_0000) + be32(0x48_0000) + be32(0) + be16(1) + name + be16(0x18) + be16(0xffff)
}

/// The fixed fields of a video sample entry.
pub fn put_visual_fields(width: u32, height: u32, name: &[u8]) -> (r: Vec<u8>)
    ensures
        r@ == visual_fields(width, height, name@),
{
    let mut d: Vec<u8> = Vec::new();
    put_zeros(&mut d, 6);
    put_u16(&mut d, 1);
    put_zeros(&mut d, 16);
    put_u16(&mut d, (width % 0x1_0000) as u16);
    put_u16(&mut d, (height % 0x1_0000) as u16);
    put_u32(&mut d, 0x48_0000);
    put_u32(&mut d, 0x48_0000);
    put_u32(&mut d, 0);
    put_u16(&mut d, 1);
    put_bytes(&mut d, name);
    put_u16(&mut d, 0x18);
    put_u16(&mut d, 0xffff);
    reveal(visual_fields);
    d
}

/// The fixed fields of an audio sample entry: 28 bytes.
#[verifier::opaque]
pub open spec fn audio_fields(channels: u32, rate: u32) -> Seq<u8> {
    Seq::<u8>::empty() + zeros(6) + be16(1) + zeros(8) + be16(channels as int % 0x1_0000) + be16(16)
        + be16(0) + be16(0) + be32(fixed16(rate as int))
}

/// The fixed fields of an audio sample entry.
pub fn put_audio_fields(channels: u32, rate: u32) -> (r: Vec<u8>)
    ensures
        r@ == audio_fields(channels, rate),
{
    let mut d: Vec<u8> = Vec::new();
    put_zeros(&mut d, 6);
    put_u16(&mut d, 1);
    put_zeros(&mut d, 8);
    put_u16(&mut d, (channels % 0x1_0000) as u16);
    put_u16(&mut d, 16);
    put_u16(&mut d, 0);
    put_u16(&mut d, 0);
    put_u32(&mut d, (rate % 0x1_0000) * 0x1_0000);
    reveal(audio_fields);
    d
}

/// The audio specific config to write: AAC-LC at 44.1 kHz in stereo when none
/// is known.
pub open spec fn asc_or_default(config: Seq<u8>) -> Seq<u8> {
    if config.len() == 0 {
        seq![0x12, 0x10]
    } else {
        config
    }
}

/// The sample entry of a codec; none for a codec that files do not carry.
pub open spec fn sample_entry_bytes(codec: CodecId, config: Seq<u8>, width: u32, height: u32) -> Seq<
    u8,
> {
    match codec {
        CodecId::H264 => box_bytes(
            AVC1,
            visual_fields(width, height, zeros(32)) + box_bytes(AVCC, avcc_record(config)),
        ),
        CodecId::H265 => box_bytes(
            HEV1,
            visual_fields(width, height, zeros(32)) + box_bytes(HVCC, hvcc_record(config)),
        ),
        CodecId::AAC => box_bytes(
            MP4A,
            audio_fields(2, config_rate(config)) + box_bytes(
                ESDS,
                be32(0) + esds_descriptors(asc_or_default(config)),
            ),
        ),
        _ => Seq::empty(),
    }
}

/// Whether a sample entry can be written for the configuration.
pub open spec fn config_writable(codec: CodecId, config: Seq<u8>) -> bool {
    match codec {
        CodecId::H264 => avcc_source_ok(config),
        CodecId::H265 => hvcc_source_ok(config),
        CodecId::AAC => config.len() <= u32::MAX - 64,
        _ => true,
    }
}

/// The sample description box.
pub open spec fn stsd_bytes(codec: CodecId, config: Seq<u8>, width: u32, height: u32) -> Seq<u8> {
    box_bytes(
        STSD,
        Seq::<u8>::empty() + be32(0) + be32(1) + sample_entry_bytes(codec, config, width, height),
    )
}

/// Whether the sample description of a track can be written.
pub fn check_config(codec: CodecId, config: &[u8]) -> (r: bool)
    ensures
        r == config_writable(codec, config@),
{
    match codec {
        CodecId::H264 => check_avcc_source(config),
        CodecId::H265 => check_hvcc_source(config),
        CodecId::AAC => config.len() as u64 <= (u32::MAX - 64) as u64,
        _ => true,
    }
}

/// Appends the sample description box.
pub fn write_stsd(buf: &mut Vec<u8>, codec: CodecId, config: &[u8], width: u32, height: u32)
    requires
        config_writable(codec, config@),
    ensures
        final(buf)@ == old(buf)@ + stsd_bytes(codec, config@, width, height),
{
    let mut stsd: Vec<u8> = Vec::new();
    put_u32(&mut stsd, 0);
    put_u32(&mut stsd, 1);
    let mut name: Vec<u8> = Vec::new();
    put_zeros(&mut name, 32);
    assert(name@ =~= zeros(32));
    match codec {
        CodecId::H264 => {
            let mut sample = put_visual_fields(width, height, name.as_slice());
            let avcc = parse_avcc_config(config);
            put_box(&mut sample, AVCC, avcc.as_slice());
            put_box(&mut stsd, AVC1, sample.as_slice());
        },
        CodecId::H265 => {
            let mut sample = put_visual_fields(width, height, name.as_slice());
            let hvcc = parse_hvcc_config(config);
            put_box(&mut sample, HVCC, hvcc.as_slice());
            put_box(&mut stsd, HEV1, sample.as_slice());
        },
        CodecId::AAC => {
            let mut sample = put_audio_fields(2, config_to_sample_rate(config));
            let mut esds: Vec<u8> = Vec::new();
            put_u32(&mut esds, 0);
            assert(esds@ =~= be32(0));
            let fallback: Vec<u8> = vec![0x12, 0x10];
            assert(fallback@ =~= seq![0x12u8, 0x10u8]);
            let descriptors = if config.len() == 0 {
                build_esds_descriptors(fallback.as_slice())
            } else {
                build_esds_descriptors(config)
            };
            put_bytes(&mut esds, descriptors.as_slice());
            put_box(&mut sample, ESDS, esds.as_slice());
            put_box(&mut stsd, MP4A, sample.as_slice());
        },
        _ => {
            assert(stsd@ + Seq::<u8>::empty() =~= stsd@);
        },
    }
    put_box(buf, STSD, stsd.as_slice());
}

/// A duration as the time table has it: at least one tick.
pub open spec fn at_least_one(d: u32) -> u32 {
    if d == 0 {
        1
    } else {
        d
    }
}

/// The durations as runs of equal ones: how many, and the duration.
pub open spec fn duration_runs(durations: Seq<u32>) -> Seq<(int, u32)>
    decreases durations.len(),
{
    if durations.len() == 0 {
        Seq::empty()
    } else {
        let runs = duration_runs(durations.drop_last());
        let d = at_least_one(durations.last());
        if runs.len() > 0 && runs.last().1 == d {
            runs.drop_last().push((runs.last().0 + 1, d))
        } else {
            runs.push((1, d))
        }
    }
}

/// The entries of the time table.
pub open spec fn run_bytes(runs: Seq<(int, u32)>) -> Seq<u8>
    decreases runs.len(),
{
    if runs.len() == 0 {
        Seq::empty()
    } else {
        run_bytes(runs.drop_last()) + be32(runs.last().0) + be32(runs.last().1 as int)
    }
}

/// The time table.
pub open spec fn stts_bytes(durations: Seq<u32>) -> Seq<u8> {
    if durations.len() == 0 {
        full_box_bytes(STTS, 0, 0, Seq::<u8>::empty() + be32(0) + be32(0))
    } else {
        let runs = duration_runs(durations);
        box_bytes(STTS, Seq::<u8>::empty() + be32(0) + be32(runs.len() as int) + run_bytes(runs))
    }
}

/// The runs that a list of counts and durations stands for.
pub open spec fn int_runs(v: Seq<(u32, u32)>) -> Seq<(int, u32)> {
    Seq::new(v.len(), |i: int| (v[i].0 as int, v[i].1))
}

/// Every run counts a sample, and together they count all of them.
pub proof fn lemma_runs_bound(durations: Seq<u32>)
    ensures
        duration_runs(durations).len() <= durations.len(),
        forall|i: int|
            0 <= i < duration_runs(durations).len() ==> 1 <= (#[trigger] duration_runs(
                durations,
            )[i]).0 <= durations.len(),
    decreases durations.len(),
{
    if durations.len() > 0 {
        lemma_runs_bound(durations.drop_last());
        let runs = duration_runs(durations.drop_last());
        if runs.len() > 0 {
            assert(1 <= runs[runs.len() - 1].0 <= durations.len() - 1);
        }
        assert forall|i: int| 0 <= i < duration_runs(durations).len() implies 1 <= (
        #[trigger] duration_runs(durations)[i]).0 <= durations.len() by {
            if i < runs.len() {
                assert(1 <= runs[i].0 <= durations.len() - 1);
            }
        }
    }
}

/// Appends the time table.
pub fn write_stts(buf: &mut Vec<u8>, durations: &Vec<u32>)
    requires
        durations@.len() <= u32::MAX,
    ensures
        final(buf)@ == old(buf)@ + stts_bytes(durations@),
{
    let mut data: Vec<u8> = Vec::new();
    put_u32(&mut data, 0);
    if durations.len() == 0 {
        put_u32(&mut data, 0);
        write_full_box(buf, STTS, 0, 0, data.as_slice());
        return;
    }
    let mut entries: Vec<(u32, u32)> = Vec::new();
    let mut i: usize = 0;
    proof {
        assert(durations@.take(0) =~= Seq::empty());
        assert(int_runs(entries@) =~= Seq::empty());
    }
    while i < durations.len()
        invariant
            i <= durations@.len() <= u32::MAX,
            int_runs(entries@) == duration_runs(durations@.take(i as int)),
        decreases durations@.len() - i,
    {
        let d: u32 = if durations[i] == 0 {
            1
        } else {
            durations[i]
        };
        proof {
            let part = durations@.take(i + 1);
            assert(part.drop_last() =~= durations@.take(i as int));
            lemma_runs_bound(durations@.take(i as int));
            if entries@.len() > 0 {
                let runs = int_runs(entries@);
                assert(runs[runs.len() - 1] == (
                    entries@[entries@.len() - 1].0 as int,
                    entries@[entries@.len() - 1].1,
                ));
            }
        }
        let n: usize = entries.len();
        let ghost before = int_runs(entries@);
        if n > 0 && entries[n - 1].1 == d {
            let count: u32 = entries[n - 1].0;
            entries.set(n - 1, (count + 1, d));
            assert(int_runs(entries@) =~= before.drop_last().push((before.last().0 + 1, d)));
        } else {
            entries.push((1, d));
            assert(int_runs(entries@) =~= before.push((1, d)));
        }
        i = i + 1;
    }
    proof {
        assert(durations@.take(i as int) =~= durations@);
        lemma_runs_bound(durations@);
    }
    put_u32(&mut data, entries.len() as u32);
    let ghost head = data@;
    let ghost runs = int_runs(entries@);
    let mut k: usize = 0;
    proof {
        assert(runs.take(0) =~= Seq::empty());
        assert(head + Seq::<u8>::empty() =~= head);
    }
    while k < entries.len()
        invariant
            k <= entries@.len(),
            runs == int_runs(entries@),
            data@ == head + run_bytes(runs.take(k as int)),
        decreases entries@.len() - k,
    {
        put_u32(&mut data, entries[k].0);
        put_u32(&mut data, entries[k].1);
        proof {
            let part = runs.take(k + 1);
            assert(part.drop_last() =~= runs.take(k as int));
            assert(part.last() == (entries@[k as int].0 as int, entries@[k as int].1));
            assert(data@ =~= head + run_bytes(part));
        }
        k = k + 1;
    }
    assert(runs.take(k as int) =~= runs);
    put_box(buf, STTS, data.as_slice());
}

/// The chunk table: one chunk with all samples.
pub open spec fn stsc_bytes(sample_count: int) -> Seq<u8> {
    box_bytes(
        STSC,
        if sample_count == 0 {
            Seq::<u8>::empty() + be32(0) + be32(0)
        } else {
            Seq::<u8>::empty() + be32(0) + be32(1) + be32(1) + be32(sample_count) + be32(1)
        },
    )
}

/// Appends the chunk table.
pub fn write_stsc(buf: &mut Vec<u8>, sample_count: u32)
    ensures
        final(buf)@ == old(buf)@ + stsc_bytes(sample_count as int),
{
    let mut data: Vec<u8> = Vec::new();
    put_u32(&mut data, 0);
    if sample_count == 0 {
        put_u32(&mut data, 0);
    } else {
        put_u32(&mut data, 1);
        put_u32(&mut data, 1);
        put_u32(&mut data, sample_count);
        put_u32(&mut data, 1);
    }
    put_box(buf, STSC, data.as_slice());
}

/// The size that all samples share; 0 when they do not.
pub open spec fn common_size(sizes: Seq<u32>) -> u32 {
    if sizes.len() > 0 && forall|i: int| 0 <= i < sizes.len() ==> #[trigger] sizes[i] == sizes[0] {
        sizes[0]
    } else {
        0
    }
}

/// The first `n` numbers of a table.
pub open spec fn u32s_bytes(table: Seq<u32>, n: int) -> Seq<u8>
    decreases n,
{
    if n <= 0 {
        Seq::empty()
    } else {
        u32s_bytes(table, n - 1) + be32(table[n - 1] as int)
    }
}

/// The size table: one size where all are equal, else one for each sample.
pub open spec fn stsz_bytes(sizes: Seq<u32>) -> Seq<u8> {
    box_bytes(
        STSZ,
        Seq::<u8>::empty() + be32(0) + be32(common_size(sizes) as int) + be32(sizes.len() as int)
            + if common_size(sizes) == 0 {
            u32s_bytes(sizes, sizes.len() as int)
        } else {
            Seq::empty()
        },
    )
}

/// The size that all samples share; 0 when they do not.
fn find_common_size(sizes: &Vec<u32>) -> (r: u32)
    ensures
        r == common_size(sizes@),
{
    if sizes.len() == 0 {
        return 0;
    }
    let first: u32 = sizes[0];
    let mut i: usize = 0;
    while i < sizes.len()
        invariant
            i <= sizes@.len(),
            sizes@.len() > 0,
            first == sizes@[0],
            forall|j: int| 0 <= j < i ==> #[trigger] sizes@[j] == first,
        decreases sizes@.len() - i,
    {
        if sizes[i] != first {
            return 0;
        }
        i = i + 1;
    }
    first
}

/// Appends the size table.
pub fn write_stsz(buf: &mut Vec<u8>, sizes: &Vec<u32>)
    requires
        sizes@.len() <= u32::MAX,
    ensures
        final(buf)@ == old(buf)@ + stsz_bytes(sizes@),
{
    let same: u32 = find_common_size(sizes);
    let mut data: Vec<u8> = Vec::new();
    put_u32(&mut data, 0);
    put_u32(&mut data, same);
    put_u32(&mut data, sizes.len() as u32);
    let ghost head = data@;
    assert(head + Seq::<u8>::empty() =~= head);
    if same == 0 {
        let mut k: usize = 0;
        while k < sizes.len()
            invariant
                k <= sizes@.len(),
                data@ == head + u32s_bytes(sizes@, k as int),
            decreases sizes@.len() - k,
        {
            put_u32(&mut data, sizes[k]);
            assert(data@ =~= head + u32s_bytes(sizes@, k + 1));
            k = k + 1;
        }
    }
    put_box(buf, STSZ, data.as_slice());
}

/// The offset table of one chunk.
pub open spec fn stco_bytes(chunk_offset: u32) -> Seq<u8> {
    box_bytes(STCO, Seq::<u8>::empty() + be32(0) + be32(1) + be32(chunk_offset as int))
}

/// Appends the offset table of one chunk.
pub fn write_stco(buf: &mut Vec<u8>, chunk_offset: u32)
    ensures
        final(buf)@ == old(buf)@ + stco_bytes(chunk_offset),
{
    let mut data: Vec<u8> = Vec::new();
    put_u32(&mut data, 0);
    put_u32(&mut data, 1);
    put_u32(&mut data, chunk_offset);
    put_box(buf, STCO, data.as_slice());
}

} // verus!
