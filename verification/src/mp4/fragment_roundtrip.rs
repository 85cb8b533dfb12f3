//! Segments that the muxer wrote give their tracks and samples back.
use vstd::prelude::*;
use crate::bytes::{be16, be32, be64, lemma_be32, lemma_be64, u16_at, u32_at, u64_at};
use crate::media::{CodecId, FrameModel, FrameType, PayloadFormat};
use crate::mp4::boxes::{
    BoxModel, AVC1, AVCC, DINF, DREF, ESDS, FTYP, HDLR, HVC1, HVCC, MDAT, MDHD, MDIA, MFHD, MINF,
    MOOF, MOOV, MP4A, MVHD, SMHD, STBL, STCO, STSC, STSD, STSZ, STTS, STYP, TFDT, TFHD, TKHD, TRAF,
    TRAK, TRUN, URL_, VMHD, box_bytes, lemma_box_len,
};
use crate::mp4::fmp4::{
    Fmp4Model, FragmentSample, InitTrack, cmaf_esds, cmaf_ftyp_bytes, handler_of, init_audio,
    init_bytes, init_mdia, init_minf, init_moov, init_stbl, init_stsd, init_trak, init_video,
    is_picture, media_bytes, mfhd_body, moof_body, moof_size, sample_flag_word, sample_record,
    fmp4_pushed, sample_records, samples_payload, styp_bytes, tfdt_body, tfhd_body, traf_body,
    trun_body,
};
use crate::mp4::fragmented_demuxer::{
    BoxView, FragmentDefaults, FragmentError, FragmentTrackModel, RunModel, asc_of, bit_set,
    child_span, clamp64, descendant_span, descriptor_len, field32, first_five, first_span,
    fragment_frame, init_entry, init_media, init_segment_tracks, init_track, init_tracks,
    moof_frames, record_len, run_frames, run_header, runs_frames, segment_frames, span_body, spans,
    tfhd_defaults, tkhd_height, tkhd_width, track_index, traf_frames, versioned_offset,
};
use crate::mp4::roundtrip::{concat_boxes, full_body};
use crate::mp4::writer::{audio_fields, fixed16, mvhd_fields, tkhd_fields, visual_fields, zeros};

verus! {

broadcast use crate::bytes::group_be_len;

// ── boxes and their places ──────────────────────────────────────────────

/// Where box `i` begins when the boxes stand one after the other from `start`
/// on.
pub open spec fn box_at(b: Seq<BoxModel>, start: int, i: int) -> int {
    start + concat_boxes(b, i).len()
}

/// The place of box `i`.
pub open spec fn view_at(b: Seq<BoxModel>, start: int, i: int) -> BoxView {
    let at = box_at(b, start, i);
    BoxView {
        kind: b[i].kind,
        start: at as usize,
        data_start: (at + 8) as usize,
        end: (at + 8 + b[i].body.len()) as usize,
    }
}

/// The places of all boxes.
pub open spec fn views_at(b: Seq<BoxModel>, start: int) -> Seq<BoxView> {
    Seq::new(b.len(), |i: int| view_at(b, start, i))
}

/// Whether the boxes fill the data from `start` to `end`.
pub open spec fn holds_boxes(data: Seq<u8>, start: int, end: int, b: Seq<BoxModel>) -> bool {
    &&& 0 <= start <= end <= data.len() <= u32::MAX
    &&& data.subrange(start, end) == concat_boxes(b, b.len() as int)
}

/// The first boxes are a prefix of all of them.
proof fn lemma_concat_prefix(b: Seq<BoxModel>, i: int, n: int)
    requires
        0 <= i <= n <= b.len(),
    ensures
        concat_boxes(b, i).len() <= concat_boxes(b, n).len(),
        concat_boxes(b, i) == concat_boxes(b, n).take(concat_boxes(b, i).len() as int),
    decreases n - i,
{
    let part = concat_boxes(b, i);
    if i < n {
        lemma_concat_prefix(b, i, n - 1);
        assert(part =~= concat_boxes(b, n).take(part.len() as int));
    } else {
        assert(part =~= part.take(part.len() as int));
    }
}

/// A box that stands in the data is found there, with its body.
proof fn lemma_box_in_place(data: Seq<u8>, start: int, end: int, b: Seq<BoxModel>, i: int)
    requires
        holds_boxes(data, start, end, b),
        0 <= i < b.len(),
    ensures
        ({
            let at = box_at(b, start, i);
            &&& start <= at
            &&& at + 8 + b[i].body.len() == box_at(b, start, i + 1) <= end
            &&& data.subrange(at, at + 8 + b[i].body.len()) == box_bytes(b[i].kind, b[i].body)
            &&& u32_at(data, at) == 8 + b[i].body.len()
            &&& u32_at(data, at + 4) == b[i].kind
            &&& span_body(data, view_at(b, start, i)) == b[i].body
        }),
{
    let all = concat_boxes(b, b.len() as int);
    let bytes = box_bytes(b[i].kind, b[i].body);
    let at = box_at(b, start, i);
    let size = 8 + b[i].body.len() as int;
    lemma_box_len(b[i].kind, b[i].body);
    lemma_concat_prefix(b, i, b.len() as int);
    lemma_concat_prefix(b, i + 1, b.len() as int);
    let before = concat_boxes(b, i);
    let upto = concat_boxes(b, i + 1);
    assert(upto == before + bytes);
    assert(all.subrange(before.len() as int, before.len() + size) =~= bytes) by {
        assert(all.take(upto.len() as int) == upto);
        assert(all.subrange(before.len() as int, before.len() + size) =~= upto.subrange(
            before.len() as int,
            before.len() + size,
        ));
    }
    assert(data.subrange(at, at + size) =~= all.subrange(
        before.len() as int,
        before.len() + size,
    ));
    let s = data.subrange(at, at + size);
    lemma_box_words(b[i].kind, b[i].body);
    assert(u32_at(data, at) == u32_at(s, 0));
    assert(u32_at(data, at + 4) == u32_at(s, 4));
    assert(data.subrange(at + 8, at + size) =~= s.skip(8));
}

/// The words and the body of a written box.
proof fn lemma_box_words(kind: u32, body: Seq<u8>)
    requires
        8 + body.len() <= u32::MAX,
    ensures
        u32_at(box_bytes(kind, body), 0) == 8 + body.len(),
        u32_at(box_bytes(kind, body), 4) == kind,
        box_bytes(kind, body).skip(8) == body,
{
    reveal(box_bytes);
    let size = 8 + body.len() as int;
    lemma_be32(size);
    lemma_be32(kind as int);
    let s = box_bytes(kind, body);
    let w = be32(size);
    let k = be32(kind as int);
    assert(s[0] == w[0] && s[1] == w[1] && s[2] == w[2] && s[3] == w[3]);
    assert(s[4] == k[0] && s[5] == k[1] && s[6] == k[2] && s[7] == k[3]);
    assert(s.skip(8) =~= body);
}

/// Walking over boxes that stand in the data finds them, from box `i` on.
proof fn lemma_spans_from(data: Seq<u8>, start: int, end: int, b: Seq<BoxModel>, i: int)
    requires
        holds_boxes(data, start, end, b),
        0 <= i <= b.len(),
    ensures
        spans(data, box_at(b, start, i), end) == Ok::<Seq<BoxView>, FragmentError>(
            views_at(b, start).skip(i),
        ),
    decreases b.len() - i,
{
    let list = views_at(b, start);
    if i == b.len() {
        assert(concat_boxes(b, i).len() == end - start);
        assert(list.skip(i) =~= Seq::empty());
    } else {
        lemma_box_in_place(data, start, end, b, i);
        lemma_spans_from(data, start, end, b, i + 1);
        assert(seq![view_at(b, start, i)] + list.skip(i + 1) =~= list.skip(i));
    }
}

/// Walking over boxes that stand in the data finds all of them.
proof fn lemma_spans(data: Seq<u8>, start: int, end: int, b: Seq<BoxModel>)
    requires
        holds_boxes(data, start, end, b),
    ensures
        spans(data, start, end) == Ok::<Seq<BoxView>, FragmentError>(views_at(b, start)),
{
    lemma_spans_from(data, start, end, b, 0);
    assert(views_at(b, start).skip(0) =~= views_at(b, start));
}

/// The first box of a type.
proof fn lemma_first_span(list: Seq<BoxView>, kind: u32, i: int)
    requires
        0 <= i < list.len(),
        list[i].kind == kind,
        forall|j: int| 0 <= j < i ==> (#[trigger] list[j]).kind != kind,
    ensures
        first_span(list, kind) == Some(list[i]),
    decreases i,
{
    if i > 0 {
        assert(list[0].kind != kind);
        let rest = list.skip(1);
        assert forall|j: int| 0 <= j < i - 1 implies (#[trigger] rest[j]).kind != kind by {
            assert(list[j + 1].kind != kind);
        }
        lemma_first_span(rest, kind, i - 1);
    }
}

/// The first child of a type, and its body.
proof fn lemma_child(data: Seq<u8>, parent: BoxView, b: Seq<BoxModel>, i: int)
    requires
        holds_boxes(data, parent.data_start as int, parent.end as int, b),
        0 <= i < b.len(),
        forall|j: int| 0 <= j < i ==> (#[trigger] b[j]).kind != b[i].kind,
    ensures
        child_span(data, parent, b[i].kind) == Ok::<Option<BoxView>, FragmentError>(
            Some(view_at(b, parent.data_start as int, i)),
        ),
        span_body(data, view_at(b, parent.data_start as int, i)) == b[i].body,
{
    let start = parent.data_start as int;
    let end = parent.end as int;
    let list = views_at(b, start);
    lemma_spans(data, start, end, b);
    lemma_box_in_place(data, start, end, b, i);
    assert forall|j: int| 0 <= j < i implies (#[trigger] list[j]).kind != b[i].kind by {
        assert(b[j].kind != b[i].kind);
    }
    lemma_first_span(list, b[i].kind, i);
}

/// The children of a box that is found stand in its body.
proof fn lemma_descend(
    data: Seq<u8>,
    start: int,
    end: int,
    b: Seq<BoxModel>,
    i: int,
    inner: Seq<BoxModel>,
)
    requires
        holds_boxes(data, start, end, b),
        0 <= i < b.len(),
        b[i].body == concat_boxes(inner, inner.len() as int),
    ensures
        holds_boxes(
            data,
            view_at(b, start, i).data_start as int,
            view_at(b, start, i).end as int,
            inner,
        ),
{
    lemma_box_in_place(data, start, end, b, i);
}

// ── the audio specific config ───────────────────────────────────────────

proof fn lemma_first_five(data: Seq<u8>, i: int, k: int, end: int)
    requires
        i <= k < end,
        data[k] == 0x05,
        forall|j: int| i <= j < k ==> data[j] != 0x05,
    ensures
        first_five(data, i, end) == k,
    decreases k - i,
{
    if i < k {
        assert(data[i] != 0x05);
        lemma_first_five(data, i + 1, k, end);
    }
}

/// An audio specific config of two to five bytes is found in the box that was
/// written for it.
pub proof fn law_asc_found(asc: Seq<u8>)
    requires
        2 <= asc.len() <= 5,
    ensures
        asc_of(cmaf_esds(asc)) == asc,
{
    let e = cmaf_esds(asc);
    let n = asc.len() as int;
    assert(e.len() == 29 + n);
    assert(be32(0x1_f400) =~= seq![0u8, 1, 0xf4, 0]) by {
        reveal(be32);
    }
    assert(e[4] == 0x03 && e[5] == 0x19);
    assert(e[6] == 0 && e[7] == 1 && e[8] == 0 && e[9] == 4 && e[10] == 0x11 && e[11] == 0x40
        && e[12] == 0x15 && e[13] == 0 && e[14] == 0 && e[15] == 0);
    assert(e[16] == 0 && e[17] == 1 && e[18] == 0xf4 && e[19] == 0);
    assert(e[20] == 0 && e[21] == 1 && e[22] == 0xf4 && e[23] == 0);
    assert(e[24] == 0x05 && e[25] == n);
    assert(descriptor_len(e, 5, 0, 0) == Some((0x19int, 6int)));
    assert forall|j: int| 6 <= j < 24 implies e[j] != 0x05 by {}
    lemma_first_five(e, 6, 24, 31);
    assert(descriptor_len(e, 25, 0, 0) == Some((n, 26int)));
    assert(e.subrange(26, 26 + n) =~= asc);
}

// ── tracks of the initialization segment ────────────────────────────────

/// Whether segments carry the codec of a track and its configuration can be
/// found again.
pub open spec fn track_carried(t: InitTrack) -> bool {
    if t.codec == CodecId::AAC {
        2 <= t.config.len() <= 5
    } else {
        is_picture(t.codec)
    }
}

/// The track that a demuxer finds for a written one.
pub open spec fn found_init_track(t: InitTrack) -> FragmentTrackModel {
    FragmentTrackModel {
        id: t.track_id,
        codec: t.codec,
        timescale: if t.timescale == 0 {
            1
        } else {
            t.timescale
        },
        width: (t.width % 0x1_0000) as u32,
        height: (t.height % 0x1_0000) as u32,
        channels: if t.codec == CodecId::AAC {
            (t.channels % 0x1_0000) as u32
        } else {
            0
        },
        config: t.config,
    }
}

/// The type of the sample entry of a track.
pub open spec fn entry_kind(t: InitTrack) -> u32 {
    match t.codec {
        CodecId::H264 => AVC1,
        CodecId::H265 => HVC1,
        _ => MP4A,
    }
}

/// The fixed fields of the sample entry of a track.
pub open spec fn entry_fields(t: InitTrack) -> Seq<u8> {
    match t.codec {
        CodecId::H264 => visual_fields(t.width, t.height, crate::mp4::fmp4::avc_name()),
        CodecId::H265 => visual_fields(t.width, t.height, crate::mp4::fmp4::hevc_name()),
        _ => audio_fields(t.channels, t.timescale),
    }
}

/// The configuration box of a track.
pub open spec fn config_box(t: InitTrack) -> BoxModel {
    match t.codec {
        CodecId::H264 => BoxModel { kind: AVCC, body: t.config },
        CodecId::H265 => BoxModel { kind: HVCC, body: t.config },
        _ => BoxModel { kind: ESDS, body: cmaf_esds(t.config) },
    }
}

proof fn lemma_entry_fields(t: InitTrack)
    requires
        track_carried(t),
    ensures
        t.codec == CodecId::AAC ==> entry_fields(t).len() == 28 && u16_at(entry_fields(t), 16)
            == t.channels % 0x1_0000,
        t.codec != CodecId::AAC ==> entry_fields(t).len() == 78,
{
    reveal(visual_fields);
    reveal(audio_fields);
    if t.codec == CodecId::AAC {
        let f = entry_fields(t);
        let c = be16(t.channels as int % 0x1_0000);
        crate::bytes::lemma_be16(t.channels as int % 0x1_0000);
        assert(f[16] == c[0] && f[17] == c[1]);
    }
}

/// What a sample description says, wherever it stands.
proof fn lemma_init_entry(data: Seq<u8>, stsd: BoxView, t: InitTrack)
    requires
        track_carried(t),
        data.len() <= u32::MAX,
        stsd.data_start <= stsd.end <= data.len(),
        span_body(data, stsd) == init_stsd(t),
    ensures
        init_entry(data, stsd) == Ok::<(CodecId, u32, Seq<u8>), FragmentError>(
            (t.codec, found_init_track(t).channels, found_init_track(t).config),
        ),
{
    let body = span_body(data, stsd);
    let fields = entry_fields(t);
    let cb = config_box(t);
    let inner = box_bytes(cb.kind, cb.body);
    let entry = fields + inner;
    let e = box_bytes(entry_kind(t), entry);
    lemma_entry_fields(t);
    lemma_box_len(cb.kind, cb.body);
    lemma_box_len(entry_kind(t), entry);
    assert(body =~= be32(0) + be32(1) + e);
    let size = 8 + entry.len() as int;
    assert(e == be32(size) + be32(entry_kind(t) as int) + entry) by {
        reveal(box_bytes);
    }
    lemma_be32(size);
    lemma_be32(entry_kind(t) as int);
    let w = be32(size);
    let k = be32(entry_kind(t) as int);
    assert(body[8] == w[0] && body[9] == w[1] && body[10] == w[2] && body[11] == w[3]);
    assert(body[12] == k[0] && body[13] == k[1] && body[14] == k[2] && body[15] == k[3]);
    assert(u32_at(body, 8) == size);
    assert(u32_at(body, 12) == entry_kind(t));
    let from = stsd.data_start + 16 + fields.len();
    let to = stsd.data_start + 8 + size;
    assert(to == stsd.end);
    assert(data.subrange(from, to) =~= inner) by {
        assert(body.subrange(16 + fields.len() as int, 8 + size) =~= inner);
        assert(data.subrange(from, to) =~= body.subrange(16 + fields.len() as int, 8 + size));
    }
    let b = seq![cb];
    assert(concat_boxes(b, 1) =~= inner) by {
        reveal_with_fuel(concat_boxes, 2);
    }
    lemma_spans(data, from, to, b);
    lemma_box_in_place(data, from, to, b, 0);
    let list = views_at(b, from);
    lemma_first_span(list, cb.kind, 0);
    if t.codec == CodecId::AAC {
        assert(body[32] == fields[16] && body[33] == fields[17]);
        law_asc_found(t.config);
    }
}

/// The boxes of a written sample table box.
pub open spec fn stbl_boxes(t: InitTrack) -> Seq<BoxModel> {
    seq![
        BoxModel { kind: STSD, body: init_stsd(t) },
        BoxModel { kind: STTS, body: be32(0) },
        BoxModel { kind: STSC, body: be32(0) },
        BoxModel { kind: STSZ, body: zeros(8) },
        BoxModel { kind: STCO, body: be32(0) },
    ]
}

/// The boxes of a written media information box.
pub open spec fn init_minf_boxes(t: InitTrack) -> Seq<BoxModel> {
    seq![
        BoxModel {
            kind: if is_picture(t.codec) {
                VMHD
            } else {
                SMHD
            },
            body: if is_picture(t.codec) {
                full_body(0, 1, zeros(8))
            } else {
                full_body(0, 0, zeros(4))
            },
        },
        BoxModel {
            kind: DINF,
            body: box_bytes(
                DREF,
                Seq::<u8>::empty() + be32(0) + be32(1) + box_bytes(URL_, be32(0)),
            ),
        },
        BoxModel { kind: STBL, body: init_stbl(t) },
    ]
}

/// The body of a written media header.
pub open spec fn init_mdhd_body(t: InitTrack) -> Seq<u8> {
    full_body(
        0,
        0,
        Seq::<u8>::empty() + be32(0) + be32(0) + be32(t.timescale as int) + be32(0) + be16(0x55c4)
            + be16(0),
    )
}

/// The boxes of a written media box.
pub open spec fn init_mdia_boxes(t: InitTrack) -> Seq<BoxModel> {
    seq![
        BoxModel { kind: MDHD, body: init_mdhd_body(t) },
        BoxModel {
            kind: HDLR,
            body: full_body(
                0,
                0,
                Seq::<u8>::empty() + be32(0) + be32(handler_of(t.codec) as int) + zeros(12)
                    + crate::mp4::writer::writer_name(),
            ),
        },
        BoxModel { kind: MINF, body: init_minf(t) },
    ]
}

/// The body of a written track header.
pub open spec fn init_tkhd_body(t: InitTrack) -> Seq<u8> {
    full_body(0, 7, tkhd_fields(t.track_id, 0, 0x0100, t.width, t.height))
}

/// The boxes of a written track box.
pub open spec fn init_trak_boxes(t: InitTrack) -> Seq<BoxModel> {
    seq![
        BoxModel { kind: TKHD, body: init_tkhd_body(t) },
        BoxModel { kind: MDIA, body: init_mdia(t) },
    ]
}

proof fn lemma_init_bodies(t: InitTrack)
    ensures
        init_stbl(t) == concat_boxes(stbl_boxes(t), 5),
        init_minf(t) == concat_boxes(init_minf_boxes(t), 3),
        init_mdia(t) == concat_boxes(init_mdia_boxes(t), 3),
        init_trak(t) == concat_boxes(init_trak_boxes(t), 2),
{
    assert(init_stbl(t) == concat_boxes(stbl_boxes(t), 5)) by {
        reveal(init_stbl);
        reveal_with_fuel(concat_boxes, 6);
    }
    assert(init_minf(t) == concat_boxes(init_minf_boxes(t), 3)) by {
        reveal(init_minf);
        reveal_with_fuel(concat_boxes, 4);
    }
    assert(init_mdia(t) == concat_boxes(init_mdia_boxes(t), 3)) by {
        reveal(init_mdia);
        reveal_with_fuel(concat_boxes, 4);
    }
    assert(init_trak(t) == concat_boxes(init_trak_boxes(t), 2)) by {
        reveal(init_trak);
        reveal_with_fuel(concat_boxes, 3);
    }
}

proof fn lemma_init_mdhd(t: InitTrack)
    ensures
        field32(init_mdhd_body(t), versioned_offset(init_mdhd_body(t))) == Ok::<
            int,
            FragmentError,
        >(t.timescale as int),
{
    let body = init_mdhd_body(t);
    let s = be32(t.timescale as int);
    lemma_be32(t.timescale as int);
    assert(body[0] == 0);
    assert(body[12] == s[0] && body[13] == s[1] && body[14] == s[2] && body[15] == s[3]);
}

proof fn lemma_init_tkhd(t: InitTrack)
    ensures
        field32(init_tkhd_body(t), versioned_offset(init_tkhd_body(t))) == Ok::<
            int,
            FragmentError,
        >(t.track_id as int),
        tkhd_width(init_tkhd_body(t)) == t.width % 0x1_0000,
        tkhd_height(init_tkhd_body(t)) == t.height % 0x1_0000,
{
    reveal(tkhd_fields);
    let body = init_tkhd_body(t);
    let id = be32(t.track_id as int);
    let w = be32(fixed16(t.width as int));
    let h = be32(fixed16(t.height as int));
    lemma_be32(t.track_id as int);
    lemma_be32(fixed16(t.width as int));
    lemma_be32(fixed16(t.height as int));
    assert(body.len() == 84);
    assert(body[0] == 0);
    assert(body[12] == id[0] && body[13] == id[1] && body[14] == id[2] && body[15] == id[3]);
    assert(body[76] == w[0] && body[77] == w[1] && body[78] == w[2] && body[79] == w[3]);
    assert(body[80] == h[0] && body[81] == h[1] && body[82] == h[2] && body[83] == h[3]);
}

/// The path from a media box to its sample description.
proof fn lemma_init_path(data: Seq<u8>, mdia: BoxView, t: InitTrack)
    requires
        track_carried(t),
        holds_boxes(data, mdia.data_start as int, mdia.end as int, init_mdia_boxes(t)),
    ensures
        init_media(data, mdia) == Ok::<(u32, CodecId, u32, Seq<u8>), FragmentError>(
            (
                found_init_track(t).timescale,
                t.codec,
                found_init_track(t).channels,
                found_init_track(t).config,
            ),
        ),
{
    let b = init_mdia_boxes(t);
    lemma_init_bodies(t);
    let start = mdia.data_start as int;
    let end = mdia.end as int;
    lemma_child(data, mdia, b, 0);
    lemma_init_mdhd(t);
    lemma_child(data, mdia, b, 2);
    let minf = view_at(b, start, 2);
    let mb = init_minf_boxes(t);
    lemma_descend(data, start, end, b, 2, mb);
    lemma_child(data, minf, mb, 2);
    let stbl = view_at(mb, minf.data_start as int, 2);
    let sb = stbl_boxes(t);
    lemma_descend(data, minf.data_start as int, minf.end as int, mb, 2, sb);
    lemma_child(data, stbl, sb, 0);
    let stsd = view_at(sb, stbl.data_start as int, 0);
    lemma_box_in_place(data, stbl.data_start as int, stbl.end as int, sb, 0);
    lemma_init_entry(data, stsd, t);
    let path = seq![MINF, STBL, STSD];
    assert(path.skip(1) =~= seq![STBL, STSD]);
    assert(seq![STBL, STSD].skip(1) =~= seq![STSD]);
    assert(seq![STSD].skip(1) =~= Seq::<u32>::empty());
    assert(descendant_span(data, stsd, Seq::empty()) == Ok::<Option<BoxView>, FragmentError>(
        Some(stsd),
    ));
    assert(descendant_span(data, stbl, seq![STSD]) == Ok::<Option<BoxView>, FragmentError>(
        Some(stsd),
    ));
    assert(descendant_span(data, minf, seq![STBL, STSD]) == Ok::<Option<BoxView>, FragmentError>(
        Some(stsd),
    ));
    assert(descendant_span(data, mdia, path) == Ok::<Option<BoxView>, FragmentError>(Some(stsd)));
}

/// A written track is found, wherever it stands.
proof fn lemma_init_track(data: Seq<u8>, trak: BoxView, t: InitTrack)
    requires
        track_carried(t),
        holds_boxes(data, trak.data_start as int, trak.end as int, init_trak_boxes(t)),
    ensures
        init_track(data, trak) == Ok::<FragmentTrackModel, FragmentError>(found_init_track(t)),
{
    let b = init_trak_boxes(t);
    lemma_child(data, trak, b, 0);
    lemma_init_tkhd(t);
    lemma_child(data, trak, b, 1);
    lemma_init_bodies(t);
    lemma_descend(
        data,
        trak.data_start as int,
        trak.end as int,
        b,
        1,
        init_mdia_boxes(t),
    );
    lemma_init_path(data, view_at(b, trak.data_start as int, 1), t);
}

/// The tracks of a muxer that its initialization segment carries.
pub open spec fn init_parts(m: Fmp4Model) -> Seq<InitTrack> {
    match (init_video(m), init_audio(m)) {
        (Some(v), Some(a)) => seq![v, a],
        (Some(v), None) => seq![v],
        (None, Some(a)) => seq![a],
        (None, None) => Seq::empty(),
    }
}

/// The boxes of a written movie box.
pub open spec fn init_moov_boxes(m: Fmp4Model) -> Seq<BoxModel> {
    let parts = init_parts(m);
    seq![BoxModel { kind: MVHD, body: full_body(0, 0, mvhd_fields(0, 2)) }] + Seq::new(
        parts.len(),
        |i: int| BoxModel { kind: TRAK, body: init_trak(parts[i]) },
    )
}

/// The boxes of an initialization segment.
pub open spec fn init_boxes(m: Fmp4Model) -> Seq<BoxModel> {
    seq![
        BoxModel {
            kind: FTYP,
            body: Seq::<u8>::empty() + be32(
                if m.video_codec == Some(CodecId::H265) {
                    crate::mp4::fmp4::ISO6 as int
                } else {
                    crate::mp4::writer::ISOM as int
                },
            ) + be32(0x200) + be32(crate::mp4::fmp4::ISO6 as int) + be32(
                crate::mp4::writer::MP41 as int,
            ) + be32(crate::mp4::fmp4::CMFC as int),
        },
        BoxModel { kind: MOOV, body: init_moov(m) },
    ]
}

proof fn lemma_init_segment_bodies(m: Fmp4Model)
    ensures
        init_bytes(m) == concat_boxes(init_boxes(m), 2),
        init_moov(m) == concat_boxes(init_moov_boxes(m), init_moov_boxes(m).len() as int),
{
    assert(init_bytes(m) =~= concat_boxes(init_boxes(m), 2)) by {
        reveal(init_bytes);
        reveal(cmaf_ftyp_bytes);
        reveal_with_fuel(concat_boxes, 3);
    }
    let b = init_moov_boxes(m);
    assert(init_moov(m) =~= concat_boxes(b, b.len() as int)) by {
        reveal(init_moov);
        reveal_with_fuel(concat_boxes, 4);
    }
}

proof fn lemma_no_index(tracks: Seq<FragmentTrackModel>, id: u32, i: int)
    requires
        0 <= i,
        forall|k: int| 0 <= k < tracks.len() ==> (#[trigger] tracks[k]).id != id,
    ensures
        track_index(tracks, id, i) is None,
    decreases tracks.len() - i,
{
    if i < tracks.len() {
        assert(tracks[i].id != id);
        lemma_no_index(tracks, id, i + 1);
    }
}

/// Tracks with distinct numbers are collected one after the other.
proof fn lemma_collect_from(
    data: Seq<u8>,
    list: Seq<BoxView>,
    found: Seq<FragmentTrackModel>,
    i: int,
)
    requires
        list.len() == found.len() + 1,
        1 <= i <= list.len(),
        forall|k: int|
            1 <= k < list.len() ==> list[k].kind == TRAK && init_track(data, #[trigger] list[k])
                == Ok::<FragmentTrackModel, FragmentError>(found[k - 1]),
        forall|j: int, k: int|
            0 <= j < k < found.len() ==> (#[trigger] found[j]).id != (#[trigger] found[k]).id,
    ensures
        init_tracks(data, list, i, found.take(i - 1)) == Ok::<
            Seq<FragmentTrackModel>,
            FragmentError,
        >(found),
    decreases list.len() - i,
{
    if i < list.len() {
        let known = found.take(i - 1);
        assert(list[i].kind == TRAK);
        assert forall|k: int| 0 <= k < known.len() implies (#[trigger] known[k]).id != found[i
            - 1].id by {
            assert(found[k].id != found[i - 1].id);
        }
        lemma_no_index(known, found[i - 1].id, 0);
        assert(known.push(found[i - 1]) =~= found.take(i));
        lemma_collect_from(data, list, found, i + 1);
    } else {
        assert(found.take(i - 1) =~= found);
    }
}

proof fn lemma_collect(data: Seq<u8>, list: Seq<BoxView>, found: Seq<FragmentTrackModel>)
    requires
        list.len() == found.len() + 1,
        list[0].kind != TRAK,
        forall|k: int|
            1 <= k < list.len() ==> list[k].kind == TRAK && init_track(data, #[trigger] list[k])
                == Ok::<FragmentTrackModel, FragmentError>(found[k - 1]),
        forall|j: int, k: int|
            0 <= j < k < found.len() ==> (#[trigger] found[j]).id != (#[trigger] found[k]).id,
    ensures
        init_tracks(data, list, 0, Seq::empty()) == Ok::<Seq<FragmentTrackModel>, FragmentError>(
            found,
        ),
{
    lemma_collect_from(data, list, found, 1);
    assert(found.take(0) =~= Seq::empty());
}

/// What the initialization segment has of the kind of track that a frame
/// belongs to.
pub open spec fn track_of(m: Fmp4Model, kind: FrameType) -> Option<InitTrack> {
    if kind == FrameType::Video {
        init_video(m)
    } else {
        init_audio(m)
    }
}

/// Whether a track has the given codec and configuration.
pub open spec fn track_has(t: Option<InitTrack>, codec: CodecId, config: Seq<u8>) -> bool {
    t is Some && t->0.codec == codec && t->0.config == config
}

/// A record that says what it is is kept whole for the initialization segment,
/// and so is the one that the codec layer made of parameter sets with start
/// codes; where it made none, nothing of the tracks changes.
pub proof fn law_record_is_kept_whole(m: Fmp4Model, frame: FrameModel, payload: Option<Seq<u8>>)
    requires
        frame.config_frame,
        frame.frame_type == FrameType::Video || frame.frame_type == FrameType::Audio,
    ensures
        ({
            let next = fmp4_pushed(m, frame, payload);
            let written = track_of(next, frame.frame_type);
            let format = frame.payload_format;
            &&& frame.codec == CodecId::AAC && format == PayloadFormat::AacAudioSpecificConfig
                ==> track_has(written, frame.codec, frame.data)
            &&& is_picture(frame.codec) && (format == PayloadFormat::Avcc || format
                == PayloadFormat::Hvcc) ==> track_has(written, frame.codec, frame.data)
            &&& is_picture(frame.codec) && format == PayloadFormat::AnnexB ==> match payload {
                Some(record) => track_has(written, frame.codec, record),
                None => init_video(next) == init_video(m) && init_audio(next) == init_audio(m),
            }
        }),
{
}

/// The FLV header before a configuration is taken off, and nothing else.
pub proof fn law_flv_header_is_taken_off(
    m: Fmp4Model,
    frame: FrameModel,
    payload: Option<Seq<u8>>,
    header: Seq<u8>,
    record: Seq<u8>,
)
    requires
        frame.config_frame,
        frame.frame_type == FrameType::Video || frame.frame_type == FrameType::Audio,
        frame.payload_format == PayloadFormat::Flv,
        frame.data == header + record,
        (is_picture(frame.codec) && header.len() == 5) || (frame.codec == CodecId::AAC
            && header.len() == 2 && header[0] == 0xaf && record.len() > 0),
    ensures
        track_has(
            track_of(fmp4_pushed(m, frame, payload), frame.frame_type),
            frame.codec,
            record,
        ),
{
    assert(frame.data.skip(header.len() as int) =~= record);
}

/// The initialization segment gives the tracks of the muxer back: codec, time
/// base, picture size, channels and decoder configuration.
pub proof fn law_init_segment_gives_tracks_back(m: Fmp4Model)
    requires
        init_parts(m).len() > 0,
        forall|i: int| 0 <= i < init_parts(m).len() ==> track_carried(#[trigger] init_parts(m)[i]),
        init_bytes(m).len() <= u32::MAX,
    ensures
        init_segment_tracks(init_bytes(m)) == Ok::<Seq<FragmentTrackModel>, FragmentError>(
            Seq::new(init_parts(m).len(), |i: int| found_init_track(init_parts(m)[i])),
        ),
{
    let data = init_bytes(m);
    let top = init_boxes(m);
    lemma_init_segment_bodies(m);
    let n = data.len() as int;
    assert(data.subrange(0, n) =~= data);
    lemma_spans(data, 0, n, top);
    lemma_child(data, BoxView { kind: 0, start: 0, data_start: 0, end: n as usize }, top, 1);
    lemma_descend(data, 0, n, top, 1, init_moov_boxes(m));
    lemma_moov_tracks(data, view_at(top, 0, 1), m);
}

/// A written track box among the boxes of a movie.
proof fn lemma_moov_track(data: Seq<u8>, moov: BoxView, m: Fmp4Model, i: int)
    requires
        1 <= i < init_moov_boxes(m).len(),
        track_carried(init_parts(m)[i - 1]),
        holds_boxes(data, moov.data_start as int, moov.end as int, init_moov_boxes(m)),
    ensures
        init_track(data, view_at(init_moov_boxes(m), moov.data_start as int, i)) == Ok::<
            FragmentTrackModel,
            FragmentError,
        >(found_init_track(init_parts(m)[i - 1])),
{
    let mb = init_moov_boxes(m);
    let t = init_parts(m)[i - 1];
    assert(mb[i] == (BoxModel { kind: TRAK, body: init_trak(t) }));
    lemma_init_bodies(t);
    lemma_descend(data, moov.data_start as int, moov.end as int, mb, i, init_trak_boxes(t));
    lemma_init_track(data, view_at(mb, moov.data_start as int, i), t);
}

/// The tracks of a written movie box.
proof fn lemma_moov_tracks(data: Seq<u8>, moov: BoxView, m: Fmp4Model)
    requires
        forall|i: int| 0 <= i < init_parts(m).len() ==> track_carried(#[trigger] init_parts(m)[i]),
        holds_boxes(data, moov.data_start as int, moov.end as int, init_moov_boxes(m)),
    ensures
        ({
            let list = views_at(init_moov_boxes(m), moov.data_start as int);
            &&& spans(data, moov.data_start as int, moov.end as int) == Ok::<
                Seq<BoxView>,
                FragmentError,
            >(list)
            &&& init_tracks(data, list, 0, Seq::empty()) == Ok::<
                Seq<FragmentTrackModel>,
                FragmentError,
            >(Seq::new(init_parts(m).len(), |i: int| found_init_track(init_parts(m)[i])))
        }),
{
    let mb = init_moov_boxes(m);
    let parts = init_parts(m);
    let list = views_at(mb, moov.data_start as int);
    let found = Seq::new(parts.len(), |i: int| found_init_track(parts[i]));
    lemma_spans(data, moov.data_start as int, moov.end as int, mb);
    assert forall|i: int| 1 <= i < list.len() implies list[i].kind == TRAK && init_track(
        data,
        #[trigger] list[i],
    ) == Ok::<FragmentTrackModel, FragmentError>(found[i - 1]) by {
        assert(track_carried(parts[i - 1]));
        lemma_moov_track(data, moov, m, i);
    }
    assert(list[0].kind == MVHD);
    lemma_collect(data, list, found);
}

// ── samples of a media segment ──────────────────────────────────────────

/// The decode time of sample `k` of a fragment that begins at `start`.
pub open spec fn time_at(samples: Seq<FragmentSample>, start: int, k: int) -> int
    decreases k,
{
    if k <= 0 {
        start
    } else {
        clamp64(time_at(samples, start, k - 1) + samples[k - 1].duration)
    }
}

/// The frames that a demuxer finds for the samples of a fragment.
pub open spec fn found_frames(
    t: FragmentTrackModel,
    samples: Seq<FragmentSample>,
    start: int,
) -> Seq<FrameModel> {
    Seq::new(
        samples.len(),
        |k: int|
            fragment_frame(
                t,
                time_at(samples, start, k),
                0,
                samples[k].data,
                sample_flag_word(samples[k].is_sync),
            ),
    )
}

/// Each record takes twelve bytes.
proof fn lemma_records_len(samples: Seq<FragmentSample>, n: int)
    requires
        0 <= n,
    ensures
        sample_records(samples, n).len() == 12 * n,
    decreases n,
{
    if n > 0 {
        lemma_records_len(samples, n - 1);
        assert(sample_record(samples[n - 1]).len() == 12);
    }
}

/// Where a record stands.
proof fn lemma_record_at(samples: Seq<FragmentSample>, n: int, k: int)
    requires
        0 <= k < n <= samples.len(),
    ensures
        sample_records(samples, n).len() == 12 * n,
        sample_records(samples, n).subrange(12 * k, 12 * k + 12) == sample_record(samples[k]),
    decreases n,
{
    lemma_records_len(samples, n);
    lemma_records_len(samples, n - 1);
    if k == n - 1 {
        assert(sample_records(samples, n).subrange(12 * k, 12 * k + 12) =~= sample_record(
            samples[k],
        ));
    } else {
        lemma_record_at(samples, n - 1, k);
        assert(sample_records(samples, n).subrange(12 * k, 12 * k + 12) =~= sample_records(
            samples,
            n - 1,
        ).subrange(12 * k, 12 * k + 12));
    }
}

/// What a record says.
proof fn lemma_record_words(s: FragmentSample)
    requires
        s.data.len() <= u32::MAX,
    ensures
        sample_record(s).len() == 12,
        u32_at(sample_record(s), 0) == s.duration,
        u32_at(sample_record(s), 4) == s.data.len(),
        u32_at(sample_record(s), 8) == sample_flag_word(s.is_sync),
{
    let r = sample_record(s);
    let a = be32(s.duration as int);
    let b = be32(s.data.len() as int);
    let c = be32(sample_flag_word(s.is_sync));
    lemma_be32(s.duration as int);
    lemma_be32(s.data.len() as int);
    lemma_be32(sample_flag_word(s.is_sync));
    assert(r =~= a + b + c);
    assert(r[0] == a[0] && r[1] == a[1] && r[2] == a[2] && r[3] == a[3]);
    assert(r[4] == b[0] && r[5] == b[1] && r[6] == b[2] && r[7] == b[3]);
    assert(r[8] == c[0] && r[9] == c[1] && r[10] == c[2] && r[11] == c[3]);
}

/// The payload of the first `n` samples is a prefix of the whole.
proof fn lemma_samples_prefix(samples: Seq<FragmentSample>, n: int)
    requires
        0 <= n <= samples.len(),
    ensures
        samples_payload(samples.take(n)).len() <= samples_payload(samples).len(),
        samples_payload(samples.take(n)) == samples_payload(samples).take(
            samples_payload(samples.take(n)).len() as int,
        ),
    decreases samples.len() - n,
{
    let all = samples_payload(samples);
    if n < samples.len() {
        lemma_samples_prefix(samples, n + 1);
        let next = samples_payload(samples.take(n + 1));
        assert(samples.take(n + 1).drop_last() =~= samples.take(n));
        let part = samples_payload(samples.take(n));
        assert(next == part + samples[n].data);
        assert(part =~= all.take(part.len() as int));
    } else {
        assert(samples.take(n) =~= samples);
        assert(all =~= all.take(all.len() as int));
    }
}

/// Where sample `k` begins in the payload.
pub open spec fn sample_at(samples: Seq<FragmentSample>, k: int) -> int {
    samples_payload(samples.take(k)).len() as int
}

/// Each sample stands in the payload behind those before it.
proof fn lemma_sample_at(samples: Seq<FragmentSample>, k: int)
    requires
        0 <= k < samples.len(),
    ensures
        sample_at(samples, k + 1) == sample_at(samples, k) + samples[k].data.len(),
        sample_at(samples, k + 1) <= samples_payload(samples).len(),
        samples_payload(samples).subrange(sample_at(samples, k), sample_at(samples, k + 1))
            == samples[k].data,
{
    let all = samples_payload(samples);
    lemma_samples_prefix(samples, k);
    lemma_samples_prefix(samples, k + 1);
    assert(samples.take(k + 1).drop_last() =~= samples.take(k));
    let part = samples_payload(samples.take(k));
    let next = samples_payload(samples.take(k + 1));
    assert(next == part + samples[k].data);
    assert(next.subrange(part.len() as int, next.len() as int) =~= samples[k].data);
    assert(all.subrange(part.len() as int, next.len() as int) =~= next.subrange(
        part.len() as int,
        next.len() as int,
    ));
}

/// The header that a demuxer reads from a written run.
pub open spec fn written_run(
    samples: Seq<FragmentSample>,
    data_offset: int,
    d: FragmentDefaults,
) -> RunModel {
    RunModel {
        body: trun_body(samples, data_offset),
        flags: 0x701,
        version: 0,
        count: samples.len() as int,
        samples_at: d.base + data_offset,
        records_at: 12,
        first_flags: d.flags as int,
    }
}

/// The words of a written run.
proof fn lemma_trun_words(samples: Seq<FragmentSample>, data_offset: int)
    requires
        samples.len() <= u32::MAX,
        0 <= data_offset <= u32::MAX,
    ensures
        ({
            let body = trun_body(samples, data_offset);
            &&& body.len() == 12 + 12 * samples.len()
            &&& body[0] == 0
            &&& u32_at(body, 0) == 0x701
            &&& u32_at(body, 4) == samples.len()
            &&& u32_at(body, 8) == data_offset
            &&& body.skip(12) == sample_records(samples, samples.len() as int)
        }),
{
    let n = samples.len() as int;
    lemma_records_len(samples, n);
    lemma_three_words(0x701, n, data_offset, sample_records(samples, n));
    lemma_trun_form(samples, data_offset);
}

proof fn lemma_trun_form(samples: Seq<FragmentSample>, data_offset: int)
    requires
        samples.len() <= u32::MAX,
        0 <= data_offset <= u32::MAX,
    ensures
        trun_body(samples, data_offset) == Seq::<u8>::empty() + be32(0x701) + be32(
            samples.len() as int,
        ) + be32(data_offset) + sample_records(samples, samples.len() as int),
{
    reveal(trun_body);
    assert(samples.len() as int % 0x1_0000_0000 == samples.len());
    assert(data_offset % 0x1_0000_0000 == data_offset);
}

/// Reading three words at the start of a sequence.
proof fn lemma_three_words(a: int, b: int, c: int, tail: Seq<u8>)
    requires
        0 <= a <= u32::MAX,
        0 <= b <= u32::MAX,
        0 <= c <= u32::MAX,
    ensures
        ({
            let s = Seq::<u8>::empty() + be32(a) + be32(b) + be32(c) + tail;
            &&& s.len() == 12 + tail.len()
            &&& a < 0x100_0000 ==> s[0] == 0
            &&& u32_at(s, 0) == a
            &&& u32_at(s, 4) == b
            &&& u32_at(s, 8) == c
            &&& s.skip(12) == tail
        }),
{
    let s = Seq::<u8>::empty() + be32(a) + be32(b) + be32(c) + tail;
    let f = be32(a);
    let g = be32(b);
    let h = be32(c);
    lemma_be32(a);
    lemma_be32(b);
    lemma_be32(c);
    assert(s[0] == f[0] && s[1] == f[1] && s[2] == f[2] && s[3] == f[3]);
    if a < 0x100_0000 {
        reveal(be32);
        assert(a / 0x100_0000 == 0);
    }
    assert(s[4] == g[0] && s[5] == g[1] && s[6] == g[2] && s[7] == g[3]);
    assert(s[8] == h[0] && s[9] == h[1] && s[10] == h[2] && s[11] == h[3]);
    assert(s.skip(12) =~= tail);
}

/// Reading the header of a run with the flags of a written one.
proof fn lemma_header_read(body: Seq<u8>, d: FragmentDefaults, implicit: int)
    requires
        body.len() >= 12,
        body[0] == 0,
        u32_at(body, 0) == 0x701,
        u32_at(body, 8) < 0x8000_0000,
        d.base < 0x8000_0000_0000_0000,
    ensures
        run_header(body, d, implicit) == Ok::<RunModel, FragmentError>(
            RunModel {
                body,
                flags: 0x701,
                version: 0,
                count: u32_at(body, 4),
                samples_at: d.base + u32_at(body, 8),
                records_at: 12,
                first_flags: d.flags as int,
            },
        ),
{
    assert(0x701int % 0x100_0000 == 0x701);
    assert(bit_set(0x701, 1));
    assert(!bit_set(0x701, 4));
}

/// Reading the header of a written run.
proof fn lemma_run_header(
    samples: Seq<FragmentSample>,
    data_offset: int,
    d: FragmentDefaults,
    implicit: int,
)
    requires
        samples.len() <= u32::MAX,
        0 <= data_offset < 0x8000_0000,
        d.base < 0x8000_0000_0000_0000,
    ensures
        run_header(trun_body(samples, data_offset), d, implicit) == Ok::<RunModel, FragmentError>(
            written_run(samples, data_offset, d),
        ),
{
    lemma_trun_words(samples, data_offset);
    lemma_header_read(trun_body(samples, data_offset), d, implicit);
}

/// The record of sample `k` in a written run.
proof fn lemma_record_in_run(samples: Seq<FragmentSample>, data_offset: int, k: int)
    requires
        0 <= k < samples.len() <= u32::MAX,
        0 <= data_offset <= u32::MAX,
        samples[k].data.len() <= u32::MAX,
    ensures
        ({
            let body = trun_body(samples, data_offset);
            let at = 12 + 12 * k;
            &&& at + 12 <= body.len()
            &&& u32_at(body, at) == samples[k].duration
            &&& u32_at(body, at + 4) == samples[k].data.len()
            &&& u32_at(body, at + 8) == sample_flag_word(samples[k].is_sync)
        }),
{
    let n = samples.len() as int;
    let body = trun_body(samples, data_offset);
    let at = 12 + 12 * k;
    lemma_trun_words(samples, data_offset);
    lemma_record_at(samples, n, k);
    lemma_record_words(samples[k]);
    let record = body.subrange(at, at + 12);
    assert(record =~= body.skip(12).subrange(12 * k, 12 * k + 12));
    assert(u32_at(body, at) == u32_at(record, 0));
    assert(u32_at(body, at + 4) == u32_at(record, 4));
    assert(u32_at(body, at + 8) == u32_at(record, 8));
}

/// One sample of a run with the flags of a written one.
proof fn lemma_run_step(
    data: Seq<u8>,
    t: FragmentTrackModel,
    r: RunModel,
    d: FragmentDefaults,
    left: int,
    at: int,
    time: int,
    offset: int,
    s: FragmentSample,
    rest: (Seq<FrameModel>, int, int),
)
    requires
        left > 0,
        r.flags == 0x701,
        at + 12 <= r.body.len(),
        u32_at(r.body, at) == s.duration,
        u32_at(r.body, at + 4) == s.data.len(),
        u32_at(r.body, at + 8) == sample_flag_word(s.is_sync),
        offset + s.data.len() <= data.len(),
        data.subrange(offset, offset + s.data.len()) == s.data,
        run_frames(
            data,
            t,
            r,
            d,
            left - 1,
            at + 12,
            clamp64(time + s.duration),
            offset + s.data.len(),
        ) == Ok::<(Seq<FrameModel>, int, int), FragmentError>(rest),
    ensures
        run_frames(data, t, r, d, left, at, time, offset) == Ok::<
            (Seq<FrameModel>, int, int),
            FragmentError,
        >(
            (
                seq![fragment_frame(t, time, 0, s.data, sample_flag_word(s.is_sync))] + rest.0,
                rest.1,
                rest.2,
            ),
        ),
{
    assert(bit_set(0x701, 0x100));
    assert(bit_set(0x701, 0x200));
    assert(bit_set(0x701, 0x400));
    assert(!bit_set(0x701, 0x800));
    assert(record_len(0x701) == 12);
}

/// Demuxing a written run from sample `k` on.
proof fn lemma_run_frames(
    data: Seq<u8>,
    t: FragmentTrackModel,
    samples: Seq<FragmentSample>,
    data_offset: int,
    d: FragmentDefaults,
    start: int,
    k: int,
)
    requires
        data.len() <= u32::MAX,
        0 <= k <= samples.len() <= u32::MAX,
        0 <= data_offset <= u32::MAX,
        d.base + data_offset + samples_payload(samples).len() <= data.len(),
        data.subrange(
            d.base + data_offset,
            d.base + data_offset + samples_payload(samples).len(),
        ) == samples_payload(samples),
    ensures
        run_frames(
            data,
            t,
            written_run(samples, data_offset, d),
            d,
            samples.len() - k,
            12 + 12 * k,
            time_at(samples, start, k),
            d.base + data_offset + sample_at(samples, k),
        ) == Ok::<(Seq<FrameModel>, int, int), FragmentError>(
            (
                found_frames(t, samples, start).skip(k),
                time_at(samples, start, samples.len() as int),
                d.base + data_offset + sample_at(samples, samples.len() as int),
            ),
        ),
    decreases samples.len() - k,
{
    let r = written_run(samples, data_offset, d);
    let n = samples.len() as int;
    let frames = found_frames(t, samples, start);
    if k == n {
        assert(frames.skip(k) =~= Seq::empty());
    } else {
        lemma_sample_at(samples, k);
        let from = d.base + data_offset + sample_at(samples, k);
        let to = from + samples[k].data.len();
        let payload = samples_payload(samples);
        assert(data.subrange(from, to) =~= samples[k].data) by {
            let whole = data.subrange(d.base + data_offset, d.base + data_offset + payload.len());
            assert(data.subrange(from, to) =~= whole.subrange(
                sample_at(samples, k),
                sample_at(samples, k + 1),
            ));
        }
        lemma_record_in_run(samples, data_offset, k);
        lemma_run_frames(data, t, samples, data_offset, d, start, k + 1);
        lemma_run_step(
            data,
            t,
            r,
            d,
            n - k,
            12 + 12 * k,
            time_at(samples, start, k),
            from,
            samples[k],
            (
                frames.skip(k + 1),
                time_at(samples, start, n),
                d.base + data_offset + sample_at(samples, n),
            ),
        );
        assert(seq![frames[k]] + frames.skip(k + 1) =~= frames.skip(k));
    }
}

/// A fragment whose third box is its only run.
proof fn lemma_one_run(
    data: Seq<u8>,
    t: FragmentTrackModel,
    d: FragmentDefaults,
    list: Seq<BoxView>,
    time: int,
    implicit: int,
    r: RunModel,
    frames: Seq<FrameModel>,
    after: int,
    end: int,
)
    requires
        list.len() == 3,
        list[0].kind != TRUN,
        list[1].kind != TRUN,
        list[2].kind == TRUN,
        run_header(span_body(data, list[2]), d, implicit) == Ok::<RunModel, FragmentError>(r),
        run_frames(data, t, r, d, r.count, r.records_at, time, r.samples_at) == Ok::<
            (Seq<FrameModel>, int, int),
            FragmentError,
        >((frames, after, end)),
    ensures
        runs_frames(data, t, d, list, 0, time, implicit) == Ok::<Seq<FrameModel>, FragmentError>(
            frames,
        ),
{
    assert(runs_frames(data, t, d, list, 3, after, end) == Ok::<Seq<FrameModel>, FragmentError>(
        Seq::empty(),
    ));
    assert(frames + Seq::<FrameModel>::empty() =~= frames);
    assert(runs_frames(data, t, d, list, 2, time, implicit) == Ok::<
        Seq<FrameModel>,
        FragmentError,
    >(frames));
    assert(runs_frames(data, t, d, list, 1, time, implicit) == Ok::<
        Seq<FrameModel>,
        FragmentError,
    >(frames));
}

/// The boxes of a written track fragment.
pub open spec fn traf_boxes(
    track_id: u32,
    start_time: u64,
    samples: Seq<FragmentSample>,
    data_offset: int,
) -> Seq<BoxModel> {
    seq![
        BoxModel { kind: TFHD, body: tfhd_body(track_id) },
        BoxModel { kind: TFDT, body: tfdt_body(start_time) },
        BoxModel { kind: TRUN, body: trun_body(samples, data_offset) },
    ]
}

/// The defaults that a demuxer reads from a written track fragment.
pub open spec fn written_defaults(moof_start: int) -> FragmentDefaults {
    FragmentDefaults { base: moof_start as u64, duration: 0, size: 0, flags: 0 }
}

proof fn lemma_tfhd(track_id: u32, moof_start: int)
    ensures
        tfhd_body(track_id).len() == 8,
        u32_at(tfhd_body(track_id), 4) == track_id,
        tfhd_defaults(tfhd_body(track_id), moof_start) == Ok::<FragmentDefaults, FragmentError>(
            written_defaults(moof_start),
        ),
{
    reveal(tfhd_body);
    let body = tfhd_body(track_id);
    let f = be32(0x2_0000);
    let id = be32(track_id as int);
    lemma_be32(0x2_0000);
    lemma_be32(track_id as int);
    assert(body =~= f + id);
    assert(body[0] == f[0] && body[1] == f[1] && body[2] == f[2] && body[3] == f[3]);
    assert(body[4] == id[0] && body[5] == id[1] && body[6] == id[2] && body[7] == id[3]);
    assert(u32_at(body, 0) == 0x2_0000);
    assert(!bit_set(0x2_0000, 1) && !bit_set(0x2_0000, 2) && !bit_set(0x2_0000, 8) && !bit_set(
        0x2_0000,
        0x10,
    ) && !bit_set(0x2_0000, 0x20));
}

proof fn lemma_tfdt(start_time: u64)
    ensures
        tfdt_body(start_time).len() == 12,
        tfdt_body(start_time)[0] == 1,
        u64_at(tfdt_body(start_time), 4) == start_time,
{
    reveal(tfdt_body);
    let body = tfdt_body(start_time);
    let v = be32(0x100_0000);
    let t = be64(start_time as int);
    lemma_be64(start_time as int);
    assert(body =~= v + t);
    assert(v[0] == 1) by {
        reveal(be32);
    }
    assert(body.subrange(4, 12) =~= t);
    assert(u64_at(body, 4) == u64_at(body.subrange(4, 12), 0));
}

/// A written track fragment gives its samples back.
proof fn lemma_traf(
    data: Seq<u8>,
    tracks: Seq<FragmentTrackModel>,
    index: int,
    moof: BoxView,
    mdat: BoxView,
    traf: BoxView,
    start_time: u64,
    samples: Seq<FragmentSample>,
    data_offset: int,
)
    requires
        data.len() < 0x8000_0000,
        0 <= index < tracks.len(),
        track_index(tracks, tracks[index].id, 0) == Some(index),
        holds_boxes(
            data,
            traf.data_start as int,
            traf.end as int,
            traf_boxes(tracks[index].id, start_time, samples, data_offset),
        ),
        samples.len() <= u32::MAX,
        0 <= data_offset,
        moof.start + data_offset + samples_payload(samples).len() <= data.len(),
        data.subrange(
            moof.start + data_offset,
            moof.start + data_offset + samples_payload(samples).len(),
        ) == samples_payload(samples),
    ensures
        traf_frames(data, tracks, moof, mdat, traf) == Ok::<Seq<FrameModel>, FragmentError>(
            found_frames(tracks[index], samples, start_time as int),
        ),
{
    let t = tracks[index];
    let b = traf_boxes(t.id, start_time, samples, data_offset);
    let start = traf.data_start as int;
    let d = written_defaults(moof.start as int);
    lemma_child(data, traf, b, 0);
    lemma_tfhd(t.id, moof.start as int);
    lemma_child(data, traf, b, 1);
    lemma_tfdt(start_time);
    lemma_spans(data, start, traf.end as int, b);
    lemma_box_in_place(data, start, traf.end as int, b, 2);
    let list = views_at(b, start);
    let implicit = mdat.data_start as int;
    lemma_run_header(samples, data_offset, d, implicit);
    assert(samples.take(0) =~= Seq::empty());
    lemma_run_frames(data, t, samples, data_offset, d, start_time as int, 0);
    let frames = found_frames(t, samples, start_time as int);
    assert(frames.skip(0) =~= frames);
    let after = time_at(samples, start_time as int, samples.len() as int);
    let end = d.base + data_offset + sample_at(samples, samples.len() as int);
    lemma_one_run(
        data,
        t,
        d,
        list,
        start_time as int,
        implicit,
        written_run(samples, data_offset, d),
        frames,
        after,
        end,
    );
}

/// The frames that a demuxer finds for the samples of one track of a segment.
pub open spec fn frames_for(
    tracks: Seq<FragmentTrackModel>,
    id: u32,
    samples: Seq<FragmentSample>,
    start: int,
) -> Seq<FrameModel> {
    match track_index(tracks, id, 0) {
        Some(i) => found_frames(tracks[i], samples, start),
        None => Seq::empty(),
    }
}

/// Whether a track with samples is known.
pub open spec fn track_known(
    tracks: Seq<FragmentTrackModel>,
    id: u32,
    samples: Seq<FragmentSample>,
) -> bool {
    samples.len() > 0 ==> track_index(tracks, id, 0) is Some
}

/// What a media segment is made of.
pub struct SegmentParts {
    pub sequence: u64,
    pub start_time: u64,
    pub video: Seq<FragmentSample>,
    pub audio: Seq<FragmentSample>,
}

/// The box of a track fragment.
pub open spec fn traf_box(
    id: u32,
    start_time: u64,
    samples: Seq<FragmentSample>,
    data_offset: int,
) -> BoxModel {
    BoxModel { kind: TRAF, body: traf_body(id, start_time, samples, data_offset) }
}

/// Where the samples of a segment begin, from the start of its fragment box.
pub open spec fn data_at(p: SegmentParts) -> int {
    moof_size(p.video.len() as int, p.audio.len() as int) + 8
}

/// The boxes of the fragment of a segment.
pub open spec fn moof_boxes(p: SegmentParts) -> Seq<BoxModel> {
    let head = seq![BoxModel { kind: MFHD, body: mfhd_body(p.sequence) }];
    let v = traf_box(1, p.start_time, p.video, data_at(p));
    let a = traf_box(2, p.start_time, p.audio, data_at(p) + samples_payload(p.video).len());
    if p.video.len() > 0 && p.audio.len() > 0 {
        head.push(v).push(a)
    } else if p.video.len() > 0 {
        head.push(v)
    } else if p.audio.len() > 0 {
        head.push(a)
    } else {
        head
    }
}

/// The body of the segment type box.
pub open spec fn styp_body() -> Seq<u8> {
    Seq::<u8>::empty() + be32(crate::mp4::fmp4::MSDH as int) + be32(crate::mp4::fmp4::MSIX as int)
        + be32(crate::mp4::fmp4::ISO6 as int) + be32(crate::mp4::fmp4::CMFC as int)
}

/// The boxes of a segment.
pub open spec fn segment_boxes(p: SegmentParts) -> Seq<BoxModel> {
    seq![
        BoxModel { kind: STYP, body: styp_body() },
        BoxModel { kind: MOOF, body: moof_body(p.sequence, p.start_time, p.video, p.audio) },
        BoxModel { kind: MDAT, body: samples_payload(p.video) + samples_payload(p.audio) },
    ]
}

/// The bytes of a segment.
pub open spec fn segment_bytes(p: SegmentParts) -> Seq<u8> {
    media_bytes(p.sequence, p.start_time, p.video, p.audio)
}

proof fn lemma_traf_len(id: u32, start_time: u64, samples: Seq<FragmentSample>, data_offset: int)
    requires
        samples.len() > 0,
    ensures
        traf_body(id, start_time, samples, data_offset).len() == 56 + 12 * samples.len(),
        traf_body(id, start_time, samples, data_offset) == concat_boxes(
            traf_boxes(id, start_time, samples, data_offset),
            3,
        ),
{
    reveal(traf_body);
    lemma_records_len(samples, samples.len() as int);
    assert(trun_body(samples, data_offset).len() == 12 + 12 * samples.len()) by {
        reveal(trun_body);
    }
    assert(tfhd_body(id).len() == 8) by {
        reveal(tfhd_body);
    }
    lemma_tfdt(start_time);
    lemma_box_len(TFHD, tfhd_body(id));
    lemma_box_len(TFDT, tfdt_body(start_time));
    lemma_box_len(TRUN, trun_body(samples, data_offset));
    assert(traf_body(id, start_time, samples, data_offset) == concat_boxes(
        traf_boxes(id, start_time, samples, data_offset),
        3,
    )) by {
        reveal_with_fuel(concat_boxes, 4);
    }
}

proof fn lemma_moof_form(p: SegmentParts)
    ensures
        moof_body(p.sequence, p.start_time, p.video, p.audio).len() + 8 == data_at(p) - 8,
        moof_body(p.sequence, p.start_time, p.video, p.audio) == concat_boxes(
            moof_boxes(p),
            moof_boxes(p).len() as int,
        ),
{
    let audio_at = data_at(p) + samples_payload(p.video).len();
    let v = traf_box(1, p.start_time, p.video, data_at(p));
    let a = traf_box(2, p.start_time, p.audio, audio_at);
    if p.video.len() > 0 {
        lemma_traf_len(1, p.start_time, p.video, data_at(p));
    }
    if p.audio.len() > 0 {
        lemma_traf_len(2, p.start_time, p.audio, audio_at);
    }
    lemma_box_len(TRAF, v.body);
    lemma_box_len(TRAF, a.body);
    lemma_box_len(MFHD, mfhd_body(p.sequence));
    assert(mfhd_body(p.sequence).len() == 8);
    reveal(moof_body);
    assert(moof_body(p.sequence, p.start_time, p.video, p.audio) =~= concat_boxes(
        moof_boxes(p),
        moof_boxes(p).len() as int,
    )) by {
        reveal_with_fuel(concat_boxes, 4);
    }
}

/// Where the fragment and the samples of a segment stand.
proof fn lemma_segment_layout(p: SegmentParts)
    requires
        segment_bytes(p).len() <= u32::MAX,
    ensures
        ({
            let data = segment_bytes(p);
            let b = segment_boxes(p);
            let moof = view_at(b, 0, 1);
            let v = samples_payload(p.video);
            let a = samples_payload(p.audio);
            let at = moof.start + data_at(p);
            &&& holds_boxes(data, 0, data.len() as int, b)
            &&& holds_boxes(data, moof.data_start as int, moof.end as int, moof_boxes(p))
            &&& at + v.len() + a.len() <= data.len()
            &&& data.subrange(at, at + v.len()) == v
            &&& data.subrange(at + v.len(), at + v.len() + a.len()) == a
        }),
{
    let data = segment_bytes(p);
    let b = segment_boxes(p);
    let v = samples_payload(p.video);
    let a = samples_payload(p.audio);
    assert(data =~= concat_boxes(b, 3)) by {
        reveal(media_bytes);
        reveal(styp_bytes);
        reveal_with_fuel(concat_boxes, 4);
    }
    assert(data.subrange(0, data.len() as int) =~= data);
    lemma_moof_form(p);
    lemma_box_in_place(data, 0, data.len() as int, b, 1);
    lemma_box_in_place(data, 0, data.len() as int, b, 2);
    lemma_descend(data, 0, data.len() as int, b, 1, moof_boxes(p));
    let moof = view_at(b, 0, 1);
    let mdat = view_at(b, 0, 2);
    let at = moof.start + data_at(p);
    assert(mdat.data_start == at);
    let body = span_body(data, mdat);
    assert(body == v + a);
    assert(data.subrange(at, at + v.len()) =~= body.subrange(0, v.len() as int));
    assert(body.subrange(0, v.len() as int) =~= v);
    assert(data.subrange(at + v.len(), at + v.len() + a.len()) =~= body.subrange(
        v.len() as int,
        (v + a).len() as int,
    ));
    assert(body.subrange(v.len() as int, (v + a).len() as int) =~= a);
}

/// A track fragment among the boxes of a written fragment.
proof fn lemma_segment_traf(
    p: SegmentParts,
    tracks: Seq<FragmentTrackModel>,
    mdat: BoxView,
    i: int,
    id: u32,
    samples: Seq<FragmentSample>,
    data_offset: int,
)
    requires
        segment_bytes(p).len() < 0x8000_0000,
        0 <= i < moof_boxes(p).len(),
        moof_boxes(p)[i] == traf_box(id, p.start_time, samples, data_offset),
        track_index(tracks, id, 0) is Some,
        0 < samples.len() <= u32::MAX,
        0 <= data_offset,
        ({
            let data = segment_bytes(p);
            let at = view_at(segment_boxes(p), 0, 1).start + data_offset;
            &&& at + samples_payload(samples).len() <= data.len()
            &&& data.subrange(at, at + samples_payload(samples).len()) == samples_payload(samples)
        }),
    ensures
        traf_frames(
            segment_bytes(p),
            tracks,
            view_at(segment_boxes(p), 0, 1),
            mdat,
            view_at(moof_boxes(p), view_at(segment_boxes(p), 0, 1).data_start as int, i),
        ) == Ok::<Seq<FrameModel>, FragmentError>(
            frames_for(tracks, id, samples, p.start_time as int),
        ),
{
    let data = segment_bytes(p);
    let moof = view_at(segment_boxes(p), 0, 1);
    let b = moof_boxes(p);
    lemma_segment_layout(p);
    lemma_traf_len(id, p.start_time, samples, data_offset);
    lemma_descend(
        data,
        moof.data_start as int,
        moof.end as int,
        b,
        i,
        traf_boxes(id, p.start_time, samples, data_offset),
    );
    let index = track_index(tracks, id, 0).unwrap();
    lemma_index_found(tracks, id, 0);
    lemma_traf(
        data,
        tracks,
        index,
        moof,
        mdat,
        view_at(b, moof.data_start as int, i),
        p.start_time,
        samples,
        data_offset,
    );
}

proof fn lemma_index_found(tracks: Seq<FragmentTrackModel>, id: u32, i: int)
    requires
        0 <= i,
    ensures
        track_index(tracks, id, i) matches Some(k) ==> 0 <= k < tracks.len() && tracks[k].id == id,
    decreases tracks.len() - i,
{
    if i < tracks.len() {
        lemma_index_found(tracks, id, i + 1);
    }
}

/// The frames of a fragment are those of its track fragments.
proof fn lemma_two_trafs(
    data: Seq<u8>,
    tracks: Seq<FragmentTrackModel>,
    moof: BoxView,
    mdat: BoxView,
    list: Seq<BoxView>,
    first: Seq<FrameModel>,
    second: Seq<FrameModel>,
)
    requires
        1 <= list.len() <= 3,
        list[0].kind != TRAF,
        list.len() > 1 ==> list[1].kind == TRAF && traf_frames(data, tracks, moof, mdat, list[1])
            == Ok::<Seq<FrameModel>, FragmentError>(first),
        list.len() > 2 ==> list[2].kind == TRAF && traf_frames(data, tracks, moof, mdat, list[2])
            == Ok::<Seq<FrameModel>, FragmentError>(second),
        list.len() < 2 ==> first.len() == 0,
        list.len() < 3 ==> second.len() == 0,
    ensures
        moof_frames(data, tracks, moof, mdat, list, 0) == Ok::<Seq<FrameModel>, FragmentError>(
            first + second,
        ),
{
    let n = list.len() as int;
    assert(moof_frames(data, tracks, moof, mdat, list, n) == Ok::<Seq<FrameModel>, FragmentError>(
        Seq::empty(),
    ));
    if n > 2 {
        assert(second + Seq::<FrameModel>::empty() =~= second);
        assert(moof_frames(data, tracks, moof, mdat, list, 2) == Ok::<
            Seq<FrameModel>,
            FragmentError,
        >(second));
    } else {
        assert(second =~= Seq::empty());
    }
    if n > 1 {
        assert(moof_frames(data, tracks, moof, mdat, list, 1) == Ok::<
            Seq<FrameModel>,
            FragmentError,
        >(first + second));
    } else {
        assert(first + second =~= Seq::empty());
    }
}

/// A media segment gives the samples of the muxer back: the demuxer that knows
/// their tracks finds every waiting sample, in order, byte for byte, first
/// those of the video track, then those of the audio track.
pub proof fn law_segment_gives_samples_back(p: SegmentParts, tracks: Seq<FragmentTrackModel>)
    requires
        track_known(tracks, 1, p.video),
        track_known(tracks, 2, p.audio),
        segment_bytes(p).len() < 0x8000_0000,
    ensures
        segment_frames(segment_bytes(p), tracks) == Ok::<Seq<FrameModel>, FragmentError>(
            video_frames(p, tracks) + audio_frames(p, tracks),
        ),
{
    let data = segment_bytes(p);
    let b = segment_boxes(p);
    lemma_segment_layout(p);
    lemma_spans(data, 0, data.len() as int, b);
    let top = views_at(b, 0);
    lemma_first_span(top, MOOF, 1);
    lemma_first_span(top, MDAT, 2);
    let moof = view_at(b, 0, 1);
    lemma_spans(data, moof.data_start as int, moof.end as int, moof_boxes(p));
    lemma_moof_frames(p, tracks);
}

/// The frames of the video track of a segment.
pub open spec fn video_frames(p: SegmentParts, tracks: Seq<FragmentTrackModel>) -> Seq<FrameModel> {
    if p.video.len() > 0 {
        frames_for(tracks, 1, p.video, p.start_time as int)
    } else {
        Seq::empty()
    }
}

/// The frames of the audio track of a segment.
pub open spec fn audio_frames(p: SegmentParts, tracks: Seq<FragmentTrackModel>) -> Seq<FrameModel> {
    if p.audio.len() > 0 {
        frames_for(tracks, 2, p.audio, p.start_time as int)
    } else {
        Seq::empty()
    }
}

#[verifier::spinoff_prover]
proof fn lemma_moof_frames(p: SegmentParts, tracks: Seq<FragmentTrackModel>)
    requires
        track_known(tracks, 1, p.video),
        track_known(tracks, 2, p.audio),
        segment_bytes(p).len() < 0x8000_0000,
    ensures
        moof_frames(
            segment_bytes(p),
            tracks,
            view_at(segment_boxes(p), 0, 1),
            view_at(segment_boxes(p), 0, 2),
            views_at(moof_boxes(p), view_at(segment_boxes(p), 0, 1).data_start as int),
            0,
        ) == Ok::<Seq<FrameModel>, FragmentError>(
            video_frames(p, tracks) + audio_frames(p, tracks),
        ),
{
    let data = segment_bytes(p);
    let mb = moof_boxes(p);
    let moof = view_at(segment_boxes(p), 0, 1);
    let mdat = view_at(segment_boxes(p), 0, 2);
    let list = views_at(mb, moof.data_start as int);
    let v = video_frames(p, tracks);
    let a = audio_frames(p, tracks);
    let audio_at = data_at(p) + samples_payload(p.video).len();
    lemma_segment_layout(p);
    lemma_sample_counts(p);
    assert(list[0].kind == MFHD);
    if p.video.len() > 0 {
        lemma_segment_traf(p, tracks, mdat, 1, 1, p.video, data_at(p));
        assert(list[1].kind == TRAF);
        if p.audio.len() > 0 {
            lemma_segment_traf(p, tracks, mdat, 2, 2, p.audio, audio_at);
            assert(list[2].kind == TRAF);
        }
        lemma_two_trafs(data, tracks, moof, mdat, list, v, a);
    } else {
        if p.audio.len() > 0 {
            lemma_segment_traf(p, tracks, mdat, 1, 2, p.audio, audio_at);
            assert(list[1].kind == TRAF);
        }
        lemma_two_trafs(data, tracks, moof, mdat, list, a, Seq::empty());
        assert(v + a =~= a);
        assert(a + Seq::<FrameModel>::empty() =~= a);
    }
}

/// The samples of a segment can be counted: each takes a record in it.
proof fn lemma_sample_counts(p: SegmentParts)
    requires
        segment_bytes(p).len() < 0x8000_0000,
    ensures
        p.video.len() <= u32::MAX,
        p.audio.len() <= u32::MAX,
{
    lemma_moof_form(p);
    lemma_segment_layout(p);
    let b = segment_boxes(p);
    lemma_box_in_place(segment_bytes(p), 0, segment_bytes(p).len() as int, b, 1);
}

} // verus!
