//! What the boxes of a segment and of an initialization segment mean, and in
//! which order the frames of a segment come.
use vstd::prelude::*;
use crate::bytes::{be16, u16_at, u32_at, u64_at};
use crate::media::{CodecId, FrameModel, FrameType, PayloadFormat, TrackInfo};
use crate::mp4::boxes::BoxModel;
use crate::mp4::boxes::TRUN;
use crate::mp4::entries::{TrackKind, ber_len, ber_value, entry_codec, first_sps};
use crate::mp4::fragment_laws::{
    RunPlan, delay_of, flags_of_sample, frame_shows, law_run_is_read, run_begins, run_body,
    run_goes, times_fit,
};
use crate::mp4::fragmented_demuxer::{
    BoxView, FragmentDefaults, FragmentError, FragmentTrackModel, descriptor_len, dts_keys,
    entry_codec_of, field32, first_span, fragment_config, fragment_configs, in_decode_order,
    info_of, run_frames, run_header, runs_frames, span_body, spans, tkhd_height, tkhd_width,
    track_index, versioned_offset, with_fragment_track,
};
use crate::order::is_stable_order;

verus! {

broadcast use crate::bytes::group_be_len;

// ── boxes ───────────────────────────────────────────────────────────────

/// How a box is read that stands at `start` in a parent that ends at `end`,
/// when it is `size` bytes long: its size is in its first four bytes, or, where
/// these hold 1, in the eight behind its type; where they hold 0, it reaches to
/// the end of its parent. Its body begins behind its header, and what follows
/// is read in the same way.
pub proof fn law_span_is_read(data: Seq<u8>, start: int, end: int, size: int, header: int)
    requires
        0 <= start,
        start + size <= end <= data.len(),
        data.len() <= usize::MAX,
        header == 8 || header == 16,
        header <= size,
        header == 8 ==> u32_at(data, start) == size || (u32_at(data, start) == 0 && start + size
            == end),
        header == 8 ==> u32_at(data, start) != 1,
        header == 16 ==> u32_at(data, start) == 1 && u64_at(data, start + 8) == size,
    ensures
        match spans(data, start + size, end) {
            Err(e) => spans(data, start, end) == Err::<Seq<BoxView>, FragmentError>(e),
            Ok(rest) => {
                let all = spans(data, start, end);
                &&& all is Ok && all->Ok_0.len() == rest.len() + 1
                &&& all->Ok_0.skip(1) == rest
                &&& all->Ok_0[0].kind == u32_at(data, start + 4)
                &&& all->Ok_0[0].start == start
                &&& all->Ok_0[0].data_start == start + header
                &&& all->Ok_0[0].end == start + size
            },
        },
{
    let tail = spans(data, start + size, end);
    if tail is Ok {
        let all = spans(data, start, end);
        assert(all->Ok_0.skip(1) =~= tail->Ok_0);
    }
}

/// A box that is larger than its parent, or smaller than its own header, is an
/// error; what is left at the end and is too short for a box is left out.
pub proof fn law_wrong_span_is_refused(data: Seq<u8>, start: int, end: int)
    requires
        0 <= start <= end <= data.len(),
    ensures
        end - start < 8 ==> spans(data, start, end) == Ok::<Seq<BoxView>, FragmentError>(
            Seq::empty(),
        ),
        end - start >= 8 && (u32_at(data, start) > end - start || 1 < u32_at(data, start) < 8)
            ==> spans(data, start, end) == Err::<Seq<BoxView>, FragmentError>(
            FragmentError::InvalidBoxSize,
        ),
{
}

/// The first box of a type among others is found.
pub proof fn law_first_span_is_found(list: Seq<BoxView>, kind: u32, i: int)
    requires
        0 <= i < list.len(),
        list[i].kind == kind,
        forall|k: int| 0 <= k < i ==> (#[trigger] list[k]).kind != kind,
    ensures
        first_span(list, kind) == Some(list[i]),
    decreases i,
{
    if i > 0 {
        assert(list[0].kind != kind);
        let rest = list.skip(1);
        assert(rest[i - 1] == list[i]);
        assert forall|k: int| 0 <= k < i - 1 implies (#[trigger] rest[k]).kind != kind by {
            assert(rest[k] == list[k + 1]);
        }
        law_first_span_is_found(rest, kind, i - 1);
    }
}

// ── initialization segment ──────────────────────────────────────────────

/// The number of a track in its header, and the clock in a media header: behind
/// two times of 32 bits in version 0, and of 64 bits in version 1.
pub proof fn law_header_field_is_read(body: Seq<u8>, n: u32)
    requires
        body.len() >= 24,
        body[0] == 0 ==> u32_at(body, 12) == n,
        body[0] == 1 ==> u32_at(body, 20) == n,
        body[0] == 0 || body[0] == 1,
    ensures
        field32(body, versioned_offset(body)) == Ok::<int, FragmentError>(n as int),
{
}

/// The picture size at the end of a track header is in 16.16 fixed point.
pub proof fn law_picture_size_is_read(head: Seq<u8>, width: u16, height: u16)
    ensures
        tkhd_width(head + (be16(width as int) + be16(0) + be16(height as int) + be16(0))) == width,
        tkhd_height(head + (be16(width as int) + be16(0) + be16(height as int) + be16(0)))
            == height,
{
    let tail = be16(width as int) + be16(0) + be16(height as int) + be16(0);
    let body = head + tail;
    let n = body.len() as int;
    reveal(be16);
    assert(body[n - 8] == be16(width as int)[0] && body[n - 7] == be16(width as int)[1]);
    assert(body[n - 6] == be16(0)[0] && body[n - 5] == be16(0)[1]);
    assert(body[n - 4] == be16(height as int)[0] && body[n - 3] == be16(height as int)[1]);
    assert(body[n - 2] == be16(0)[0] && body[n - 1] == be16(0)[1]);
}

/// The sample entry types that name a codec: `avc1` and `avc3`, `hvc1` and
/// `hev1`, and `mp4a`, in segments and in files alike; no other does.
pub proof fn law_entry_type_names_codec(kind: u32, entry: BoxModel)
    requires
        entry.kind == kind,
    ensures
        entry_codec_of(kind as int) == Some(CodecId::H264) <==> kind == 0x6176_6331 || kind
            == 0x6176_6333,
        entry_codec_of(kind as int) == Some(CodecId::H265) <==> kind == 0x6876_6331 || kind
            == 0x6865_7631,
        entry_codec_of(kind as int) == Some(CodecId::AAC) <==> kind == 0x6d70_3461,
        entry_codec_of(kind as int) matches Some(c) ==> c == CodecId::H264 || c == CodecId::H265
            || c == CodecId::AAC,
        entry_codec(entry, TrackKind::Video) matches Ok(c) ==> Some(c.0) == entry_codec_of(
            kind as int,
        ) && c.0 != CodecId::AAC,
        entry_codec(entry, TrackKind::Audio) matches Ok(c) ==> Some(c.0) == entry_codec_of(
            kind as int,
        ) && c.0 == CodecId::AAC,
        entry_codec(entry, TrackKind::Video) is Ok || entry_codec(entry, TrackKind::Audio) is Ok
            <==> entry_codec_of(kind as int) is Some,
{
}

/// A descriptor length in four groups of seven bits, the highest first, all but
/// the last with the top bit set, or in one group alone.
pub proof fn law_descriptor_length_is_read(
    head: Seq<u8>,
    rest: Seq<u8>,
    a: u8,
    b: u8,
    c: u8,
    d: u8,
)
    requires
        a < 128,
        b < 128,
        c < 128,
        d < 128,
    ensures
        ({
            let long = head + seq![(a + 128) as u8, (b + 128) as u8, (c + 128) as u8, d] + rest;
            let short = head + seq![d] + rest;
            let at = head.len() as int;
            &&& descriptor_len(long, at, 0, 0) == Some(
                (a * 0x20_0000 + b * 0x4000 + c * 0x80 + d, at + 4),
            )
            &&& descriptor_len(short, at, 0, 0) == Some((d as int, at + 1))
        }),
{
    let groups = seq![(a + 128) as u8, (b + 128) as u8, (c + 128) as u8, d];
    let long = head + groups + rest;
    let at = head.len() as int;
    assert(long[at] == groups[0] && long[at + 1] == groups[1] && long[at + 2] == groups[2]
        && long[at + 3] == groups[3]);
    reveal_with_fuel(descriptor_len, 5);
    let short = head + seq![d] + rest;
    assert(short[at] == d);
}

/// A length in the short form is its own byte; in the long form its first byte
/// says how many follow, the highest first.
pub proof fn law_ber_length_is_read(n: u8, a: u8, b: u8, rest: Seq<u8>)
    requires
        n < 128,
    ensures
        ber_len(seq![n] + rest) == Some((n as int, 1int)),
        ber_len(seq![0x81u8, a] + rest) == Some((a as int, 2int)),
        ber_len(seq![0x82u8, a, b] + rest) == Some((a * 256 + b, 3int)),
{
    let two = seq![0x81u8, a] + rest;
    let three = seq![0x82u8, a, b] + rest;
    assert((seq![n] + rest)[0] == n);
    assert(two[0] == 0x81 && two[1] == a);
    assert(three[0] == 0x82 && three[1] == a && three[2] == b);
    reveal_with_fuel(ber_value, 3);
}

/// The first sequence parameter set of an AVC record stands behind eight bytes,
/// the last two of which are its length.
pub proof fn law_first_sps_is_read(head: Seq<u8>, sps: Seq<u8>, rest: Seq<u8>)
    requires
        head.len() == 6,
        head[5] % 32 > 0,
        sps.len() < 0x1_0000,
    ensures
        first_sps(CodecId::H264, head + be16(sps.len() as int) + sps + rest) == Some(sps),
        first_sps(CodecId::H265, head + be16(sps.len() as int) + sps + rest) is None,
{
    let n = sps.len() as int;
    let config = head + be16(n) + sps + rest;
    crate::bytes::lemma_be16(n);
    assert(config[5] == head[5]);
    assert(config[6] == be16(n)[0] && config[7] == be16(n)[1]);
    assert(u16_at(config, 6) == n);
    assert(config.subrange(8, 8 + n) =~= sps);
}

/// A track that is found joins those known: in place of the first with its
/// number, or behind all of them.
pub proof fn law_track_joins(tracks: Seq<FragmentTrackModel>, t: FragmentTrackModel, i: int)
    requires
        0 <= i <= tracks.len(),
        forall|k: int| 0 <= k < i ==> (#[trigger] tracks[k]).id != t.id,
        i < tracks.len() ==> tracks[i].id == t.id,
    ensures
        i < tracks.len() ==> with_fragment_track(tracks, t) == tracks.update(i, t),
        i == tracks.len() ==> with_fragment_track(tracks, t) == tracks.push(t),
{
    lemma_index(tracks, t.id, i, 0);
}

proof fn lemma_index(tracks: Seq<FragmentTrackModel>, id: u32, i: int, from: int)
    requires
        0 <= from <= i <= tracks.len(),
        forall|k: int| 0 <= k < i ==> (#[trigger] tracks[k]).id != id,
        i < tracks.len() ==> tracks[i].id == id,
    ensures
        track_index(tracks, id, from) == if i < tracks.len() {
            Some(i)
        } else {
            None
        },
    decreases i - from,
{
    if from < i {
        assert(tracks[from].id != id);
        lemma_index(tracks, id, i, from + 1);
    }
}

/// What is told of a track: picture size of video, and of audio the clock as its
/// sampling frequency and at least one channel.
pub proof fn law_track_is_told(t: FragmentTrackModel)
    ensures
        t.codec == CodecId::H264 || t.codec == CodecId::H265 ==> (info_of(
            t,
        ) matches TrackInfo::Video(v) && v.codec == t.codec && v.width == t.width && v.height
            == t.height),
        t.codec == CodecId::AAC ==> (info_of(t) matches TrackInfo::Audio(a) && a.codec == t.codec
            && a.sample_rate == t.timescale && (t.channels > 0 ==> a.channels == t.channels) && (
        t.channels == 0 ==> a.channels == 1) && a.bits_per_sample == 16),
        ({
            let f = fragment_config(t);
            &&& f.config_frame && f.data == t.config && f.track_id == t.id && f.codec == t.codec
            &&& f.pts == 0 && f.dts == 0 && f.timestamp == 0
            &&& t.codec == CodecId::H264 ==> f.payload_format == PayloadFormat::Avcc
                && f.frame_type == FrameType::Video
            &&& t.codec == CodecId::H265 ==> f.payload_format == PayloadFormat::Hvcc
                && f.frame_type == FrameType::Video
            &&& t.codec == CodecId::AAC ==> f.payload_format
                == PayloadFormat::AacAudioSpecificConfig && f.frame_type == FrameType::Audio
        }),
{
}

/// The configurations that are handed out: one of each track that has one, in
/// the order of the tracks.
pub proof fn law_configurations_are_handed_out(tracks: Seq<FragmentTrackModel>, n: int) -> (places:
    Seq<int>)
    requires
        0 <= n <= tracks.len(),
    ensures
        places.len() == fragment_configs(tracks, n).len(),
        forall|i: int|
            0 <= i < places.len() ==> 0 <= #[trigger] places[i] < n && tracks[places[i]].config.len()
                > 0 && fragment_configs(tracks, n)[i].data == tracks[places[i]].config
                && fragment_configs(tracks, n)[i].track_id == tracks[places[i]].id,
        forall|i: int, j: int|
            0 <= i < j < places.len() ==> #[trigger] places[i] < #[trigger] places[j],
        forall|k: int|
            0 <= k < n && (#[trigger] tracks[k]).config.len() > 0 ==> places.contains(k),
    decreases n,
{
    if n == 0 {
        Seq::empty()
    } else {
        let before = law_configurations_are_handed_out(tracks, n - 1);
        if tracks[n - 1].config.len() == 0 {
            before
        } else {
            let places = before.push(n - 1);
            assert forall|k: int|
                0 <= k < n && (#[trigger] tracks[k]).config.len() > 0 implies places.contains(
                k,
            ) by {
                if k < n - 1 {
                    assert(before.contains(k));
                    let i = choose|i: int| 0 <= i < before.len() && before[i] == k;
                    assert(places[i] == k);
                } else {
                    assert(places[before.len() as int] == k);
                }
            }
            places
        }
    }
}

// ── media segment ───────────────────────────────────────────────────────

proof fn lemma_run_at(
    data: Seq<u8>,
    t: FragmentTrackModel,
    d: FragmentDefaults,
    list: Seq<BoxView>,
    i: int,
    j: int,
    time: int,
    offset: int,
)
    requires
        0 <= i <= j < list.len(),
        forall|k: int| i <= k < j ==> (#[trigger] list[k]).kind != TRUN,
    ensures
        runs_frames(data, t, d, list, i, time, offset) == runs_frames(
            data,
            t,
            d,
            list,
            j,
            time,
            offset,
        ),
    decreases j - i,
{
    if i < j {
        assert(list[i].kind != TRUN);
        lemma_run_at(data, t, d, list, i + 1, j, time, offset);
    }
}

proof fn lemma_no_more_runs(
    data: Seq<u8>,
    t: FragmentTrackModel,
    d: FragmentDefaults,
    list: Seq<BoxView>,
    i: int,
    time: int,
    offset: int,
)
    requires
        0 <= i <= list.len(),
        forall|k: int| i <= k < list.len() ==> (#[trigger] list[k]).kind != TRUN,
    ensures
        runs_frames(data, t, d, list, i, time, offset) == Ok::<Seq<FrameModel>, FragmentError>(
            Seq::empty(),
        ),
    decreases list.len() - i,
{
    if i < list.len() {
        assert(list[i].kind != TRUN);
        lemma_no_more_runs(data, t, d, list, i + 1, time, offset);
    }
}

/// A track fragment with two runs: the first sample of the second is decoded
/// when the last of the first has lasted, and where the second does not say
/// where its samples lie, they lie behind those of the first.
pub proof fn law_runs_follow_one_another(
    data: Seq<u8>,
    t: FragmentTrackModel,
    d: FragmentDefaults,
    list: Seq<BoxView>,
    a: int,
    b: int,
    implicit: int,
    p: RunPlan,
    q: RunPlan,
    p_times: Seq<int>,
    p_places: Seq<int>,
    q_times: Seq<int>,
    q_places: Seq<int>,
)
    requires
        t.timescale > 0,
        d.base < 0x8000_0000_0000_0000,
        0 <= a < b < list.len(),
        list[a].kind == TRUN,
        list[b].kind == TRUN,
        forall|k: int|
            0 <= k < list.len() && k != a && k != b ==> (#[trigger] list[k]).kind != TRUN,
        span_body(data, list[a]) == run_body(p),
        span_body(data, list[b]) == run_body(q),
        p.records.len() <= u32::MAX,
        q.records.len() <= u32::MAX,
        run_goes(p, d, p_times, p_places),
        run_goes(q, d, q_times, q_places),
        times_fit(p, p_times),
        times_fit(q, q_times),
        q_times[0] == p_times[p.records.len() as int],
        run_begins(p, d, implicit, p_places[0]),
        run_begins(q, d, p_places[p.records.len() as int], q_places[0]),
        0 <= p_places[0],
        0 <= q_places[0],
        p_places[p.records.len() as int] <= data.len(),
        q_places[q.records.len() as int] <= data.len(),
    ensures
        ({
            let r = runs_frames(data, t, d, list, 0, p_times[0], implicit);
            let n = p.records.len() as int;
            let m = q.records.len() as int;
            &&& r is Ok && r->Ok_0.len() == n + m
            &&& forall|k: int|
                0 <= k < n ==> frame_shows(
                    #[trigger] r->Ok_0[k],
                    t,
                    data.subrange(p_places[k], p_places[k + 1]),
                    p_times[k],
                    p_times[k] + delay_of(p, k),
                    flags_of_sample(p, d, k),
                )
            &&& forall|k: int|
                n <= k < n + m ==> frame_shows(
                    #[trigger] r->Ok_0[k],
                    t,
                    data.subrange(q_places[k - n], q_places[k - n + 1]),
                    q_times[k - n],
                    q_times[k - n] + delay_of(q, k - n),
                    flags_of_sample(q, d, k - n),
                )
        }),
{
    let n = p.records.len() as int;
    let m = q.records.len() as int;
    law_run_is_read(data, t, p, d, implicit, p_times, p_places);
    law_run_is_read(data, t, q, d, p_places[n], q_times, q_places);
    let rp = run_header(run_body(p), d, implicit)->Ok_0;
    let rq = run_header(run_body(q), d, p_places[n])->Ok_0;
    let fp = run_frames(data, t, rp, d, rp.count, rp.records_at, p_times[0], rp.samples_at)->Ok_0;
    let fq = run_frames(data, t, rq, d, rq.count, rq.records_at, q_times[0], rq.samples_at)->Ok_0;
    lemma_run_at(data, t, d, list, 0, a, p_times[0], implicit);
    lemma_run_at(data, t, d, list, a + 1, b, p_times[n], p_places[n]);
    lemma_no_more_runs(data, t, d, list, b + 1, fq.1, fq.2);
    assert(fq.0 + Seq::<FrameModel>::empty() =~= fq.0);
    assert(runs_frames(data, t, d, list, b, q_times[0], p_places[n]) == Ok::<
        Seq<FrameModel>,
        FragmentError,
    >(fq.0));
    let all = fp.0 + fq.0;
    assert(runs_frames(data, t, d, list, a, p_times[0], implicit) == Ok::<
        Seq<FrameModel>,
        FragmentError,
    >(all));
    assert forall|k: int| 0 <= k < n implies frame_shows(
        #[trigger] all[k],
        t,
        data.subrange(p_places[k], p_places[k + 1]),
        p_times[k],
        p_times[k] + delay_of(p, k),
        flags_of_sample(p, d, k),
    ) by {
        assert(all[k] == fp.0[k]);
    }
    assert forall|k: int| n <= k < n + m implies frame_shows(
        #[trigger] all[k],
        t,
        data.subrange(q_places[k - n], q_places[k - n + 1]),
        q_times[k - n],
        q_times[k - n] + delay_of(q, k - n),
        flags_of_sample(q, d, k - n),
    ) by {
        assert(all[k] == fq.0[k - n]);
    }
}

/// The frames that a demuxer hands out of a segment are those that stand in it,
/// each once, in ascending order of the times at which they are decoded; frames
/// of one time come in the order of their tracks.
pub proof fn law_frames_come_in_decode_order(frames: Seq<FrameModel>, out: Seq<FrameModel>) -> (p:
    Seq<int>)
    requires
        in_decode_order(frames, out),
    ensures
        out.len() == frames.len(),
        p.len() == frames.len(),
        forall|i: int|
            0 <= i < p.len() ==> 0 <= #[trigger] p[i] < frames.len() && out[i] == frames[p[i]],
        forall|i: int, j: int| 0 <= i < j < p.len() ==> #[trigger] p[i] != #[trigger] p[j],
        forall|i: int, j: int|
            0 <= i < j < out.len() ==> {
                let a = #[trigger] out[i];
                let b = #[trigger] out[j];
                a.dts < b.dts || (a.dts == b.dts && a.track_id <= b.track_id)
            },
{
    let p = choose|p: Seq<int>|
        #[trigger] is_stable_order(dts_keys(frames), p) && out == Seq::new(
            p.len(),
            |i: int| frames[p[i]],
        );
    let keys = dts_keys(frames);
    assert forall|i: int, j: int| 0 <= i < j < p.len() implies #[trigger] p[i] != #[trigger] p[j] by {
        let a = keys[p[i]];
        let b = keys[p[j]];
    }
    assert forall|i: int, j: int| 0 <= i < j < out.len() implies {
        let a = #[trigger] out[i];
        let b = #[trigger] out[j];
        a.dts < b.dts || (a.dts == b.dts && a.track_id <= b.track_id)
    } by {
        assert(out[i] == frames[p[i]] && out[j] == frames[p[j]]);
        let a = keys[p[i]];
        let b = keys[p[j]];
        assert(a.0 == frames[p[i]].dts && b.0 == frames[p[j]].dts);
    }
    p
}

} // verus!
