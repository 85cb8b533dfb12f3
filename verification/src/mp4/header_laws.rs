//! What the headers of a written file and of a written segment say.
use vstd::prelude::*;
use crate::bytes::{be16, be24, be32, group_be_len, lemma_be16, lemma_u32_in, u16_at, u32_at};
use crate::mp4::boxes::{MFHD, MVHD, TKHD, box_bytes};
use crate::mp4::fmp4::{FragmentSample, mfhd_body, moof_body};
use crate::mp4::layout_laws::whole_ms;
use crate::mp4::muxer::{
    EntryModel, MuxerModel, TrackParts, audio_parts, moov_bytes, parts_ms, total_duration, track_ms,
    trak_bytes, video_parts,
};
use crate::mp4::writer::{full_box_bytes, matrix_bytes, mvhd_fields, tkhd_fields, zeros};

verus! {

proof fn lemma_word(s: Seq<u8>, head: Seq<u8>, n: int, tail: Seq<u8>, at: int)
    requires
        0 <= n < 0x1_0000_0000,
        s == head + be32(n) + tail,
        head.len() == at,
    ensures
        u32_at(s, at) == n,
{
    lemma_u32_in(head, n, tail);
}

proof fn lemma_half(s: Seq<u8>, head: Seq<u8>, n: int, tail: Seq<u8>, at: int)
    requires
        0 <= n < 0x1_0000,
        s == head + be16(n) + tail,
        head.len() == at,
    ensures
        u16_at(s, at) == n,
{
    lemma_be16(n);
    assert(s[at] == be16(n)[0] && s[at + 1] == be16(n)[1]);
}

/// The bytes of a box with version and flags before its fields.
pub open spec fn box_front(kind: u32, size: int, version: u8, flags: int) -> Seq<u8> {
    be32(size) + be32(kind as int) + (seq![version] + be24(flags))
}

proof fn lemma_front(kind: u32, version: u8, flags: int, data: Seq<u8>)
    ensures
        full_box_bytes(kind, version, flags, data) == box_front(
            kind,
            12 + data.len() as int,
            version,
            flags,
        ) + data,
        box_front(kind, 12 + data.len() as int, version, flags).len() == 12,
{
    broadcast use group_be_len;

    reveal(box_bytes);
    let body = seq![version] + be24(flags) + data;
    assert(body.len() == 4 + data.len());
    assert(full_box_bytes(kind, version, flags, data) =~= box_front(
        kind,
        12 + data.len() as int,
        version,
        flags,
    ) + data);
}

/// The movie header gives the milliseconds of the longer track, on a clock of
/// a thousand ticks a second. Here the samples of a track last `ticks` ticks of
/// its clock together.
pub proof fn law_movie_lasts_as_its_longer_track(m: MuxerModel)
    requires
        total_duration(video_parts(m).entries) * 1000 < 0x1_0000_0000 * 90000,
        total_duration(audio_parts(m).entries) * 1000 < 0x1_0000_0000 * audio_parts(m).timescale,
    ensures
        ({
            let ms = u32_at(moov_bytes(m), 24);
            let v = video_parts(m);
            let a = audio_parts(m);
            let v_ticks = total_duration(v.entries);
            let a_ticks = total_duration(a.entries);
            &&& u32_at(moov_bytes(m), 20) == 1000
            &&& v.entries.len() > 0 ==> v_ticks * 1000 < (ms + 1) * 90000
            &&& a.entries.len() > 0 ==> a_ticks * 1000 < (ms + 1) * a.timescale
            &&& ms == 0 || (v.entries.len() > 0 && whole_ms(v_ticks, 90000, ms)) || (
            a.entries.len() > 0 && whole_ms(a_ticks, a.timescale as int, ms))
            &&& v.timescale == 90000
        }),
{
    broadcast use group_be_len;

    reveal(moov_bytes);
    reveal(mvhd_fields);
    let v = video_parts(m);
    let a = audio_parts(m);
    lemma_total(v.entries);
    lemma_total(a.entries);
    lemma_ms(v);
    lemma_ms(a);
    let ms = crate::mp4::muxer::movie_ms(m);
    let next: u32 = if v.entries.len() > 0 && a.entries.len() > 0 {
        3
    } else {
        2
    };
    let fields = mvhd_fields(ms, next);
    lemma_front(MVHD, 0, 0, fields);
    let front = box_front(MVHD, 12 + fields.len() as int, 0, 0);
    let later = (if v.entries.len() > 0 {
        box_bytes(crate::mp4::boxes::TRAK, trak_bytes(v))
    } else {
        Seq::empty()
    }) + (if a.entries.len() > 0 {
        box_bytes(crate::mp4::boxes::TRAK, trak_bytes(a))
    } else {
        Seq::empty()
    });
    let end = be32(0x1_0000) + be16(0x0100) + be16(0) + zeros(8) + matrix_bytes() + zeros(24)
        + be32(next as int);
    assert(fields =~= be32(0) + be32(0) + be32(1000) + be32(ms as int) + end);
    let all = moov_bytes(m);
    assert(all =~= front + fields + later);
    let h1 = front + be32(0) + be32(0);
    let h2 = h1 + be32(1000);
    assert(all =~= h1 + be32(1000) + (be32(ms as int) + end + later));
    assert(all =~= h2 + be32(ms as int) + (end + later));
    lemma_word(all, h1, 1000, be32(ms as int) + end + later, 20);
    lemma_word(all, h2, ms as int, end + later, 24);
}

proof fn lemma_total(entries: Seq<EntryModel>)
    ensures
        total_duration(entries) >= 0,
    decreases entries.len(),
{
    if entries.len() > 0 {
        lemma_total(entries.drop_last());
    }
}

proof fn lemma_ms(t: TrackParts)
    requires
        t.timescale > 0,
        0 <= total_duration(t.entries),
        total_duration(t.entries) * 1000 < 0x1_0000_0000 * t.timescale,
    ensures
        0 <= parts_ms(t) < 0x1_0000_0000,
        t.entries.len() > 0 ==> whole_ms(total_duration(t.entries), t.timescale as int, parts_ms(t)),
        forall|ms: int|
            ms >= parts_ms(t) && t.entries.len() > 0 ==> total_duration(t.entries) * 1000 < (
            #[trigger] (ms + 1)) * t.timescale,
{
    let d = total_duration(t.entries) * 1000;
    let c = t.timescale as int;
    let q = d / c;
    assert(q * c <= d < (q + 1) * c && 0 <= q) by (nonlinear_arith)
        requires
            c > 0,
            0 <= d,
            q == d / c,
    ;
    assert(q < 0x1_0000_0000) by (nonlinear_arith)
        requires
            c > 0,
            q * c <= d,
            d < 0x1_0000_0000 * c,
    ;
    assert forall|ms: int|
        ms >= parts_ms(t) && t.entries.len() > 0 implies total_duration(t.entries) * 1000 < (
    #[trigger] (ms + 1)) * t.timescale by {
        assert((q + 1) * c <= (ms + 1) * c) by (nonlinear_arith)
            requires
                ms >= q,
                c > 0,
        ;
    }
}

/// The samples of a track last as long as all of them together. Here `ends[i]`
/// is when sample `i` begins, and the last one when all are over.
pub proof fn law_durations_add_up(entries: Seq<EntryModel>, ends: Seq<int>)
    requires
        ends.len() == entries.len() + 1,
        ends[0] == 0,
        forall|i: int| 0 <= i < entries.len() ==> ends[i + 1] == ends[i] + (#[trigger]
            entries[i]).duration,
    ensures
        total_duration(entries) == ends.last(),
    decreases entries.len(),
{
    if entries.len() > 0 {
        let front = entries.drop_last();
        let before = ends.drop_last();
        assert forall|i: int| 0 <= i < front.len() implies before[i + 1] == before[i] + (#[trigger]
            front[i]).duration by {
            assert(front[i] == entries[i]);
        }
        law_durations_add_up(front, before);
        let n = entries.len() - 1;
        assert(entries[n] == entries.last());
        assert(ends[n + 1] == ends[n] + entries[n].duration);
    }
}

/// A track header gives the number of the track, its duration in whole
/// milliseconds, full volume for a track without pictures, and the size of
/// its pictures in whole pixels.
pub proof fn law_track_header_is_written(t: TrackParts)
    requires
        t.timescale > 0,
        t.duration * 1000 < 0x1_0000_0000 * t.timescale,
    ensures
        ({
            let b = trak_bytes(t);
            &&& u32_at(b, 20) == t.track_id
            &&& whole_ms(t.duration as int, t.timescale as int, u32_at(b, 28))
            &&& u16_at(b, 44) == if t.width == 0 {
                256int
            } else {
                0
            }
            &&& u16_at(b, 84) == t.width % 65536
            &&& u16_at(b, 86) == 0
            &&& u16_at(b, 88) == t.height % 65536
            &&& u16_at(b, 90) == 0
        }),
{
    broadcast use group_be_len;

    reveal(trak_bytes);
    reveal(tkhd_fields);
    let ms = track_ms(t);
    let d = t.duration * 1000;
    let c = t.timescale as int;
    let q = d / c;
    assert(q * c <= d < (q + 1) * c && 0 <= q) by (nonlinear_arith)
        requires
            c > 0,
            0 <= d,
            q == d / c,
    ;
    assert(q < 0x1_0000_0000) by (nonlinear_arith)
        requires
            c > 0,
            q * c <= d,
            d < 0x1_0000_0000 * c,
    ;
    assert(ms == q);
    let volume = crate::mp4::writer::track_volume(t.width);
    let fields = tkhd_fields(t.track_id, ms, volume, t.width, t.height);
    lemma_front(TKHD, 0, 7, fields);
    let front = box_front(TKHD, 12 + fields.len() as int, 0, 7);
    let later = box_bytes(crate::mp4::boxes::MDIA, crate::mp4::muxer::mdia_bytes(t));
    let all = trak_bytes(t);
    let id = be32(t.track_id as int);
    let time = be32(ms as int);
    let sound = be16(volume as int);
    let w = crate::mp4::writer::fixed16(t.width as int);
    let h = crate::mp4::writer::fixed16(t.height as int);
    let h1 = front + be32(0) + be32(0);
    let h2 = h1 + id + be32(0);
    let h3 = h2 + time + zeros(8) + be16(0) + be16(0);
    let h4 = h3 + sound + be16(0) + matrix_bytes();
    let h5 = h4 + be32(w);
    let t5 = later;
    let t4 = be32(h) + later;
    let t3 = be16(0) + matrix_bytes() + be32(w) + t4;
    let t2 = zeros(8) + be16(0) + be16(0) + sound + t3;
    let t1 = be32(0) + time + t2;
    assert(all =~= front + fields + later);
    assert(all =~= h1 + id + t1);
    assert(all =~= h2 + time + t2);
    assert(all =~= h3 + sound + t3);
    assert(all =~= h4 + be32(w) + t4);
    assert(all =~= h5 + be32(h) + t5);
    assert(matrix_bytes().len() == 36);
    lemma_word(all, h1, t.track_id as int, t1, 20);
    lemma_word(all, h2, ms as int, t2, 28);
    lemma_half(all, h3, volume as int, t3, 44);
    lemma_word(all, h4, w, t4, 84);
    lemma_word(all, h5, h, t5, 88);
    lemma_halves(all, 84, t.width as int % 65536);
    lemma_halves(all, 88, t.height as int % 65536);
}

proof fn lemma_halves(s: Seq<u8>, at: int, n: int)
    requires
        0 <= n < 0x1_0000,
        u32_at(s, at) == n * 0x1_0000,
    ensures
        u16_at(s, at) == n,
        u16_at(s, at + 2) == 0,
{
    let low = s[at + 2] * 0x100 + s[at + 3];
    let high = s[at] * 0x100 + s[at + 1];
    assert(u32_at(s, at) == high * 0x1_0000 + low);
    assert(0 <= low < 0x1_0000);
}

/// The header of a fragment gives the number of its segment.
pub proof fn law_fragment_is_numbered(
    sequence: u64,
    start_time: u64,
    video: Seq<FragmentSample>,
    audio: Seq<FragmentSample>,
)
    requires
        sequence <= u32::MAX,
    ensures
        u32_at(moof_body(sequence, start_time, video, audio), 12) == sequence,
{
    broadcast use group_be_len;

    reveal(box_bytes);
    reveal(moof_body);
    let body = mfhd_body(sequence);
    let all = moof_body(sequence, start_time, video, audio);
    let head = be32(8 + body.len() as int) + be32(MFHD as int) + be32(0);
    let tail = all.skip(16);
    assert(all =~= head + be32(sequence as int) + tail);
    lemma_word(all, head, sequence as int, tail, 12);
}

} // verus!
