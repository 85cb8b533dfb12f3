//! A file that the muxer wrote gives its samples back.
use vstd::prelude::*;
use crate::bytes::{be16, be24, be32, lemma_be32, u32_at};
use crate::media::CodecId;
use crate::mp4::boxes::{
    BoxModel, Mp4Error, AVC1, AVCC, DINF, FTYP, HDLR, HEV1, HVCC, MDAT, MDHD, MDIA, MINF, MOOV,
    MP4A, MVHD, SMHD, SOUN, STBL, STCO, STSC, STSD, STSS, STSZ, STTS, CO64, TKHD, TRAK, VIDE, VMHD,
    box_bytes, boxes_of, last_box, lemma_box_len,
};
use crate::mp4::demuxer::{
    HeadModel, ParsedModel, TrackModel, file_tracks, hdlr_kind, mdhd_duration, mdhd_timescale,
    mdia_head, movie_tracks, sample_tables, tkhd_track_id, track_head, trak_model, with_track,
};
use crate::mp4::entries::{
    TrackKind, child_at, child_box, entry_codec, first_child, is_first_entry, lemma_first_child,
    stsd_codec,
};
use crate::mp4::layout::{
    SampleModel, TablesModel, sample_model, sample_starts, samples_in_chunk, sum_durations,
    sum_sizes, ticks_to_ms, track_samples,
};
use crate::mp4::muxer::{
    EntryModel, MuxerModel, TrackParts, audio_parts, durations_of, file_bytes, mdia_bytes,
    minf_bytes, moov_bytes, payload_of, sizes_of, trak_bytes, two_tracks, video_parts,
    with_durations,
};
use crate::mp4::tables::{
    entry_count, stco_offsets, stsc_entries, stsz_sizes, stts_durations, stts_runs,
};
use crate::mp4::writer::{
    at_least_one, common_size, dinf_bytes, duration_runs, ftyp_bytes, full_box_bytes, run_bytes,
    sample_entry_bytes, u32s_bytes, zeros, visual_fields,
};

verus! {

broadcast use crate::bytes::group_be_len;

/// Walking over a written box finds it, and goes on behind it.
pub proof fn lemma_boxes_cons(kind: u32, body: Seq<u8>, rest: Seq<u8>)
    requires
        8 + body.len() <= u32::MAX,
    ensures
        boxes_of(box_bytes(kind, body) + rest) == match boxes_of(rest) {
            Ok(boxes) => Ok::<Seq<BoxModel>, Mp4Error>(seq![BoxModel { kind, body }] + boxes),
            Err(e) => Err(e),
        },
{
    reveal(box_bytes);
    let data = box_bytes(kind, body) + rest;
    let size = 8 + body.len() as int;
    lemma_be32(size);
    lemma_be32(kind as int);
    assert(data[0] == be32(size)[0] && data[1] == be32(size)[1] && data[2] == be32(size)[2]
        && data[3] == be32(size)[3]);
    assert(u32_at(data, 0) == size);
    assert(data[4] == be32(kind as int)[0] && data[5] == be32(kind as int)[1] && data[6] == be32(
        kind as int,
    )[2] && data[7] == be32(kind as int)[3]);
    assert(u32_at(data, 4) == kind);
    assert(data.skip(size) =~= rest);
    assert(data.subrange(8, size) =~= body);
}

/// Nothing but a written box.
pub proof fn lemma_boxes_one(kind: u32, body: Seq<u8>)
    requires
        8 + body.len() <= u32::MAX,
    ensures
        boxes_of(box_bytes(kind, body)) == Ok::<Seq<BoxModel>, Mp4Error>(
            seq![BoxModel { kind, body }],
        ),
{
    lemma_boxes_cons(kind, body, Seq::empty());
    assert(box_bytes(kind, body) + Seq::<u8>::empty() =~= box_bytes(kind, body));
    assert(seq![BoxModel { kind, body }] + Seq::<BoxModel>::empty() =~= seq![
        BoxModel { kind, body },
    ]);
}

/// The body of a box with version and flags.
pub open spec fn full_body(version: u8, flags: int, data: Seq<u8>) -> Seq<u8> {
    seq![version] + be24(flags) + data
}

/// The 32-bit number that stands behind `k` such numbers.
proof fn lemma_word_at(head: Seq<u8>, n: int, tail: Seq<u8>, s: Seq<u8>, at: int)
    requires
        0 <= n <= u32::MAX,
        at == head.len(),
        s == head + be32(n) + tail,
    ensures
        u32_at(s, at) == n,
{
    crate::bytes::lemma_u32_in(head, n, tail);
}

// ── runs of durations ───────────────────────────────────────────────────

/// The durations that runs stand for.
pub open spec fn expand(runs: Seq<(int, u32)>) -> Seq<u32>
    decreases runs.len(),
{
    if runs.len() == 0 {
        Seq::empty()
    } else {
        expand(runs.drop_last()) + Seq::new(runs.last().0 as nat, |i: int| runs.last().1)
    }
}

/// Runs stand for the durations they were made of.
pub proof fn lemma_expand_runs(durations: Seq<u32>)
    ensures
        expand(duration_runs(durations)) == Seq::new(
            durations.len(),
            |i: int| at_least_one(durations[i]),
        ),
    decreases durations.len(),
{
    let want = Seq::new(durations.len(), |i: int| at_least_one(durations[i]));
    if durations.len() == 0 {
        assert(expand(duration_runs(durations)) =~= want);
    } else {
        let init = durations.drop_last();
        lemma_expand_runs(init);
        crate::mp4::writer::lemma_runs_bound(init);
        let runs = duration_runs(init);
        let d = at_least_one(durations.last());
        let all = duration_runs(durations);
        let want_init = Seq::new(init.len(), |i: int| at_least_one(init[i]));
        assert(want =~= want_init.push(d));
        if runs.len() > 0 && runs.last().1 == d {
            assert(runs[runs.len() - 1].0 >= 1);
            let count = runs.last().0;
            assert(all.drop_last() =~= runs.drop_last());
            assert(Seq::new((count + 1) as nat, |i: int| d) =~= Seq::new(
                count as nat,
                |i: int| runs.last().1,
            ).push(d));
            assert(expand(all) =~= expand(runs).push(d));
        } else {
            assert(all.drop_last() =~= runs);
            assert(Seq::new(1nat, |i: int| d) =~= seq![d]);
            assert(expand(all) =~= expand(runs).push(d));
        }
    }
}

/// Each entry of a written time table takes eight bytes.
proof fn lemma_run_bytes_len(runs: Seq<(int, u32)>)
    ensures
        run_bytes(runs).len() == 8 * runs.len(),
    decreases runs.len(),
{
    if runs.len() > 0 {
        lemma_run_bytes_len(runs.drop_last());
    }
}

/// Reading the first `n` entries of a time table.
proof fn lemma_read_runs(body: Seq<u8>, runs: Seq<(int, u32)>, n: int)
    requires
        0 <= n <= runs.len(),
        body == be32(0) + be32(runs.len() as int) + run_bytes(runs),
        forall|i: int| 0 <= i < runs.len() ==> 0 <= (#[trigger] runs[i]).0 <= u32::MAX,
    ensures
        stts_runs(body, n) == expand(runs.take(n)),
    decreases n,
{
    if n > 0 {
        lemma_read_runs(body, runs, n - 1);
        let part = runs.take(n);
        assert(part.drop_last() =~= runs.take(n - 1));
        lemma_run_bytes_at(runs, n - 1);
        lemma_run_bytes_len(runs);
        let at = 8 * (n - 1);
        assert(0 <= runs[n - 1].0 <= u32::MAX);
        assert(body.subrange(8 + at, 8 + at + 8) =~= run_bytes(runs).subrange(at, at + 8));
        let word = body.subrange(8 + at, 8 + at + 8);
        lemma_be32(runs[n - 1].0);
        lemma_be32(runs[n - 1].1 as int);
        assert(word =~= be32(runs[n - 1].0) + be32(runs[n - 1].1 as int));
        assert(u32_at(body, 8 + at) == u32_at(word, 0));
        assert(u32_at(body, 8 + at + 4) == u32_at(word, 4));
        assert(u32_at(word, 0) == u32_at(be32(runs[n - 1].0), 0));
        assert(u32_at(word, 4) == u32_at(be32(runs[n - 1].1 as int), 0));
        assert(stts_runs(body, n) =~= expand(part));
    }
}

/// Where an entry of a written time table stands.
proof fn lemma_run_bytes_at(runs: Seq<(int, u32)>, i: int)
    requires
        0 <= i < runs.len(),
    ensures
        run_bytes(runs).len() == 8 * runs.len(),
        run_bytes(runs).subrange(8 * i, 8 * i + 8) == be32(runs[i].0) + be32(runs[i].1 as int),
    decreases runs.len(),
{
    lemma_run_bytes_len(runs);
    lemma_run_bytes_len(runs.drop_last());
    if i == runs.len() - 1 {
        assert(run_bytes(runs).subrange(8 * i, 8 * i + 8) =~= be32(runs[i].0) + be32(
            runs[i].1 as int,
        ));
    } else {
        lemma_run_bytes_at(runs.drop_last(), i);
        assert(run_bytes(runs).subrange(8 * i, 8 * i + 8) =~= run_bytes(runs.drop_last()).subrange(
            8 * i,
            8 * i + 8,
        ));
    }
}

/// The body of a written time table.
pub open spec fn stts_body(durations: Seq<u32>) -> Seq<u8> {
    let runs = duration_runs(durations);
    Seq::<u8>::empty() + be32(0) + be32(runs.len() as int) + run_bytes(runs)
}

/// A written time table gives the durations back.
pub proof fn lemma_stts_roundtrip(durations: Seq<u32>)
    requires
        0 < durations.len() <= u32::MAX,
        forall|i: int| 0 <= i < durations.len() ==> #[trigger] durations[i] > 0,
    ensures
        stts_durations(stts_body(durations), durations.len() as int) == Ok::<Seq<u32>, Mp4Error>(
            durations,
        ),
{
    let runs = duration_runs(durations);
    let body = stts_body(durations);
    crate::mp4::writer::lemma_runs_bound(durations);
    lemma_expand_runs(durations);
    lemma_run_bytes_len(runs);
    assert(body =~= be32(0) + be32(runs.len() as int) + run_bytes(runs));
    assert(forall|i: int|
        0 <= i < runs.len() ==> 0 <= (#[trigger] runs[i]).0 <= u32::MAX);
    lemma_word_at(be32(0), runs.len() as int, run_bytes(runs), body, 4);
    lemma_read_runs(body, runs, runs.len() as int);
    assert(runs.take(runs.len() as int) =~= runs);
    assert(Seq::new(durations.len(), |i: int| at_least_one(durations[i])) =~= durations);
}

// ── sizes ───────────────────────────────────────────────────────────────

proof fn lemma_u32s_at(table: Seq<u32>, n: int, i: int)
    requires
        0 <= i < n <= table.len(),
    ensures
        u32s_bytes(table, n).len() == 4 * n,
        u32s_bytes(table, n).subrange(4 * i, 4 * i + 4) == be32(table[i] as int),
    decreases n,
{
    lemma_u32s_len(table, n);
    lemma_u32s_len(table, n - 1);
    if i == n - 1 {
        assert(u32s_bytes(table, n).subrange(4 * i, 4 * i + 4) =~= be32(table[i] as int));
    } else {
        lemma_u32s_at(table, n - 1, i);
        assert(u32s_bytes(table, n).subrange(4 * i, 4 * i + 4) =~= u32s_bytes(
            table,
            n - 1,
        ).subrange(4 * i, 4 * i + 4));
    }
}

proof fn lemma_u32s_len(table: Seq<u32>, n: int)
    requires
        0 <= n,
    ensures
        u32s_bytes(table, n).len() == 4 * n,
    decreases n,
{
    if n > 0 {
        lemma_u32s_len(table, n - 1);
    }
}

/// The body of a written size table.
pub open spec fn stsz_body(sizes: Seq<u32>) -> Seq<u8> {
    Seq::<u8>::empty() + be32(0) + be32(common_size(sizes) as int) + be32(sizes.len() as int)
        + if common_size(sizes) == 0 {
        u32s_bytes(sizes, sizes.len() as int)
    } else {
        Seq::empty()
    }
}

/// A written size table gives the sizes back.
pub proof fn lemma_stsz_roundtrip(sizes: Seq<u32>, file_len: int)
    requires
        sizes.len() <= u32::MAX,
        sizes.len() * common_size(sizes) <= file_len,
    ensures
        stsz_sizes(stsz_body(sizes), file_len) == Ok::<Seq<usize>, Mp4Error>(
            Seq::new(sizes.len(), |i: int| sizes[i] as usize),
        ),
{
    let same = common_size(sizes);
    let body = stsz_body(sizes);
    let tail = if same == 0 {
        u32s_bytes(sizes, sizes.len() as int)
    } else {
        Seq::empty()
    };
    let want = Seq::new(sizes.len(), |i: int| sizes[i] as usize);
    lemma_u32s_len(sizes, sizes.len() as int);
    assert(body =~= be32(0) + be32(same as int) + (be32(sizes.len() as int) + tail));
    lemma_word_at(be32(0), same as int, be32(sizes.len() as int) + tail, body, 4);
    assert(body =~= (be32(0) + be32(same as int)) + be32(sizes.len() as int) + tail);
    lemma_word_at(be32(0) + be32(same as int), sizes.len() as int, tail, body, 8);
    if same != 0 {
        assert(Seq::new(u32_at(body, 8) as nat, |i: int| u32_at(body, 4) as usize) =~= want);
    } else {
        assert forall|i: int| 0 <= i < sizes.len() implies u32_at(body, 12 + 4 * i) == sizes[i] by {
            lemma_u32s_at(sizes, sizes.len() as int, i);
            let word = body.subrange(12 + 4 * i, 12 + 4 * i + 4);
            assert(word =~= tail.subrange(4 * i, 4 * i + 4));
            lemma_be32(sizes[i] as int);
            assert(u32_at(body, 12 + 4 * i) == u32_at(word, 0));
        }
        assert(Seq::new(u32_at(body, 8) as nat, |i: int| u32_at(body, 12 + 4 * i) as usize)
            =~= want);
    }
}

// ── media data ──────────────────────────────────────────────────────────

/// The sizes as a parser has them.
pub open spec fn parsed_sizes(entries: Seq<EntryModel>) -> Seq<usize> {
    Seq::new(entries.len(), |i: int| sizes_of(entries)[i] as usize)
}

/// The payload of the first `n` samples, and how long it is.
proof fn lemma_payload_prefix(entries: Seq<EntryModel>, n: int)
    requires
        0 <= n <= entries.len(),
        payload_of(entries).len() <= u32::MAX,
    ensures
        payload_of(entries.take(n)).len() <= payload_of(entries).len(),
        payload_of(entries.take(n)) == payload_of(entries).take(
            payload_of(entries.take(n)).len() as int,
        ),
        payload_of(entries.take(n)).len() == sum_sizes(parsed_sizes(entries), 0, n),
    decreases entries.len(), n,
{
    let all = payload_of(entries);
    if n < entries.len() {
        let init = entries.drop_last();
        assert(init.take(n) =~= entries.take(n));
        assert(all == payload_of(init) + entries.last().data);
        lemma_payload_prefix(init, n);
        let part = payload_of(entries.take(n));
        assert(part =~= all.take(part.len() as int));
        lemma_sums_agree(parsed_sizes(init), parsed_sizes(entries), n);
    } else {
        assert(entries.take(n) =~= entries);
        assert(all =~= all.take(all.len() as int));
        if n > 0 {
            let init = entries.drop_last();
            assert(all == payload_of(init) + entries.last().data);
            lemma_payload_prefix(init, n - 1);
            assert(init.take(n - 1) =~= init);
            lemma_sums_agree(parsed_sizes(init), parsed_sizes(entries), n - 1);
            assert(parsed_sizes(entries)[n - 1] == entries.last().data.len());
        }
    }
}

/// Sums depend on what is summed only.
proof fn lemma_sums_agree(a: Seq<usize>, b: Seq<usize>, n: int)
    requires
        0 <= n <= a.len(),
        n <= b.len(),
        forall|i: int| 0 <= i < n ==> a[i] == b[i],
    ensures
        sum_sizes(a, 0, n) == sum_sizes(b, 0, n),
    decreases n,
{
    if n > 0 {
        lemma_sums_agree(a, b, n - 1);
    }
}

/// Each sample stands in the payload behind the samples before it.
proof fn lemma_payload_at(entries: Seq<EntryModel>, k: int)
    requires
        0 <= k < entries.len(),
        payload_of(entries).len() <= u32::MAX,
    ensures
        ({
            let at = sum_sizes(parsed_sizes(entries), 0, k);
            let end = at + parsed_sizes(entries)[k];
            &&& 0 <= at <= end <= payload_of(entries).len()
            &&& parsed_sizes(entries)[k] == entries[k].data.len()
            &&& payload_of(entries).subrange(at, end) == entries[k].data
        }),
{
    lemma_payload_prefix(entries, k);
    lemma_payload_prefix(entries, k + 1);
    let head = entries.take(k + 1);
    assert(head.drop_last() =~= entries.take(k));
    assert(payload_of(head) == payload_of(entries.take(k)) + entries[k].data);
    let at = payload_of(entries.take(k)).len() as int;
    let end = payload_of(head).len() as int;
    assert(entries[k].data.len() <= u32::MAX);
    assert(payload_of(head).subrange(at, end) =~= entries[k].data);
    assert(payload_of(entries).subrange(at, end) =~= payload_of(head).subrange(at, end));
}

/// Samples of one common size fill the payload.
proof fn lemma_common_fits(entries: Seq<EntryModel>)
    requires
        payload_of(entries).len() <= u32::MAX,
    ensures
        sizes_of(entries).len() * common_size(sizes_of(entries)) <= payload_of(entries).len(),
{
    let sizes = sizes_of(entries);
    let c = common_size(sizes);
    lemma_payload_prefix(entries, entries.len() as int);
    assert(entries.take(entries.len() as int) =~= entries);
    if c != 0 {
        lemma_const_sum(parsed_sizes(entries), c as usize, entries.len() as int);
        assert(sizes.len() * c == c * sizes.len()) by (nonlinear_arith);
    } else {
        assert(sizes.len() * c == 0) by (nonlinear_arith)
            requires
                c == 0,
        ;
    }
}

proof fn lemma_const_sum(sizes: Seq<usize>, c: usize, n: int)
    requires
        0 <= n <= sizes.len(),
        forall|i: int| 0 <= i < sizes.len() ==> #[trigger] sizes[i] == c,
    ensures
        sum_sizes(sizes, 0, n) == c * n,
    decreases n,
{
    if n > 0 {
        lemma_const_sum(sizes, c, n - 1);
        assert(c * n == c * (n - 1) + c) by (nonlinear_arith);
    } else {
        assert(c * 0 == 0) by (nonlinear_arith);
    }
}

// ── tables of a track ───────────────────────────────────────────────────

/// The decoder configuration that a demuxer finds in a written track.
pub open spec fn found_config(t: TrackParts) -> Seq<u8> {
    match entry_codec(written_entry(t), kind_of(t)) {
        Ok((_, config)) => config,
        Err(_) => Seq::empty(),
    }
}

/// What a written track carries.
pub open spec fn kind_of(t: TrackParts) -> TrackKind {
    if t.handler == VIDE {
        TrackKind::Video
    } else {
        TrackKind::Audio
    }
}

/// The sample entry of a written track.
pub open spec fn written_entry(t: TrackParts) -> BoxModel {
    let bytes = sample_entry_bytes(t.codec, t.config, t.width, t.height);
    BoxModel {
        kind: match t.codec {
            CodecId::H264 => AVC1,
            CodecId::H265 => HEV1,
            _ => MP4A,
        },
        body: bytes.skip(8),
    }
}

/// Whether the codec of a track is one that files carry.
pub open spec fn codec_carried(t: TrackParts) -> bool {
    if t.handler == VIDE {
        t.codec == CodecId::H264 || t.codec == CodecId::H265
    } else {
        t.handler == SOUN && t.codec == CodecId::AAC
    }
}

/// The sample tables that a demuxer finds in a written track.
pub open spec fn found_tables(t: TrackParts) -> TablesModel {
    TablesModel {
        codec: t.codec,
        config: found_config(t),
        sizes: parsed_sizes(t.entries),
        durations: durations_of(t.entries),
        chunks: seq![(1u32, t.entries.len() as usize, 1u32)],
        offsets: seq![t.chunk_offset as u64],
        sync: Seq::empty(),
    }
}

/// The boxes of a written media information box.
pub open spec fn minf_boxes(t: TrackParts) -> Seq<BoxModel> {
    seq![
        BoxModel {
            kind: if t.handler == VIDE {
                VMHD
            } else {
                SMHD
            },
            body: if t.handler == VIDE {
                full_body(0, 1, zeros(8))
            } else {
                full_body(0, 0, zeros(4))
            },
        },
        BoxModel { kind: DINF, body: dinf_bytes().skip(8) },
        BoxModel { kind: STSD, body: stsd_body(t) },
        BoxModel { kind: STTS, body: stts_body(durations_of(t.entries)) },
        BoxModel { kind: STSC, body: stsc_body(t.entries.len() as int) },
        BoxModel { kind: STSZ, body: stsz_body(sizes_of(t.entries)) },
        BoxModel { kind: STCO, body: stco_body(t.chunk_offset) },
    ]
}

/// The body of a written sample description.
pub open spec fn stsd_body(t: TrackParts) -> Seq<u8> {
    Seq::<u8>::empty() + be32(0) + be32(1) + sample_entry_bytes(
        t.codec,
        t.config,
        t.width,
        t.height,
    )
}

/// The body of a written chunk table with samples.
pub open spec fn stsc_body(sample_count: int) -> Seq<u8> {
    Seq::<u8>::empty() + be32(0) + be32(1) + be32(1) + be32(sample_count) + be32(1)
}

/// The body of a written offset table.
pub open spec fn stco_body(chunk_offset: u32) -> Seq<u8> {
    Seq::<u8>::empty() + be32(0) + be32(1) + be32(chunk_offset as int)
}

/// The bytes of the first `n` boxes, one after the other.
pub open spec fn concat_boxes(b: Seq<BoxModel>, n: int) -> Seq<u8>
    decreases n,
{
    if n <= 0 {
        Seq::empty()
    } else {
        concat_boxes(b, n - 1) + box_bytes(b[n - 1].kind, b[n - 1].body)
    }
}

/// Walking over written boxes finds all of them, and goes on behind them.
pub proof fn lemma_walk(b: Seq<BoxModel>, n: int, rest: Seq<u8>)
    requires
        0 <= n <= b.len(),
        concat_boxes(b, n).len() <= u32::MAX,
    ensures
        boxes_of(concat_boxes(b, n) + rest) == match boxes_of(rest) {
            Ok(boxes) => Ok::<Seq<BoxModel>, Mp4Error>(b.take(n) + boxes),
            Err(e) => Err(e),
        },
    decreases n,
{
    if n == 0 {
        assert(concat_boxes(b, n) + rest =~= rest);
        if let Ok(boxes) = boxes_of(rest) {
            assert(b.take(n) + boxes =~= boxes);
        }
    } else {
        let last = b[n - 1];
        let bytes = box_bytes(last.kind, last.body);
        lemma_box_len(last.kind, last.body);
        lemma_walk(b, n - 1, bytes + rest);
        assert(concat_boxes(b, n) + rest =~= concat_boxes(b, n - 1) + (bytes + rest));
        lemma_boxes_cons(last.kind, last.body, rest);
        if let Ok(boxes) = boxes_of(rest) {
            assert(b.take(n - 1) + (seq![last] + boxes) =~= b.take(n) + boxes);
        }
    }
}

/// Walking over written boxes finds them.
pub proof fn lemma_walk_all(b: Seq<BoxModel>, bytes: Seq<u8>)
    requires
        bytes == concat_boxes(b, b.len() as int),
        bytes.len() <= u32::MAX,
    ensures
        boxes_of(bytes) == Ok::<Seq<BoxModel>, Mp4Error>(b),
{
    lemma_walk(b, b.len() as int, Seq::empty());
    assert(bytes + Seq::<u8>::empty() =~= bytes);
    assert(b.take(b.len() as int) + Seq::<BoxModel>::empty() =~= b);
}

/// Walking over a written media information box finds its parts.
proof fn lemma_minf_boxes(t: TrackParts)
    requires
        t.entries.len() > 0,
        minf_bytes(t).len() <= u32::MAX,
    ensures
        boxes_of(minf_bytes(t)) == Ok::<Seq<BoxModel>, Mp4Error>(minf_boxes(t)),
{
    let b = minf_boxes(t);
    let dref = full_box_bytes(
        crate::mp4::boxes::DREF,
        0,
        0,
        be32(1) + full_box_bytes(crate::mp4::boxes::URL_, 0, 1, Seq::empty()),
    );
    lemma_box_skip(DINF, dref);
    assert(minf_bytes(t) == concat_boxes(b, 7)) by {
        reveal(minf_bytes);
        reveal_with_fuel(concat_boxes, 8);
    }
    lemma_walk_all(b, minf_bytes(t));
}

/// A sample description with one entry stands for that entry.
proof fn lemma_single_entry(stsd: Seq<u8>, entry: BoxModel, handler: TrackKind)
    requires
        stsd == be32(0) + be32(1) + box_bytes(entry.kind, entry.body),
        stsd.len() <= u32::MAX,
    ensures
        stsd_codec(stsd, handler) == entry_codec(entry, handler),
{
    let bytes = box_bytes(entry.kind, entry.body);
    lemma_box_len(entry.kind, entry.body);
    lemma_word_at(be32(0), 1, bytes, stsd, 4);
    assert(stsd.skip(8) =~= bytes);
    lemma_boxes_one(entry.kind, entry.body);
    let entries = seq![entry];
    assert(is_first_entry(entries, 0));
    let c = choose|i: int| is_first_entry(entries, i);
    assert(is_first_entry(entries, c));
    assert(c == 0);
}

/// A written sample description names its codec.
proof fn lemma_stsd(t: TrackParts)
    requires
        codec_carried(t),
        stsd_body(t).len() <= u32::MAX,
    ensures
        stsd_codec(stsd_body(t), kind_of(t)) == Ok::<(CodecId, Seq<u8>), Mp4Error>(
            (t.codec, found_config(t)),
        ),
{
    let entry = written_entry(t);
    lemma_entry_bytes(t);
    let bytes = sample_entry_bytes(t.codec, t.config, t.width, t.height);
    assert(stsd_body(t) =~= be32(0) + be32(1) + bytes);
    lemma_single_entry(stsd_body(t), entry, kind_of(t));
}

/// A written sample entry is one box.
proof fn lemma_entry_bytes(t: TrackParts)
    requires
        codec_carried(t),
    ensures
        sample_entry_bytes(t.codec, t.config, t.width, t.height) == box_bytes(
            written_entry(t).kind,
            written_entry(t).body,
        ),
{
    let bytes = sample_entry_bytes(t.codec, t.config, t.width, t.height);
    let e = written_entry(t);
    match t.codec {
        CodecId::H264 => {
            lemma_box_skip(
                AVC1,
                visual_fields(t.width, t.height, zeros(32)) + box_bytes(
                    AVCC,
                    crate::mp4::records::avcc_record(t.config),
                ),
            );
        },
        CodecId::H265 => {
            lemma_box_skip(
                HEV1,
                visual_fields(t.width, t.height, zeros(32)) + box_bytes(
                    HVCC,
                    crate::mp4::records::hvcc_record(t.config),
                ),
            );
        },
        _ => {
            lemma_box_skip(
                MP4A,
                crate::mp4::writer::audio_fields(
                    2,
                    crate::mp4::records::config_rate(t.config),
                ) + box_bytes(
                    crate::mp4::boxes::ESDS,
                    be32(0) + crate::mp4::records::esds_descriptors(
                        crate::mp4::writer::asc_or_default(t.config),
                    ),
                ),
            );
        },
    }
}

pub proof fn lemma_box_skip(kind: u32, body: Seq<u8>)
    ensures
        box_bytes(kind, body).skip(8) == body,
{
    reveal(box_bytes);
    assert(box_bytes(kind, body).skip(8) =~= body);
}

/// A written chunk table says that one chunk holds all samples.
proof fn lemma_stsc(n: int)
    requires
        0 < n <= u32::MAX,
    ensures
        stsc_entries(stsc_body(n)) == Ok::<Seq<(u32, usize, u32)>, Mp4Error>(
            seq![(1u32, n as usize, 1u32)],
        ),
{
    let body = stsc_body(n);
    assert(body =~= be32(0) + be32(1) + (be32(1) + be32(n) + be32(1)));
    lemma_word_at(be32(0), 1, be32(1) + be32(n) + be32(1), body, 4);
    assert(body =~= (be32(0) + be32(1)) + be32(1) + (be32(n) + be32(1)));
    lemma_word_at(be32(0) + be32(1), 1, be32(n) + be32(1), body, 8);
    assert(body =~= (be32(0) + be32(1) + be32(1)) + be32(n) + be32(1));
    lemma_word_at(be32(0) + be32(1) + be32(1), n, be32(1), body, 12);
    assert(body =~= (be32(0) + be32(1) + be32(1) + be32(n)) + be32(1) + Seq::<u8>::empty());
    lemma_word_at(be32(0) + be32(1) + be32(1) + be32(n), 1, Seq::empty(), body, 16);
    let want = seq![(1u32, n as usize, 1u32)];
    let got = Seq::new(
        entry_count(body) as nat,
        |i: int|
            (
                u32_at(body, 8 + 12 * i) as u32,
                u32_at(body, 8 + 12 * i + 4) as usize,
                u32_at(body, 8 + 12 * i + 8) as u32,
            ),
    );
    assert(got[0] == want[0]);
    assert(got =~= want);
}

/// A written offset table gives its offset back.
proof fn lemma_stco(offset: u32)
    ensures
        stco_offsets(stco_body(offset)) == Ok::<Seq<u64>, Mp4Error>(seq![offset as u64]),
{
    let body = stco_body(offset);
    assert(body =~= be32(0) + be32(1) + be32(offset as int));
    lemma_word_at(be32(0), 1, be32(offset as int), body, 4);
    assert(body =~= (be32(0) + be32(1)) + be32(offset as int) + Seq::<u8>::empty());
    lemma_word_at(be32(0) + be32(1), offset as int, Seq::empty(), body, 8);
    let got = Seq::new(entry_count(body) as nat, |i: int| u32_at(body, 8 + 4 * i) as u64);
    assert(got[0] == offset as u64);
    assert(got =~= seq![offset as u64]);
}

/// A written track gives its tables back.
proof fn lemma_tables(t: TrackParts, file_len: int)
    requires
        codec_carried(t),
        0 < t.entries.len() <= u32::MAX,
        minf_bytes(t).len() <= u32::MAX,
        payload_of(t.entries).len() <= file_len <= u32::MAX,
        forall|i: int| 0 <= i < t.entries.len() ==> (#[trigger] t.entries[i]).duration > 0,
    ensures
        sample_tables(minf_boxes(t), kind_of(t), file_len) == Ok::<Option<TablesModel>, Mp4Error>(
            Some(found_tables(t)),
        ),
{
    let b = minf_boxes(t);
    lemma_minf_boxes(t);
    lemma_last_boxes(b);
    lemma_part_len(t);
    lemma_stsd(t);
    lemma_common_fits(t.entries);
    lemma_stsz_roundtrip(sizes_of(t.entries), file_len);
    assert(Seq::new(sizes_of(t.entries).len(), |i: int| sizes_of(t.entries)[i] as usize)
        =~= parsed_sizes(t.entries));
    assert forall|i: int| 0 <= i < durations_of(t.entries).len() implies #[trigger] durations_of(
        t.entries,
    )[i] > 0 by {
        assert(t.entries[i].duration > 0);
    }
    lemma_stts_roundtrip(durations_of(t.entries));
    lemma_stsc(t.entries.len() as int);
    lemma_stco(t.chunk_offset);
}

/// A part of a media information box is no longer than the whole.
proof fn lemma_part_len(t: TrackParts)
    ensures
        stsd_body(t).len() <= minf_bytes(t).len(),
{
    reveal(minf_bytes);
    lemma_box_len(STSD, stsd_body(t));
}

/// Where each box of a written media information box is found.
proof fn lemma_last_boxes(b: Seq<BoxModel>)
    requires
        b.len() == 7,
        b[0].kind == VMHD || b[0].kind == SMHD,
        b[1].kind == DINF,
        b[2].kind == STSD,
        b[3].kind == STTS,
        b[4].kind == STSC,
        b[5].kind == STSZ,
        b[6].kind == STCO,
    ensures
        last_box(b, STBL) is None,
        last_box(b, STSS) is None,
        last_box(b, CO64) is None,
        last_box(b, STSD) == Some(b[2].body),
        last_box(b, STTS) == Some(b[3].body),
        last_box(b, STSC) == Some(b[4].body),
        last_box(b, STSZ) == Some(b[5].body),
        last_box(b, STCO) == Some(b[6].body),
{
    reveal_with_fuel(last_box, 8);
}

// ── headers of a track ──────────────────────────────────────────────────

/// The body of a written track header.
pub open spec fn tkhd_body(t: TrackParts) -> Seq<u8> {
    full_body(
        0,
        7,
        crate::mp4::writer::tkhd_fields(
            t.track_id,
            crate::mp4::muxer::track_ms(t),
            crate::mp4::writer::track_volume(t.width),
            t.width,
            t.height,
        ),
    )
}

/// The body of a written media header.
pub open spec fn mdhd_body(t: TrackParts) -> Seq<u8> {
    full_body(
        0,
        0,
        Seq::<u8>::empty() + be32(0) + be32(0) + be32(t.timescale as int) + be32(t.duration as int)
            + be16(0x55c4) + be16(0),
    )
}

/// The body of a written handler box.
pub open spec fn hdlr_body(t: TrackParts) -> Seq<u8> {
    full_body(
        0,
        0,
        Seq::<u8>::empty() + be32(0) + be32(t.handler as int) + zeros(12)
            + crate::mp4::writer::writer_name(),
    )
}

proof fn lemma_tkhd(t: TrackParts)
    ensures
        tkhd_track_id(tkhd_body(t)) == t.track_id,
{
    reveal(crate::mp4::writer::tkhd_fields);
    let body = tkhd_body(t);
    let id = be32(t.track_id as int);
    lemma_be32(t.track_id as int);
    assert(body[12] == id[0]);
    assert(body[13] == id[1]);
    assert(body[14] == id[2]);
    assert(body[15] == id[3]);
}

proof fn lemma_mdhd(t: TrackParts)
    ensures
        mdhd_timescale(mdhd_body(t)) == t.timescale,
        mdhd_duration(mdhd_body(t)) == t.duration,
{
    let body = mdhd_body(t);
    let scale = be32(t.timescale as int);
    let duration = be32(t.duration as int);
    lemma_be32(t.timescale as int);
    lemma_be32(t.duration as int);
    assert(body[12] == scale[0] && body[13] == scale[1] && body[14] == scale[2] && body[15]
        == scale[3]);
    assert(body[16] == duration[0] && body[17] == duration[1] && body[18] == duration[2] && body[19]
        == duration[3]);
}

proof fn lemma_hdlr(t: TrackParts)
    requires
        t.handler == VIDE || t.handler == SOUN,
    ensures
        hdlr_kind(hdlr_body(t)) == kind_of(t),
{
    let body = hdlr_body(t);
    let handler = be32(t.handler as int);
    lemma_be32(t.handler as int);
    assert(body[8] == handler[0] && body[9] == handler[1] && body[10] == handler[2] && body[11]
        == handler[3]);
}

/// What a demuxer finds in the headers of a written track.
pub open spec fn found_head(t: TrackParts) -> HeadModel {
    HeadModel {
        track_id: t.track_id,
        timescale: t.timescale,
        duration: t.duration as u64,
        handler: kind_of(t),
        tables: minf_boxes(t),
    }
}

/// The boxes of a written media box.
pub open spec fn mdia_boxes(t: TrackParts) -> Seq<BoxModel> {
    seq![
        BoxModel { kind: MDHD, body: mdhd_body(t) },
        BoxModel { kind: HDLR, body: hdlr_body(t) },
        BoxModel { kind: MINF, body: minf_bytes(t) },
    ]
}

/// The boxes of a written track box.
pub open spec fn trak_boxes(t: TrackParts) -> Seq<BoxModel> {
    seq![
        BoxModel { kind: TKHD, body: tkhd_body(t) },
        BoxModel { kind: MDIA, body: mdia_bytes(t) },
    ]
}

proof fn lemma_mdia(t: TrackParts)
    requires
        t.handler == VIDE || t.handler == SOUN,
        t.timescale > 0,
        t.entries.len() > 0,
        mdia_bytes(t).len() <= u32::MAX,
    ensures
        minf_bytes(t).len() <= mdia_bytes(t).len(),
        boxes_of(mdia_bytes(t)) == Ok::<Seq<BoxModel>, Mp4Error>(mdia_boxes(t)),
        mdia_head(t.track_id, mdia_boxes(t)) == Ok::<Option<HeadModel>, Mp4Error>(
            Some(found_head(t)),
        ),
{
    let b = mdia_boxes(t);
    lemma_box_len(MINF, minf_bytes(t));
    assert(minf_bytes(t).len() <= mdia_bytes(t).len()) by {
        reveal(mdia_bytes);
    }
    assert(mdia_bytes(t) == concat_boxes(b, 3)) by {
        reveal(mdia_bytes);
        reveal_with_fuel(concat_boxes, 4);
    }
    lemma_walk_all(b, mdia_bytes(t));
    lemma_minf_boxes(t);
    lemma_mdhd(t);
    lemma_hdlr(t);
    assert(last_box(b, MDHD) == Some(mdhd_body(t)) && last_box(b, HDLR) == Some(hdlr_body(t))
        && last_box(b, MINF) == Some(minf_bytes(t))) by {
        reveal_with_fuel(last_box, 4);
    }
    lemma_last_boxes(minf_boxes(t));
}

proof fn lemma_track_head(t: TrackParts)
    requires
        t.handler == VIDE || t.handler == SOUN,
        t.timescale > 0,
        t.entries.len() > 0,
        trak_bytes(t).len() <= u32::MAX,
    ensures
        minf_bytes(t).len() <= trak_bytes(t).len(),
        track_head(trak_bytes(t)) == Ok::<Option<HeadModel>, Mp4Error>(Some(found_head(t))),
{
    let b = trak_boxes(t);
    lemma_box_len(MDIA, mdia_bytes(t));
    assert(mdia_bytes(t).len() <= trak_bytes(t).len()) by {
        reveal(trak_bytes);
    }
    assert(trak_bytes(t) == concat_boxes(b, 2)) by {
        reveal(trak_bytes);
        reveal_with_fuel(concat_boxes, 3);
    }
    lemma_walk_all(b, trak_bytes(t));
    lemma_mdia(t);
    lemma_tkhd(t);
    assert(last_box(b, TKHD) == Some(tkhd_body(t)) && last_box(b, MDIA) == Some(mdia_bytes(t))) by {
        reveal_with_fuel(last_box, 3);
    }
}

// ── samples ─────────────────────────────────────────────────────────────

/// The sample that a demuxer finds for an entry of a written track.
pub open spec fn found_sample(t: TrackParts, k: int) -> SampleModel {
    let pts = ticks_to_ms(sum_durations(durations_of(t.entries), k), t.timescale as int);
    SampleModel {
        track_id: t.track_id,
        codec: t.codec,
        data: t.entries[k].data,
        pts_ms: pts,
        dts_ms: pts,
        duration_ms: ticks_to_ms(t.entries[k].duration as int, t.timescale as int),
        is_sync: true,
        is_config: false,
    }
}

/// The track that a demuxer finds in a written file.
pub open spec fn found_track(t: TrackParts) -> ParsedModel {
    ParsedModel {
        track: TrackModel {
            track_id: t.track_id,
            handler: kind_of(t),
            codec: t.codec,
            timescale: t.timescale,
            duration: t.duration as u64,
            config: found_config(t),
            sample_count: t.entries.len() as u32,
            width: 0,
            height: 0,
            fps: 0,
            sample_rate: 0,
        },
        samples: Seq::new(t.entries.len(), |k: int| found_sample(t, k)),
    }
}

/// Whether the samples of a track stand in the file at its chunk offset.
pub open spec fn stored_in(t: TrackParts, file: Seq<u8>) -> bool {
    let end = t.chunk_offset + payload_of(t.entries).len();
    end <= file.len() && file.subrange(t.chunk_offset as int, end) == payload_of(t.entries)
}

proof fn lemma_starts(t: TrackParts)
    requires
        0 < t.entries.len() <= u32::MAX,
        t.chunk_offset + payload_of(t.entries).len() <= u32::MAX,
    ensures
        sample_starts(found_tables(t), 0, 0) == Ok::<Seq<int>, Mp4Error>(
            Seq::new(
                t.entries.len(),
                |j: int| t.chunk_offset + sum_sizes(parsed_sizes(t.entries), 0, j),
            ),
        ),
{
    let m = found_tables(t);
    let n = t.entries.len() as int;
    lemma_payload_prefix(t.entries, n);
    assert(t.entries.take(n) =~= t.entries);
    assert(samples_in_chunk(m.chunks, 1) == Some(n));
    assert(sample_starts(m, 1, n) == Ok::<Seq<int>, Mp4Error>(Seq::empty()));
    let here = Seq::new(n as nat, |j: int| m.offsets[0] + sum_sizes(m.sizes, 0, 0 + j));
    let want = Seq::new(
        t.entries.len(),
        |j: int| t.chunk_offset + sum_sizes(parsed_sizes(t.entries), 0, j),
    );
    assert(here + Seq::<int>::empty() =~= want);
}

proof fn lemma_track_samples(t: TrackParts, file: Seq<u8>)
    requires
        0 < t.entries.len() <= u32::MAX,
        file.len() <= u32::MAX,
        stored_in(t, file),
    ensures
        track_samples(found_tables(t), t.track_id, t.timescale, file) == Ok::<
            Seq<SampleModel>,
            Mp4Error,
        >(found_track(t).samples),
{
    lemma_starts(t);
    let m = found_tables(t);
    let starts = Seq::new(
        t.entries.len(),
        |j: int| t.chunk_offset + sum_sizes(parsed_sizes(t.entries), 0, j),
    );
    let got = Seq::new(
        starts.len(),
        |k: int| sample_model(m, t.track_id, t.timescale, file, k, starts[k]),
    );
    let want = found_track(t).samples;
    assert forall|k: int| 0 <= k < got.len() implies got[k] == want[k] by {
        lemma_payload_at(t.entries, k);
        let at = sum_sizes(parsed_sizes(t.entries), 0, k);
        let size = parsed_sizes(t.entries)[k] as int;
        let whole = file.subrange(
            t.chunk_offset as int,
            t.chunk_offset + payload_of(t.entries).len(),
        );
        assert(file.subrange(starts[k], starts[k] + size) =~= whole.subrange(at, at + size));
    }
    assert(got =~= want);
}

/// A written track is found, with its samples.
proof fn lemma_trak(t: TrackParts, file: Seq<u8>)
    requires
        codec_carried(t),
        t.timescale > 0,
        0 < t.entries.len() <= u32::MAX,
        forall|i: int| 0 <= i < t.entries.len() ==> (#[trigger] t.entries[i]).duration > 0,
        trak_bytes(t).len() <= u32::MAX,
        file.len() <= u32::MAX,
        stored_in(t, file),
    ensures
        trak_model(trak_bytes(t), file) == Ok::<Option<ParsedModel>, Mp4Error>(
            Some(found_track(t)),
        ),
{
    reveal(trak_model);
    lemma_track_head(t);
    lemma_tables(t, file.len() as int);
    lemma_track_samples(t, file);
}

// ── decoder configuration ───────────────────────────────────────────────

/// The bytes of a 32-bit number are its own.
pub proof fn lemma_digits(s: Seq<u8>, at: int, n: u32)
    requires
        0 <= at,
        at + 4 <= s.len(),
        u32_at(s, at) == n,
    ensures
        s[at] == (n / 0x100_0000) % 0x100,
        s[at + 1] == (n / 0x1_0000) % 0x100,
        s[at + 2] == (n / 0x100) % 0x100,
        s[at + 3] == n % 0x100,
{
    lemma_four_digits(s[at] as int, s[at + 1] as int, s[at + 2] as int, s[at + 3] as int, n as int);
}

proof fn lemma_four_digits(a: int, b: int, c: int, d: int, n: int)
    requires
        0 <= a < 0x100,
        0 <= b < 0x100,
        0 <= c < 0x100,
        0 <= d < 0x100,
        n == a * 0x100_0000 + b * 0x1_0000 + c * 0x100 + d,
    ensures
        (n / 0x100_0000) % 0x100 == a,
        (n / 0x1_0000) % 0x100 == b,
        (n / 0x100) % 0x100 == c,
        n % 0x100 == d,
{
    assert(n / 0x100 == a * 0x1_0000 + b * 0x100 + c);
    assert(n / 0x1_0000 == a * 0x100 + b);
    assert(n / 0x100_0000 == a);
    assert((a * 0x1_0000 + b * 0x100 + c) % 0x100 == c);
    assert((a * 0x100 + b) % 0x100 == b);
}

/// The bytes of the fixed fields of a video sample entry that are not the
/// picture size.
proof fn lemma_visual_fields(width: u32, height: u32)
    ensures
        ({
            let f = visual_fields(width, height, zeros(32));
            &&& f.len() == 78
            &&& forall|i: int|
                0 <= i < 78 && !(24 <= i < 28) ==> (#[trigger] f[i] == 0 || f[i] == 1 || f[i] == 0x48
                    || f[i] == 0x18 || f[i] == 0xff)
            &&& f[28] == 0
            &&& f[24] * 0x100 + f[25] == width % 0x1_0000
            &&& f[26] * 0x100 + f[27] == height % 0x1_0000
        }),
{
    reveal(visual_fields);
    let f = visual_fields(width, height, zeros(32));
    crate::bytes::lemma_be16(width as int % 0x1_0000);
    crate::bytes::lemma_be16(height as int % 0x1_0000);
    let w = be16(width as int % 0x1_0000);
    let h = be16(height as int % 0x1_0000);
    assert(f[24] == w[0] && f[25] == w[1]);
    assert(f[26] == h[0] && f[27] == h[1]);
    assert(be16(1) =~= seq![0u8, 1] && be16(0x18) =~= seq![0u8, 0x18] && be16(0xffff) =~= seq![
        0xffu8,
        0xff,
    ]) by {
        reveal(be16);
    }
    assert(be32(0x48_0000) =~= seq![0u8, 0x48, 0, 0] && be32(0) =~= seq![0u8, 0, 0, 0]) by {
        reveal(be32);
    }
    assert forall|i: int| 0 <= i < 78 && !(24 <= i < 28) implies (#[trigger] f[i] == 0 || f[i] == 1
        || f[i] == 0x48 || f[i] == 0x18 || f[i] == 0xff) by {
        if i < 24 {
        } else if i < 42 {
        } else {
        }
    }
}

/// Whether the picture size or the length of a record reads like the given
/// type tag, so that a search for the tag finds them first.
pub open spec fn reads_like_tag(width: u32, height: u32, record_len: int, tag: u32) -> bool {
    (width % 0x1_0000) * 0x1_0000 + height % 0x1_0000 == tag || 8 + record_len == tag
}

/// The record behind the fixed fields of a video sample entry is found.
proof fn lemma_config_found(width: u32, height: u32, tag: u32, record: Seq<u8>)
    requires
        tag == AVCC || tag == HVCC,
        8 + record.len() <= u32::MAX,
        !reads_like_tag(width, height, record.len() as int, tag),
    ensures
        child_box(visual_fields(width, height, zeros(32)) + box_bytes(tag, record), tag) == Some(
            record,
        ),
{
    let f = visual_fields(width, height, zeros(32));
    let b = box_bytes(tag, record);
    let body = f + b;
    let size = 8 + record.len() as int;
    lemma_visual_fields(width, height);
    lemma_box_len(tag, record);
    assert(b == be32(size) + be32(tag as int) + record) by {
        reveal(box_bytes);
    }
    lemma_be32(size);
    lemma_be32(tag as int);
    assert(body[78] == be32(size)[0] && body[79] == be32(size)[1] && body[80] == be32(size)[2]
        && body[81] == be32(size)[3]);
    assert(body[82] == be32(tag as int)[0] && body[83] == be32(tag as int)[1] && body[84] == be32(
        tag as int,
    )[2] && body[85] == be32(tag as int)[3]);
    assert(u32_at(body, 78) == size);
    assert(u32_at(body, 82) == tag);
    lemma_digits(body, 82, tag);
    assert(child_at(body, tag, 78));
    assert forall|q: int| 0 <= q < 78 implies !child_at(body, tag, q) by {
        if u32_at(body, q + 4) == tag {
            lemma_digits(body, q + 4, tag);
            let i = q + 4;
            if i < 78 && !(24 <= i < 28) {
                assert(body[i] == f[i]);
            } else if i < 28 {
                assert(body[28] == 0) by {
                    assert(body[28] == f[28]);
                }
                if i == 24 {
                    assert(body[24] == f[24] && body[25] == f[25] && body[26] == f[26] && body[27]
                        == f[27]);
                }
            }
        }
    }
    assert(first_child(body, tag, 78));
    lemma_first_child(body, tag, 78);
    assert(body.subrange(86, 78 + size) =~= record);
}

/// The decoder configuration record that is written for a video track.
pub open spec fn written_record(t: TrackParts) -> Seq<u8> {
    if t.codec == CodecId::H264 {
        crate::mp4::records::avcc_record(t.config)
    } else {
        crate::mp4::records::hvcc_record(t.config)
    }
}

/// Whether a video track is one whose record a demuxer finds: neither its
/// picture size nor the length of its record reads like the tag of the record.
pub open spec fn record_findable(t: TrackParts) -> bool {
    !reads_like_tag(
        t.width,
        t.height,
        written_record(t).len() as int,
        if t.codec == CodecId::H264 {
            AVCC
        } else {
            HVCC
        },
    )
}

/// A demuxer finds the decoder configuration record that was written for a
/// video track.
pub proof fn law_video_record_found(t: TrackParts)
    requires
        t.handler == VIDE,
        t.codec == CodecId::H264 || t.codec == CodecId::H265,
        record_findable(t),
        8 + written_record(t).len() <= u32::MAX,
    ensures
        found_config(t) == written_record(t),
{
    let record = written_record(t);
    let fields = visual_fields(t.width, t.height, zeros(32));
    if t.codec == CodecId::H264 {
        lemma_config_found(t.width, t.height, AVCC, record);
        lemma_box_skip(AVC1, fields + box_bytes(AVCC, record));
    } else {
        lemma_config_found(t.width, t.height, HVCC, record);
        lemma_box_skip(HEV1, fields + box_bytes(HVCC, record));
    }
}

// ── the file ────────────────────────────────────────────────────────────

/// The tracks that a demuxer finds in a written file.
pub open spec fn found_tracks(m: MuxerModel) -> Seq<ParsedModel> {
    let v = video_parts(m);
    let a = audio_parts(m);
    if v.entries.len() > 0 && a.entries.len() > 0 {
        seq![found_track(v), found_track(a)]
    } else if v.entries.len() > 0 {
        seq![found_track(v)]
    } else {
        seq![found_track(a)]
    }
}

/// The boxes of a written movie box.
pub open spec fn movie_boxes(m: MuxerModel) -> Seq<BoxModel> {
    let v = video_parts(m);
    let a = audio_parts(m);
    let mvhd = BoxModel {
        kind: MVHD,
        body: full_body(
            0,
            0,
            crate::mp4::writer::mvhd_fields(
                crate::mp4::muxer::movie_ms(m),
                if v.entries.len() > 0 && a.entries.len() > 0 {
                    3
                } else {
                    2
                },
            ),
        ),
    };
    let vb = BoxModel { kind: TRAK, body: trak_bytes(v) };
    let ab = BoxModel { kind: TRAK, body: trak_bytes(a) };
    if v.entries.len() > 0 && a.entries.len() > 0 {
        seq![mvhd, vb, ab]
    } else if v.entries.len() > 0 {
        seq![mvhd, vb]
    } else if a.entries.len() > 0 {
        seq![mvhd, ab]
    } else {
        seq![mvhd]
    }
}

proof fn lemma_movie_boxes(m: MuxerModel)
    requires
        moov_bytes(m).len() <= u32::MAX,
    ensures
        boxes_of(moov_bytes(m)) == Ok::<Seq<BoxModel>, Mp4Error>(movie_boxes(m)),
        video_parts(m).entries.len() > 0 ==> trak_bytes(video_parts(m)).len() <= u32::MAX,
        audio_parts(m).entries.len() > 0 ==> trak_bytes(audio_parts(m)).len() <= u32::MAX,
{
    let b = movie_boxes(m);
    lemma_box_len(TRAK, trak_bytes(video_parts(m)));
    lemma_box_len(TRAK, trak_bytes(audio_parts(m)));
    reveal(moov_bytes);
    assert(moov_bytes(m) =~= concat_boxes(b, b.len() as int)) by {
        reveal_with_fuel(concat_boxes, 4);
    }
    lemma_walk_all(b, moov_bytes(m));
}

/// Where the boxes and the samples of a written file stand.
proof fn lemma_file_layout(m: MuxerModel)
    requires
        file_bytes(m).len() <= u32::MAX,
    ensures
        boxes_of(file_bytes(m)) == Ok::<Seq<BoxModel>, Mp4Error>(
            seq![
                BoxModel { kind: FTYP, body: ftyp_bytes().skip(8) },
                BoxModel {
                    kind: MDAT,
                    body: payload_of(video_parts(m).entries) + payload_of(audio_parts(m).entries),
                },
                BoxModel { kind: MOOV, body: moov_bytes(m) },
            ],
        ),
        moov_bytes(m).len() <= u32::MAX,
        stored_in(video_parts(m), file_bytes(m)),
        stored_in(audio_parts(m), file_bytes(m)),
{
    let v = payload_of(video_parts(m).entries);
    let a = payload_of(audio_parts(m).entries);
    reveal(file_bytes);
    reveal(ftyp_bytes);
    let file = file_bytes(m);
    let brands = Seq::<u8>::empty() + be32(crate::mp4::writer::ISOM as int) + be32(0x200) + be32(
        crate::mp4::writer::ISOM as int,
    ) + be32(crate::mp4::writer::ISO2 as int) + be32(AVC1 as int) + be32(
        crate::mp4::writer::MP41 as int,
    );
    assert(brands.len() == 24);
    lemma_box_len(FTYP, brands);
    lemma_box_skip(FTYP, brands);
    lemma_box_len(MDAT, v + a);
    lemma_box_skip(MDAT, v + a);
    lemma_box_len(MOOV, moov_bytes(m));
    let b = seq![
        BoxModel { kind: FTYP, body: brands },
        BoxModel { kind: MDAT, body: v + a },
        BoxModel { kind: MOOV, body: moov_bytes(m) },
    ];
    assert(file =~= concat_boxes(b, 3)) by {
        reveal_with_fuel(concat_boxes, 4);
    }
    lemma_walk_all(b, file);
    let data = box_bytes(MDAT, v + a);
    assert(file.subrange(40, 40int + (v + a).len()) =~= data.skip(8)) by {
        assert(ftyp_bytes().len() == 32);
    }
    assert(file.subrange(40, 40int + v.len()) =~= (v + a).subrange(0, v.len() as int));
    assert((v + a).subrange(0, v.len() as int) =~= v);
    assert(file.subrange(40int + v.len(), 40int + v.len() + a.len()) =~= (v + a).subrange(
        v.len() as int,
        (v + a).len() as int,
    ));
    assert((v + a).subrange(v.len() as int, (v + a).len() as int) =~= a);
}

/// The samples of a track keep what was said of all samples.
proof fn lemma_entries_from(samples: Seq<EntryModel>, track_id: u32, n: int)
    requires
        0 <= n <= samples.len(),
        forall|i: int| 0 <= i < samples.len() ==> (#[trigger] samples[i]).duration > 0,
    ensures
        forall|i: int|
            0 <= i < crate::mp4::muxer::entries_of(samples, track_id, n).len() ==> (
            #[trigger] crate::mp4::muxer::entries_of(samples, track_id, n)[i]).duration > 0,
        crate::mp4::muxer::entries_of(samples, track_id, n).len() <= n,
    decreases n,
{
    if n > 0 {
        lemma_entries_from(samples, track_id, n - 1);
        assert(samples[n - 1].duration > 0);
    }
}

/// Whether the codecs of a muxer that has samples are ones that files carry.
pub open spec fn codecs_carried(m: MuxerModel) -> bool {
    &&& video_parts(m).entries.len() > 0 ==> codec_carried(video_parts(m))
    &&& audio_parts(m).entries.len() > 0 ==> codec_carried(audio_parts(m))
}

/// A file that the muxer wrote gives its samples back: the demuxer finds the
/// tracks that have samples, and in each of them every sample that was pushed,
/// in order, byte for byte, at the time that the durations before it add up
/// to.
pub proof fn law_file_gives_samples_back(m: MuxerModel)
    requires
        m.samples.len() > 0,
        two_tracks(m),
        codecs_carried(with_durations(m)),
        file_bytes(with_durations(m)).len() <= u32::MAX,
        m.samples.len() <= u32::MAX,
    ensures
        file_tracks(file_bytes(with_durations(m))) == Ok::<Seq<ParsedModel>, Mp4Error>(
            found_tracks(with_durations(m)),
        ),
{
    let d = with_durations(m);
    assert forall|i: int| 0 <= i < d.samples.len() implies (#[trigger] d.samples[i]).duration > 0
        && (d.samples[i].track_id == 0 || d.samples[i].track_id == 1) by {
        lemma_duration_positive(m, i);
        assert(m.samples[i].track_id == 0 || m.samples[i].track_id == 1);
    }
    lemma_file_parsed(d);
}

/// What is found in the file of a muxer whose durations are set.
proof fn lemma_file_parsed(d: MuxerModel)
    requires
        d.samples.len() > 0,
        forall|i: int|
            0 <= i < d.samples.len() ==> (#[trigger] d.samples[i]).duration > 0 && (
            d.samples[i].track_id == 0 || d.samples[i].track_id == 1),
        codecs_carried(d),
        file_bytes(d).len() <= u32::MAX,
        d.samples.len() <= u32::MAX,
    ensures
        file_tracks(file_bytes(d)) == Ok::<Seq<ParsedModel>, Mp4Error>(found_tracks(d)),
{
    let file = file_bytes(d);
    let v = video_parts(d);
    let a = audio_parts(d);
    let n = d.samples.len() as int;
    lemma_entries_from(d.samples, 0, n);
    lemma_entries_from(d.samples, 1, n);
    lemma_some_track(d.samples, n);
    lemma_file_layout(d);
    lemma_movie_boxes(d);
    if v.entries.len() > 0 {
        lemma_trak(v, file);
    }
    if a.entries.len() > 0 {
        lemma_trak(a, file);
    }
    lemma_movie_tracks(d, file);
    lemma_top_boxes(
        BoxModel { kind: FTYP, body: ftyp_bytes().skip(8) },
        BoxModel { kind: MDAT, body: payload_of(v.entries) + payload_of(a.entries) },
        BoxModel { kind: MOOV, body: moov_bytes(d) },
    );
}

proof fn lemma_top_boxes(ftyp: BoxModel, mdat: BoxModel, moov: BoxModel)
    requires
        ftyp.kind == FTYP,
        mdat.kind == MDAT,
        moov.kind == MOOV,
    ensures
        last_box(seq![ftyp, mdat, moov], MOOV) == Some(moov.body),
        last_box(seq![ftyp, mdat, moov], MDAT) == Some(mdat.body),
{
    reveal_with_fuel(last_box, 4);
}

/// The duration of a sample is at least one tick.
proof fn lemma_duration_positive(m: MuxerModel, i: int)
    ensures
        crate::mp4::muxer::duration_at(m, i) > 0,
{
    let rate = crate::mp4::muxer::rate_in_use(m.sample_rate);
    assert(90000int / 30 == 3000);
    if m.fps > 0 {
        let fps = m.fps as int;
        assert(0 <= 90000int / fps <= 90000) by (nonlinear_arith)
            requires
                fps > 0,
        ;
    }
}

/// Samples of tracks 0 and 1 make one of the two tracks nonempty.
proof fn lemma_some_track(samples: Seq<EntryModel>, n: int)
    requires
        0 <= n <= samples.len(),
        forall|i: int|
            0 <= i < samples.len() ==> (#[trigger] samples[i]).track_id == 0 || samples[i].track_id
                == 1,
    ensures
        n > 0 ==> crate::mp4::muxer::entries_of(samples, 0, n).len()
            + crate::mp4::muxer::entries_of(samples, 1, n).len() > 0,
{
    if n > 0 {
        assert(samples[n - 1].track_id == 0 || samples[n - 1].track_id == 1);
    }
}

#[verifier::spinoff_prover]
proof fn lemma_movie_tracks(m: MuxerModel, file: Seq<u8>)
    requires
        video_parts(m).entries.len() + audio_parts(m).entries.len() > 0,
        video_parts(m).entries.len() > 0 ==> trak_model(trak_bytes(video_parts(m)), file) == Ok::<
            Option<ParsedModel>,
            Mp4Error,
        >(Some(found_track(video_parts(m)))),
        audio_parts(m).entries.len() > 0 ==> trak_model(trak_bytes(audio_parts(m)), file) == Ok::<
            Option<ParsedModel>,
            Mp4Error,
        >(Some(found_track(audio_parts(m)))),
    ensures
        last_box(movie_boxes(m), MVHD) is Some,
        movie_tracks(movie_boxes(m), file) == found_tracks(m),
{
    let v = video_parts(m);
    let a = audio_parts(m);
    let mvhd = movie_boxes(m)[0];
    let vb = BoxModel { kind: TRAK, body: trak_bytes(v) };
    let ab = BoxModel { kind: TRAK, body: trak_bytes(a) };
    assert(mvhd.kind == MVHD);
    lemma_movie_of_tracks(
        mvhd,
        v.entries.len() > 0,
        vb,
        found_track(v),
        a.entries.len() > 0,
        ab,
        found_track(a),
        file,
    );
}

/// A movie with a track of either kind or both.
proof fn lemma_movie_of_tracks(
    mvhd: BoxModel,
    has_video: bool,
    video: BoxModel,
    v: ParsedModel,
    has_audio: bool,
    audio: BoxModel,
    a: ParsedModel,
    file: Seq<u8>,
)
    requires
        mvhd.kind == MVHD,
        video.kind == TRAK,
        audio.kind == TRAK,
        has_video || has_audio,
        has_video && has_audio ==> v.track.track_id < a.track.track_id,
        has_video ==> trak_model(video.body, file) == Ok::<Option<ParsedModel>, Mp4Error>(Some(v)),
        has_audio ==> trak_model(audio.body, file) == Ok::<Option<ParsedModel>, Mp4Error>(Some(a)),
    ensures
        ({
            let boxes = if has_video && has_audio {
                seq![mvhd, video, audio]
            } else if has_video {
                seq![mvhd, video]
            } else {
                seq![mvhd, audio]
            };
            let tracks = if has_video && has_audio {
                seq![v, a]
            } else if has_video {
                seq![v]
            } else {
                seq![a]
            };
            last_box(boxes, MVHD) is Some && movie_tracks(boxes, file) == tracks
        }),
{
    if has_video && has_audio {
        lemma_tracks_one(mvhd, video, file, v);
        lemma_tracks_two(mvhd, video, audio, file, v, a);
    } else if has_video {
        lemma_tracks_one(mvhd, video, file, v);
    } else {
        lemma_tracks_one(mvhd, audio, file, a);
    }
}

/// A movie with one track.
proof fn lemma_tracks_one(mvhd: BoxModel, trak: BoxModel, file: Seq<u8>, t: ParsedModel)
    requires
        mvhd.kind == MVHD,
        trak.kind == TRAK,
        trak_model(trak.body, file) == Ok::<Option<ParsedModel>, Mp4Error>(Some(t)),
    ensures
        last_box(seq![mvhd, trak], MVHD) is Some,
        movie_tracks(seq![mvhd, trak], file) == seq![t],
{
    let b = seq![mvhd, trak];
    let b1 = seq![mvhd];
    assert(b.drop_last() =~= b1);
    assert(b1.drop_last() =~= Seq::empty());
    assert(last_box(b1, MVHD) == Some(mvhd.body));
    assert(movie_tracks(Seq::empty(), file) =~= Seq::empty());
    assert(movie_tracks(b1, file) =~= Seq::empty());
    assert(with_track(Seq::empty(), t) == seq![t]);
}

/// A movie with two tracks.
proof fn lemma_tracks_two(
    mvhd: BoxModel,
    first: BoxModel,
    second: BoxModel,
    file: Seq<u8>,
    t: ParsedModel,
    u: ParsedModel,
)
    requires
        second.kind == TRAK,
        movie_tracks(seq![mvhd, first], file) == seq![t],
        last_box(seq![mvhd, first], MVHD) is Some,
        trak_model(second.body, file) == Ok::<Option<ParsedModel>, Mp4Error>(Some(u)),
        t.track.track_id < u.track.track_id,
    ensures
        last_box(seq![mvhd, first, second], MVHD) is Some,
        movie_tracks(seq![mvhd, first, second], file) == seq![t, u],
{
    let b = seq![mvhd, first, second];
    assert(b.drop_last() =~= seq![mvhd, first]);
    assert(seq![t].last() == t);
    assert(with_track(seq![t], u) == seq![t].push(u));
    assert(seq![t].push(u) =~= seq![t, u]);
}

} // verus!
