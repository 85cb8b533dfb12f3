//! What the sample tables of a track mean: where its samples lie, when they
//! play, and at which of them decoding can start.
use vstd::prelude::*;
use crate::bytes::{be32, be64, lemma_be64, lemma_u32_in, u32_at, u64_at};
use crate::mp4::boxes::{CO64, Mp4Error, STCO, STSC, STSS, STSZ, STTS, last_box};
use crate::mp4::demuxer::{
    HeadModel, ParsedModel, chunk_offsets, data_frame_of, mdhd_duration, mdhd_timescale,
    sample_tables, sync_samples, tkhd_track_id, track_head, trak_model,
};
use crate::mp4::entries::TrackKind;
use crate::mp4::layout::{
    SampleModel, TablesModel, min_of, sample_starts, samples_in_chunk, sum_durations, sum_sizes,
    ticks_to_ms, track_samples,
};
use crate::mp4::tables::{
    co64_offsets, entry_count, stco_offsets, stsc_entries, stss_samples, stsz_sizes, stts_durations,
    stts_runs,
};

verus! {

broadcast use crate::bytes::group_be_len;

// ── tables ──────────────────────────────────────────────────────────────

/// The big-endian bytes of 32-bit numbers, one after the other.
pub open spec fn words(list: Seq<u32>) -> Seq<u8>
    decreases list.len(),
{
    if list.len() == 0 {
        Seq::empty()
    } else {
        words(list.drop_last()) + be32(list.last() as int)
    }
}

/// The big-endian bytes of 64-bit numbers, one after the other.
pub open spec fn long_words(list: Seq<u64>) -> Seq<u8>
    decreases list.len(),
{
    if list.len() == 0 {
        Seq::empty()
    } else {
        long_words(list.drop_last()) + be64(list.last() as int)
    }
}

proof fn lemma_words_len(list: Seq<u32>)
    ensures
        words(list).len() == 4 * list.len(),
    decreases list.len(),
{
    if list.len() > 0 {
        lemma_words_len(list.drop_last());
    }
}

proof fn lemma_long_words_len(list: Seq<u64>)
    ensures
        long_words(list).len() == 8 * list.len(),
    decreases list.len(),
{
    if list.len() > 0 {
        lemma_long_words_len(list.drop_last());
    }
}

/// The number at a place among others reads back.
pub proof fn lemma_word_at(head: Seq<u8>, list: Seq<u32>, i: int)
    requires
        0 <= i < list.len(),
    ensures
        (head + words(list)).len() == head.len() + 4 * list.len(),
        u32_at(head + words(list), head.len() + 4 * i) == list[i],
    decreases list.len(),
{
    lemma_words_len(list);
    lemma_words_len(list.drop_last());
    let all = head + words(list);
    let front = head + words(list.drop_last());
    let last = list.last() as int;
    assert(all =~= front + be32(last));
    if i == list.len() - 1 {
        assert(all =~= front + be32(last) + Seq::<u8>::empty());
        lemma_u32_in(front, last, Seq::empty());
    } else {
        lemma_word_at(head, list.drop_last(), i);
        let p = head.len() + 4 * i;
        assert(all[p] == front[p] && all[p + 1] == front[p + 1] && all[p + 2] == front[p + 2]
            && all[p + 3] == front[p + 3]);
    }
}

proof fn lemma_long_word_at(head: Seq<u8>, list: Seq<u64>, i: int)
    requires
        0 <= i < list.len(),
    ensures
        (head + long_words(list)).len() == head.len() + 8 * list.len(),
        u64_at(head + long_words(list), head.len() + 8 * i) == list[i],
    decreases list.len(),
{
    lemma_long_words_len(list);
    lemma_long_words_len(list.drop_last());
    let all = head + long_words(list);
    let front = head + long_words(list.drop_last());
    let last = list.last() as int;
    assert(all =~= front + be64(last));
    let p = head.len() + 8 * i;
    if i == list.len() - 1 {
        lemma_be64(last);
        assert forall|j: int| 0 <= j < 8 implies all[p + j] == #[trigger] be64(last)[j] by {}
        assert(u64_at(all, p) == u64_at(be64(last), 0));
    } else {
        lemma_long_word_at(head, list.drop_last(), i);
        assert forall|j: int| p <= j < p + 8 implies all[j] == #[trigger] front[j] by {}
        assert(u64_at(all, p) == u64_at(front, p));
    }
}

/// The body of a table: version and flags, the number of its entries, and what
/// they hold.
pub open spec fn table_body(count: int, content: Seq<u8>) -> Seq<u8> {
    be32(0) + be32(count) + content
}

proof fn lemma_table_count(count: int, content: Seq<u8>)
    requires
        0 <= count <= u32::MAX,
    ensures
        table_body(count, content).len() == 8 + content.len(),
        u32_at(table_body(count, content), 4) == count,
        entry_count(table_body(count, content)) == count,
{
    lemma_u32_in(be32(0), count, content);
}

/// The table of sync samples gives the numbers that it lists.
pub proof fn law_stss_is_read(numbers: Seq<u32>)
    requires
        numbers.len() <= u32::MAX,
    ensures
        stss_samples(table_body(numbers.len() as int, words(numbers))) == Ok::<
            Seq<u32>,
            Mp4Error,
        >(numbers),
{
    let n = numbers.len() as int;
    let body = table_body(n, words(numbers));
    lemma_words_len(numbers);
    lemma_table_count(n, words(numbers));
    assert forall|i: int| 0 <= i < n implies u32_at(body, 8 + 4 * i) == #[trigger] numbers[i] by {
        lemma_word_at(be32(0) + be32(n), numbers, i);
    }
    assert(stss_samples(body)->Ok_0 =~= numbers);
}

/// The table of chunk offsets gives the offsets that it lists.
pub proof fn law_stco_is_read(offsets: Seq<u32>)
    requires
        offsets.len() <= u32::MAX,
    ensures
        ({
            let r = stco_offsets(table_body(offsets.len() as int, words(offsets)));
            &&& r is Ok && r->Ok_0.len() == offsets.len()
            &&& forall|i: int|
                0 <= i < offsets.len() ==> #[trigger] r->Ok_0[i] == offsets[i] as u64
        }),
{
    let n = offsets.len() as int;
    let body = table_body(n, words(offsets));
    lemma_words_len(offsets);
    lemma_table_count(n, words(offsets));
    assert forall|i: int| 0 <= i < n implies u32_at(body, 8 + 4 * i) == #[trigger] offsets[i] by {
        lemma_word_at(be32(0) + be32(n), offsets, i);
    }
    assert forall|i: int| 0 <= i < n implies #[trigger] stco_offsets(body)->Ok_0[i]
        == offsets[i] as u64 by {
        assert(u32_at(body, 8 + 4 * i) == offsets[i]);
    }
}

/// The table of long chunk offsets gives the offsets that it lists.
pub proof fn law_co64_is_read(offsets: Seq<u64>)
    requires
        offsets.len() <= u32::MAX,
    ensures
        co64_offsets(table_body(offsets.len() as int, long_words(offsets))) == Ok::<
            Seq<u64>,
            Mp4Error,
        >(offsets),
{
    let n = offsets.len() as int;
    let body = table_body(n, long_words(offsets));
    lemma_long_words_len(offsets);
    lemma_table_count(n, long_words(offsets));
    assert forall|i: int| 0 <= i < n implies u64_at(body, 8 + 8 * i) == #[trigger] offsets[i] by {
        lemma_long_word_at(be32(0) + be32(n), offsets, i);
    }
    assert(co64_offsets(body)->Ok_0 =~= offsets);
}

/// The table of chunk runs gives its entries: for each the first chunk, the
/// samples in a chunk and the sample description.
pub proof fn law_stsc_is_read(fields: Seq<u32>, n: int)
    requires
        0 <= n <= u32::MAX,
        fields.len() == 3 * n,
    ensures
        ({
            let r = stsc_entries(table_body(n, words(fields)));
            &&& r is Ok && r->Ok_0.len() == n
            &&& forall|i: int|
                0 <= i < n ==> {
                    let e = #[trigger] r->Ok_0[i];
                    e.0 == fields[3 * i] && e.1 == fields[3 * i + 1] && e.2 == fields[3 * i + 2]
                }
        }),
{
    let body = table_body(n, words(fields));
    lemma_words_len(fields);
    lemma_table_count(n, words(fields));
    assert forall|i: int| 0 <= i < n implies {
        let e = #[trigger] stsc_entries(body)->Ok_0[i];
        e.0 == fields[3 * i] && e.1 == fields[3 * i + 1] && e.2 == fields[3 * i + 2]
    } by {
        lemma_word_at(be32(0) + be32(n), fields, 3 * i);
        lemma_word_at(be32(0) + be32(n), fields, 3 * i + 1);
        lemma_word_at(be32(0) + be32(n), fields, 3 * i + 2);
    }
}

/// The table of sizes gives one size for all samples where it names one, and
/// else the size that it lists for each.
pub proof fn law_stsz_is_read(size: u32, count: u32, sizes: Seq<u32>, file_len: int)
    ensures
        size > 0 && count * size <= file_len ==> {
            let r = stsz_sizes(be32(0) + be32(size as int) + be32(count as int), file_len);
            &&& r is Ok && r->Ok_0.len() == count
            &&& forall|i: int| 0 <= i < count ==> #[trigger] r->Ok_0[i] == size
        },
        size > 0 && count * size > file_len ==> stsz_sizes(
            be32(0) + be32(size as int) + be32(count as int),
            file_len,
        ) is Err,
        sizes.len() <= u32::MAX ==> {
            let r = stsz_sizes(
                be32(0) + be32(0) + be32(sizes.len() as int) + words(sizes),
                file_len,
            );
            &&& r is Ok && r->Ok_0.len() == sizes.len()
            &&& forall|i: int| 0 <= i < sizes.len() ==> #[trigger] r->Ok_0[i] == sizes[i]
        },
{
    let one = be32(0) + be32(size as int) + be32(count as int);
    lemma_u32_in(be32(0), size as int, be32(count as int));
    lemma_u32_in(be32(0) + be32(size as int), count as int, Seq::empty());
    assert(one =~= be32(0) + be32(size as int) + be32(count as int) + Seq::<u8>::empty());
    if sizes.len() <= u32::MAX {
        let n = sizes.len() as int;
        let head = be32(0) + be32(0) + be32(n);
        let body = head + words(sizes);
        lemma_words_len(sizes);
        assert(body =~= be32(0) + be32(0) + (be32(n) + words(sizes)));
        lemma_u32_in(be32(0), 0, be32(n) + words(sizes));
        lemma_u32_in(be32(0) + be32(0), n, words(sizes));
        assert forall|i: int| 0 <= i < n implies #[trigger] stsz_sizes(body, file_len)->Ok_0[i]
            == sizes[i] by {
            lemma_word_at(head, sizes, i);
        }
    }
}

proof fn lemma_runs_read(fields: Seq<u32>, n: int, m: int, before: Seq<int>)
    requires
        0 <= m <= n <= u32::MAX,
        fields.len() == 2 * n,
        before.len() == n + 1,
        before[0] == 0,
        forall|i: int| 0 <= i < n ==> #[trigger] before[i + 1] == before[i] + fields[2 * i],
    ensures
        stts_runs(table_body(n, words(fields)), m).len() == before[m],
        forall|i: int, k: int|
            0 <= i < m && before[i] <= k < before[i + 1] ==> #[trigger] stts_runs(
                table_body(n, words(fields)),
                m,
            )[k] == #[trigger] fields[2 * i + 1],
    decreases m,
{
    if m > 0 {
        let body = table_body(n, words(fields));
        lemma_runs_read(fields, n, m - 1, before);
        lemma_word_at(be32(0) + be32(n), fields, 2 * (m - 1));
        lemma_word_at(be32(0) + be32(n), fields, 2 * (m - 1) + 1);
        assert(before[m] == before[m - 1] + fields[2 * (m - 1)]) by {
            assert(before[(m - 1) + 1] == before[m - 1] + fields[2 * (m - 1)]);
        }
        assert forall|i: int, k: int|
            0 <= i < m && before[i] <= k < before[i + 1] implies #[trigger] stts_runs(body, m)[k]
            == #[trigger] fields[2 * i + 1] by {
            lemma_before_ascends(before, fields, n, 0, i);
            if i < m - 1 {
                lemma_before_ascends(before, fields, n, i + 1, m - 1);
                assert(stts_runs(body, m)[k] == stts_runs(body, m - 1)[k]);
            }
        }
    }
}

proof fn lemma_before_ascends(before: Seq<int>, fields: Seq<u32>, n: int, i: int, j: int)
    requires
        0 <= i <= j <= n,
        fields.len() == 2 * n,
        before.len() == n + 1,
        forall|i: int| 0 <= i < n ==> #[trigger] before[i + 1] == before[i] + fields[2 * i],
    ensures
        before[i] <= before[j],
    decreases j - i,
{
    if i < j {
        lemma_before_ascends(before, fields, n, i, j - 1);
        assert(before[(j - 1) + 1] == before[j - 1] + fields[2 * (j - 1)]);
    }
}

/// The table of durations is a list of runs, each a number of samples and the
/// duration of each of them: the samples from `before[i]` on, up to those of
/// the next run, have the duration of run `i`. Where the runs do not add up to
/// the number of samples, there is an error.
pub proof fn law_stts_is_read(fields: Seq<u32>, n: int, before: Seq<int>, expected: int)
    requires
        0 <= n <= u32::MAX,
        fields.len() == 2 * n,
        before.len() == n + 1,
        before[0] == 0,
        forall|i: int| 0 <= i < n ==> #[trigger] before[i + 1] == before[i] + fields[2 * i],
    ensures
        ({
            let r = stts_durations(table_body(n, words(fields)), expected);
            &&& r is Ok <==> expected == before[n]
            &&& r is Ok ==> r->Ok_0.len() == expected && forall|i: int, k: int|
                0 <= i < n && before[i] <= k < before[i + 1] ==> #[trigger] r->Ok_0[k]
                    == #[trigger] fields[2 * i + 1]
        }),
{
    lemma_words_len(fields);
    lemma_table_count(n, words(fields));
    lemma_runs_read(fields, n, n, before);
}

/// The header boxes of a track: where they have its number, its clock and its
/// duration.
pub proof fn law_track_headers_are_read(a: u32, b: u32, c: u32, clock: u32, d: u32, rest: Seq<u8>)
    ensures
        mdhd_timescale(words(seq![a, b, c, clock, d]) + rest) == clock,
        mdhd_duration(words(seq![a, b, c, clock, d]) + rest) == d,
        tkhd_track_id(words(seq![a, b, c, clock]) + rest) == clock,
{
    let list = seq![a, b, c, clock, d];
    let short = seq![a, b, c, clock];
    lemma_words_len(list);
    lemma_words_len(short);
    lemma_word_at(Seq::empty(), list, 3);
    lemma_word_at(Seq::empty(), list, 4);
    lemma_word_at(Seq::empty(), short, 3);
    assert(Seq::<u8>::empty() + words(list) =~= words(list));
    assert(Seq::<u8>::empty() + words(short) =~= words(short));
    let w = words(list);
    let all = w + rest;
    assert(all[12] == w[12] && all[13] == w[13] && all[14] == w[14] && all[15] == w[15]);
    assert(all[16] == w[16] && all[17] == w[17] && all[18] == w[18] && all[19] == w[19]);
    let v = words(short);
    let some = v + rest;
    assert(some[12] == v[12] && some[13] == v[13] && some[14] == v[14] && some[15] == v[15]);
}

// ── samples ─────────────────────────────────────────────────────────────

proof fn lemma_starts_len(t: TablesModel, chunk: int, sample: int)
    requires
        0 <= sample <= t.sizes.len(),
    ensures
        sample_starts(t, chunk, sample) matches Ok(starts) ==> sample + starts.len()
            <= t.sizes.len(),
    decreases t.offsets.len() - chunk,
{
    if 0 <= chunk < t.offsets.len() {
        match samples_in_chunk(t.chunks, chunk + 1) {
            None => lemma_starts_len(t, chunk + 1, sample),
            Some(count) => {
                lemma_samples_nonneg(t.chunks, chunk + 1);
                lemma_starts_len(t, chunk + 1, sample + min_of(count, t.sizes.len() - sample));
            },
        }
    }
}

proof fn lemma_samples_nonneg(chunks: Seq<(u32, usize, u32)>, number: int)
    ensures
        samples_in_chunk(chunks, number) matches Some(n) ==> n >= 0,
    decreases chunks.len(),
{
    if chunks.len() > 0 {
        lemma_samples_nonneg(chunks.drop_last(), number);
    }
}

/// Sync samples are listed by their numbers, which count from one: where there
/// is such a list, decoding can start at the sample with index `k` exactly when
/// the list holds `k + 1`; without one it can start at every sample.
pub proof fn law_sync_samples_count_from_one(
    t: TablesModel,
    track_id: u32,
    timescale: u32,
    file: Seq<u8>,
    samples: Seq<SampleModel>,
    k: int,
)
    requires
        t.sizes.len() <= u32::MAX,
        track_samples(t, track_id, timescale, file) == Ok::<Seq<SampleModel>, Mp4Error>(samples),
        0 <= k < samples.len(),
    ensures
        t.sync.len() == 0 ==> samples[k].is_sync,
        t.sync.len() > 0 ==> (samples[k].is_sync <==> exists|j: int|
            0 <= j < t.sync.len() && #[trigger] t.sync[j] == k + 1),
{
    lemma_starts_len(t, 0, 0);
    assert((k + 1) as u32 == k + 1);
    if samples[k].is_sync && t.sync.len() > 0 {
        let j = choose|j: int| 0 <= j < t.sync.len() && t.sync[j] == (k + 1) as u32;
        assert(t.sync[j] == k + 1);
    }
}

/// What a track is parsed from: its head, its tables and its samples.
proof fn lemma_trak_parts(trak: Seq<u8>, file: Seq<u8>, head: HeadModel, p: ParsedModel) -> (t:
    TablesModel)
    requires
        track_head(trak) == Ok::<Option<HeadModel>, Mp4Error>(Some(head)),
        trak_model(trak, file) == Ok::<Option<ParsedModel>, Mp4Error>(Some(p)),
    ensures
        sample_tables(head.tables, head.handler, file.len() as int) == Ok::<
            Option<TablesModel>,
            Mp4Error,
        >(Some(t)),
        track_samples(t, head.track_id, head.timescale, file) == Ok::<Seq<SampleModel>, Mp4Error>(
            p.samples,
        ),
        last_box(head.tables, STSZ) is Some,
        stsz_sizes(last_box(head.tables, STSZ)->0, file.len() as int) == Ok::<
            Seq<usize>,
            Mp4Error,
        >(t.sizes),
        last_box(head.tables, STTS) is Some,
        stts_durations(last_box(head.tables, STTS)->0, t.sizes.len() as int) == Ok::<
            Seq<u32>,
            Mp4Error,
        >(t.durations),
        last_box(head.tables, STSC) is Some,
        stsc_entries(last_box(head.tables, STSC)->0) == Ok::<Seq<(u32, usize, u32)>, Mp4Error>(
            t.chunks,
        ),
        chunk_offsets(head.tables) == Ok::<Seq<u64>, Mp4Error>(t.offsets),
        sync_samples(head.tables) == Ok::<Seq<u32>, Mp4Error>(t.sync),
        t.sizes.len() <= u32::MAX,
{
    reveal(trak_model);
    match sample_tables(head.tables, head.handler, file.len() as int) {
        Ok(Some(t)) => t,
        _ => arbitrary(),
    }
}

/// In a track whose boxes list sync samples, given by the bytes of the list,
/// decoding can start exactly at the samples whose numbers, counted from one,
/// are listed: the first sample is a sync sample when 1 is listed. The frames
/// of a video track are key frames accordingly. Without a list, decoding can
/// start everywhere.
pub proof fn law_listed_samples_are_sync(
    trak: Seq<u8>,
    file: Seq<u8>,
    head: HeadModel,
    p: ParsedModel,
    numbers: Seq<u32>,
    k: int,
)
    requires
        track_head(trak) == Ok::<Option<HeadModel>, Mp4Error>(Some(head)),
        trak_model(trak, file) == Ok::<Option<ParsedModel>, Mp4Error>(Some(p)),
        0 <= k < p.samples.len(),
        0 < numbers.len() <= u32::MAX,
    ensures
        last_box(head.tables, STSS) is None ==> p.samples[k].is_sync,
        last_box(head.tables, STSS) == Some(
            be32(0) + be32(numbers.len() as int) + words(numbers),
        ) ==> (p.samples[k].is_sync <==> exists|j: int|
            0 <= j < numbers.len() && #[trigger] numbers[j] == k + 1),
        p.track.handler == TrackKind::Video ==> {
            let frame = data_frame_of(p.track, p.samples[k]);
            frame is Some && frame->0.key_frame == p.samples[k].is_sync
        },
{
    let t = lemma_trak_parts(trak, file, head, p);
    law_sync_samples_count_from_one(t, head.track_id, head.timescale, file, p.samples, k);
    law_stss_is_read(numbers);
}

/// Whether entry `e` of the chunk runs holds for the chunk with the given
/// number: it is the last that begins at or before it.
pub open spec fn entry_holds(chunks: Seq<(u32, usize, u32)>, e: int, number: int) -> bool {
    &&& 0 <= e < chunks.len()
    &&& chunks[e].0 <= number
    &&& forall|i: int| e < i < chunks.len() ==> (#[trigger] chunks[i]).0 > number
}

proof fn lemma_entry_found(chunks: Seq<(u32, usize, u32)>, e: int, number: int)
    requires
        entry_holds(chunks, e, number),
    ensures
        samples_in_chunk(chunks, number) == Some(chunks[e].1 as int),
    decreases chunks.len(),
{
    if e < chunks.len() - 1 {
        assert(chunks[chunks.len() - 1].0 > number);
        let front = chunks.drop_last();
        assert forall|i: int| e < i < front.len() implies (#[trigger] front[i]).0 > number by {
            assert(chunks[i].0 > number);
        }
        lemma_entry_found(front, e, number);
    }
}

/// Where the samples of a track lie: chunk `c` holds the samples from
/// `first[c]` up to those of the next chunk, so many as the entry of the chunk
/// runs says that holds for it; the first of them begins at the offset of the
/// chunk, and each other where the one before it ends.
pub open spec fn lies_in_chunks(
    t: TablesModel,
    entry: Seq<int>,
    first: Seq<int>,
    starts: Seq<int>,
) -> bool {
    let n = t.offsets.len() as int;
    &&& entry.len() == n
    &&& first.len() == n + 1
    &&& first[0] == 0
    &&& first[n] == starts.len()
    &&& forall|c: int| 0 <= c < n ==> entry_holds(t.chunks, #[trigger] entry[c], c + 1)
    &&& forall|c: int|
        0 <= c < n ==> #[trigger] first[c + 1] == if first[c] + t.chunks[entry[c]].1
            <= t.sizes.len() {
            first[c] + t.chunks[entry[c]].1
        } else {
            t.sizes.len() as int
        }
    &&& forall|c: int|
        0 <= c < n && first[c] < first[c + 1] ==> starts[#[trigger] first[c]] == t.offsets[c]
    &&& forall|c: int, k: int|
        0 <= c < n && first[c] <= k && k + 1 < first[c + 1] ==> #[trigger] starts[k + 1]
            == starts[k] + t.sizes[k] && #[trigger] first[c] >= 0
}

proof fn lemma_first_ascends(
    t: TablesModel,
    entry: Seq<int>,
    first: Seq<int>,
    starts: Seq<int>,
    c: int,
    d: int,
)
    requires
        lies_in_chunks(t, entry, first, starts),
        0 <= c <= d <= t.offsets.len(),
    ensures
        0 <= first[c] <= first[d] <= t.sizes.len(),
    decreases d,
{
    if c < d {
        lemma_first_ascends(t, entry, first, starts, c, d - 1);
        assert(entry_holds(t.chunks, entry[d - 1], d));
        assert(first[(d - 1) + 1] >= first[d - 1]);
    } else if d > 0 {
        lemma_first_ascends(t, entry, first, starts, d - 1, d - 1);
        assert(entry_holds(t.chunks, entry[d - 1], d));
        assert(first[(d - 1) + 1] >= first[d - 1]);
    }
}

/// In a chunk, the samples before one take the bytes before it.
proof fn lemma_start_in_chunk(
    t: TablesModel,
    entry: Seq<int>,
    first: Seq<int>,
    starts: Seq<int>,
    c: int,
    j: int,
)
    requires
        lies_in_chunks(t, entry, first, starts),
        0 <= c < t.offsets.len(),
        0 <= j < first[c + 1] - first[c],
    ensures
        starts[first[c] + j] == t.offsets[c] + sum_sizes(t.sizes, first[c], first[c] + j),
    decreases j,
{
    if j > 0 {
        lemma_start_in_chunk(t, entry, first, starts, c, j - 1);
        let k = first[c] + j - 1;
        assert(starts[k + 1] == starts[k] + t.sizes[k]);
    }
}

proof fn lemma_chunks_laid(
    t: TablesModel,
    entry: Seq<int>,
    first: Seq<int>,
    starts: Seq<int>,
    c: int,
)
    requires
        lies_in_chunks(t, entry, first, starts),
        0 <= c <= t.offsets.len(),
        forall|i: int| 0 <= i < t.offsets.len() ==> #[trigger] t.offsets[i] <= usize::MAX,
        forall|k: int| 0 <= k < starts.len() ==> #[trigger] starts[k] + t.sizes[k] <= usize::MAX,
    ensures
        sample_starts(t, c, first[c]) == Ok::<Seq<int>, Mp4Error>(starts.skip(first[c])),
    decreases t.offsets.len() - c,
{
    let n = t.offsets.len() as int;
    lemma_first_ascends(t, entry, first, starts, c, n);
    if c == n {
        assert(starts.skip(first[c]) =~= Seq::empty());
    } else {
        lemma_first_ascends(t, entry, first, starts, c, c + 1);
        lemma_first_ascends(t, entry, first, starts, c + 1, n);
        lemma_chunks_laid(t, entry, first, starts, c + 1);
        assert(entry_holds(t.chunks, entry[c], c + 1));
        lemma_entry_found(t.chunks, entry[c], c + 1);
        let count = t.chunks[entry[c]].1 as int;
        let m = min_of(count, t.sizes.len() - first[c]);
        assert(first[c + 1] == first[c] + m);
        let here = Seq::new(
            m as nat,
            |j: int| t.offsets[c] + sum_sizes(t.sizes, first[c], first[c] + j),
        );
        assert forall|j: int| 0 <= j < m implies #[trigger] here[j] == starts[first[c] + j] by {
            lemma_start_in_chunk(t, entry, first, starts, c, j);
        }
        assert(here + starts.skip(first[c + 1]) =~= starts.skip(first[c]));
        if m > 0 {
            lemma_start_in_chunk(t, entry, first, starts, c, m - 1);
            assert(starts[first[c] + m - 1] + t.sizes[first[c] + m - 1] <= usize::MAX);
        }
        assert(t.offsets[c] <= usize::MAX);
    }
}

/// The samples of a track are those of its chunks, one chunk behind the other,
/// and each holds the bytes of the file where it lies.
pub proof fn law_samples_lie_in_chunks(
    t: TablesModel,
    track_id: u32,
    timescale: u32,
    file: Seq<u8>,
    entry: Seq<int>,
    first: Seq<int>,
    starts: Seq<int>,
)
    requires
        lies_in_chunks(t, entry, first, starts),
        forall|i: int| 0 <= i < t.offsets.len() ==> #[trigger] t.offsets[i] <= usize::MAX,
        forall|k: int| 0 <= k < starts.len() ==> #[trigger] starts[k] + t.sizes[k] <= usize::MAX,
    ensures
        ({
            let r = track_samples(t, track_id, timescale, file);
            &&& r is Ok && r->Ok_0.len() == starts.len()
            &&& forall|k: int|
                0 <= k < starts.len() ==> {
                    let s = #[trigger] r->Ok_0[k];
                    &&& s.track_id == track_id && s.codec == t.codec && !s.is_config
                    &&& starts[k] + t.sizes[k] <= file.len() ==> s.data == file.subrange(
                        starts[k],
                        starts[k] + t.sizes[k],
                    )
                    &&& starts[k] + t.sizes[k] > file.len() ==> s.data.len() == 0
                }
        }),
{
    lemma_chunks_laid(t, entry, first, starts, 0);
    assert(starts.skip(0) =~= starts);
}

pub proof fn lemma_ticks(durations: Seq<u32>, ticks: Seq<int>, k: int)
    requires
        0 <= k < ticks.len(),
        ticks.len() <= durations.len() + 1,
        ticks[0] == 0,
        forall|i: int|
            0 <= i && i + 1 < ticks.len() ==> #[trigger] ticks[i + 1] == ticks[i] + durations[i],
    ensures
        sum_durations(durations, k) == ticks[k],
        ticks[k] >= 0,
    decreases k,
{
    if k > 0 {
        lemma_ticks(durations, ticks, k - 1);
        assert(ticks[(k - 1) + 1] == ticks[k - 1] + durations[k - 1]);
    }
}

/// Whether `ms` is a number of ticks in whole milliseconds.
pub open spec fn whole_ms(ticks: int, timescale: int, ms: int) -> bool {
    ms * timescale <= ticks * 1000 < (ms + 1) * timescale
}

pub proof fn lemma_whole_ms(ticks: int, timescale: int)
    requires
        timescale > 0,
        0 <= ticks,
        ticks * 1000 < 0x1_0000_0000_0000_0000,
        ticks * 1000 < 0x1_0000_0000 * timescale,
    ensures
        whole_ms(ticks, timescale, ticks_to_ms(ticks, timescale) as int),
{
    let d = ticks * 1000;
    let q = d / timescale;
    assert(q * timescale <= d < (q + 1) * timescale && 0 <= q) by (nonlinear_arith)
        requires
            timescale > 0,
            0 <= d,
            q == d / timescale,
    ;
    assert(q < 0x1_0000_0000) by (nonlinear_arith)
        requires
            timescale > 0,
            q * timescale <= d,
            d < 0x1_0000_0000 * timescale,
    ;
}

/// When the samples of a track play: the first at zero, and each other when
/// the one before it has lasted; in whole milliseconds of the clock of the
/// track. Samples are decoded when they play.
pub proof fn law_samples_play_one_after_the_other(
    t: TablesModel,
    track_id: u32,
    timescale: u32,
    file: Seq<u8>,
    samples: Seq<SampleModel>,
    ticks: Seq<int>,
    k: int,
)
    requires
        timescale > 0,
        t.sizes.len() == t.durations.len(),
        track_samples(t, track_id, timescale, file) == Ok::<Seq<SampleModel>, Mp4Error>(samples),
        ticks.len() == samples.len(),
        0 <= k < samples.len(),
        ticks[0] == 0,
        forall|i: int|
            0 <= i && i + 1 < ticks.len() ==> #[trigger] ticks[i + 1] == ticks[i] + t.durations[i],
        ticks[k] * 1000 < 0x1_0000_0000_0000_0000,
        ticks[k] * 1000 < 0x1_0000_0000 * timescale,
        t.durations[k] * 1000 < 0x1_0000_0000 * timescale,
    ensures
        whole_ms(ticks[k], timescale as int, samples[k].pts_ms as int),
        samples[k].dts_ms == samples[k].pts_ms,
        whole_ms(t.durations[k] as int, timescale as int, samples[k].duration_ms as int),
{
    lemma_starts_len(t, 0, 0);
    lemma_ticks(t.durations, ticks, k);
    lemma_whole_ms(ticks[k], timescale as int);
    lemma_whole_ms(t.durations[k] as int, timescale as int);
}

/// The samples of a track are laid out by its own boxes: sizes by `stsz`,
/// durations by `stts`, chunk runs by `stsc`, and chunk offsets by `co64` where
/// there is one, else by `stco`.
pub proof fn law_track_is_laid_out_by_its_boxes(
    trak: Seq<u8>,
    file: Seq<u8>,
    head: HeadModel,
    p: ParsedModel,
) -> (t: TablesModel)
    requires
        track_head(trak) == Ok::<Option<HeadModel>, Mp4Error>(Some(head)),
        trak_model(trak, file) == Ok::<Option<ParsedModel>, Mp4Error>(Some(p)),
    ensures
        track_samples(t, head.track_id, head.timescale, file) == Ok::<Seq<SampleModel>, Mp4Error>(
            p.samples,
        ),
        last_box(head.tables, STSZ) matches Some(body) && stsz_sizes(body, file.len() as int)
            == Ok::<Seq<usize>, Mp4Error>(t.sizes),
        last_box(head.tables, STTS) matches Some(body) && stts_durations(
            body,
            t.sizes.len() as int,
        ) == Ok::<Seq<u32>, Mp4Error>(t.durations),
        last_box(head.tables, STSC) matches Some(body) && stsc_entries(body) == Ok::<
            Seq<(u32, usize, u32)>,
            Mp4Error,
        >(t.chunks),
        last_box(head.tables, CO64) matches Some(body) ==> co64_offsets(body) == Ok::<
            Seq<u64>,
            Mp4Error,
        >(t.offsets),
        last_box(head.tables, CO64) is None ==> (last_box(head.tables, STCO) matches Some(body)
            && stco_offsets(body) == Ok::<Seq<u64>, Mp4Error>(t.offsets)),
        p.track.track_id == head.track_id,
        p.track.timescale == head.timescale,
        p.track.duration == head.duration,
        p.track.handler == head.handler,
        p.track.codec == t.codec,
        p.track.config == t.config,
        p.track.sample_count == t.sizes.len(),
{
    let t = lemma_trak_parts(trak, file, head, p);
    reveal(trak_model);
    t
}

} // verus!
