//! Where the samples of a track lie in the file, and when they play.
use vstd::prelude::*;
use crate::bytes::{slice, to_vec, views};
use crate::media::CodecId;
use crate::mp4::boxes::Mp4Error;

verus! {

/// One encoded frame of a file.
#[derive(Debug, Clone)]
pub struct DemuxedSample {
    pub track_id: u32,
    pub codec: CodecId,
    /// Payload as stored in the file.
    pub data: Vec<u8>,
    /// Presentation timestamp in milliseconds.
    pub pts_ms: u32,
    /// Decode timestamp in milliseconds.
    pub dts_ms: u32,
    /// Duration in milliseconds.
    pub duration_ms: u32,
    /// Whether decoding can start here.
    pub is_sync: bool,
    /// Whether the sample is a decoder configuration.
    pub is_config: bool,
}

/// The model of a sample.
#[verifier::ext_equal]
pub struct SampleModel {
    pub track_id: u32,
    pub codec: CodecId,
    pub data: Seq<u8>,
    pub pts_ms: u32,
    pub dts_ms: u32,
    pub duration_ms: u32,
    pub is_sync: bool,
    pub is_config: bool,
}

impl View for DemuxedSample {
    type V = SampleModel;

    open spec fn view(&self) -> SampleModel {
        SampleModel {
            track_id: self.track_id,
            codec: self.codec,
            data: self.data@,
            pts_ms: self.pts_ms,
            dts_ms: self.dts_ms,
            duration_ms: self.duration_ms,
            is_sync: self.is_sync,
            is_config: self.is_config,
        }
    }
}

/// The tables of a track that place its samples.
pub struct SampleTables {
    pub codec: CodecId,
    pub config: Vec<u8>,
    pub sizes: Vec<usize>,
    pub durations: Vec<u32>,
    pub chunks: Vec<(u32, usize, u32)>,
    pub offsets: Vec<u64>,
    pub sync: Vec<u32>,
}

/// The model of the sample tables.
#[verifier::ext_equal]
pub struct TablesModel {
    pub codec: CodecId,
    pub config: Seq<u8>,
    pub sizes: Seq<usize>,
    pub durations: Seq<u32>,
    pub chunks: Seq<(u32, usize, u32)>,
    pub offsets: Seq<u64>,
    pub sync: Seq<u32>,
}

impl View for SampleTables {
    type V = TablesModel;

    open spec fn view(&self) -> TablesModel {
        TablesModel {
            codec: self.codec,
            config: self.config@,
            sizes: self.sizes@,
            durations: self.durations@,
            chunks: self.chunks@,
            offsets: self.offsets@,
            sync: self.sync@,
        }
    }
}

/// Samples in the chunk with the given number: what the last entry says that
/// begins at or before it.
pub open spec fn samples_in_chunk(chunks: Seq<(u32, usize, u32)>, number: int) -> Option<int>
    decreases chunks.len(),
{
    if chunks.len() == 0 {
        None
    } else if chunks.last().0 <= number {
        Some(chunks.last().1 as int)
    } else {
        samples_in_chunk(chunks.drop_last(), number)
    }
}

/// Total size of the samples `from..to`.
pub open spec fn sum_sizes(sizes: Seq<usize>, from: int, to: int) -> int
    decreases to - from,
{
    if from >= to {
        0
    } else {
        sum_sizes(sizes, from, to - 1) + sizes[to - 1]
    }
}

/// Total duration of the first `n` samples.
pub open spec fn sum_durations(durations: Seq<u32>, n: int) -> int
    decreases n,
{
    if n <= 0 {
        0
    } else {
        sum_durations(durations, n - 1) + durations[n - 1]
    }
}

/// The smaller of two numbers.
pub open spec fn min_of(a: int, b: int) -> int {
    if a <= b {
        a
    } else {
        b
    }
}

/// File offsets of the samples from `sample` on, which fill the chunks from
/// `chunk` on: in a chunk, one sample follows the other.
pub open spec fn sample_starts(t: TablesModel, chunk: int, sample: int) -> Result<
    Seq<int>,
    Mp4Error,
>
    decreases t.offsets.len() - chunk,
{
    if chunk < 0 || chunk >= t.offsets.len() {
        Ok(Seq::empty())
    } else {
        match samples_in_chunk(t.chunks, chunk + 1) {
            None => sample_starts(t, chunk + 1, sample),
            Some(count) => {
                let n = min_of(count, t.sizes.len() - sample);
                if t.offsets[chunk] > usize::MAX || (n > 0 && t.offsets[chunk] + sum_sizes(
                    t.sizes,
                    sample,
                    sample + n,
                ) > usize::MAX) {
                    Err(Mp4Error::OffsetOverflow)
                } else {
                    match sample_starts(t, chunk + 1, sample + n) {
                        Err(e) => Err(e),
                        Ok(rest) => Ok(
                            Seq::new(
                                n as nat,
                                |j: int| t.offsets[chunk] + sum_sizes(t.sizes, sample, sample + j),
                            ) + rest,
                        ),
                    }
                }
            },
        }
    }
}

/// A number of ticks in milliseconds, as 64-bit arithmetic has it.
pub open spec fn ticks_to_ms(ticks: int, timescale: int) -> u32 {
    ((((ticks * 1000) % 0x1_0000_0000_0000_0000) / timescale) % 0x1_0000_0000) as u32
}

/// The sample with index `k`, which begins at `start` in the file.
pub open spec fn sample_model(
    t: TablesModel,
    track_id: u32,
    timescale: u32,
    file: Seq<u8>,
    k: int,
    start: int,
) -> SampleModel {
    let end = start + t.sizes[k];
    let pts = ticks_to_ms(sum_durations(t.durations, k), timescale as int);
    SampleModel {
        track_id,
        codec: t.codec,
        data: if end <= file.len() {
            file.subrange(start, end)
        } else {
            Seq::empty()
        },
        pts_ms: pts,
        dts_ms: pts,
        duration_ms: ticks_to_ms(t.durations[k] as int, timescale as int),
        is_sync: t.sync.len() == 0 || t.sync.contains((k + 1) as u32),
        is_config: false,
    }
}

/// The samples of a track.
pub open spec fn track_samples(
    t: TablesModel,
    track_id: u32,
    timescale: u32,
    file: Seq<u8>,
) -> Result<Seq<SampleModel>, Mp4Error> {
    match sample_starts(t, 0, 0) {
        Err(e) => Err(e),
        Ok(starts) => Ok(
            Seq::new(
                starts.len(),
                |k: int| sample_model(t, track_id, timescale, file, k, starts[k]),
            ),
        ),
    }
}

/// Whether the tables agree on the number of samples.
pub open spec fn tables_agree(t: TablesModel) -> bool {
    t.sizes.len() == t.durations.len() && t.sizes.len() <= u32::MAX && t.offsets.len() <= u32::MAX
}

/// The number of samples in a chunk.
fn find_samples_in_chunk(chunks: &Vec<(u32, usize, u32)>, number: u32) -> (r: Option<usize>)
    ensures
        match (r, samples_in_chunk(chunks@, number as int)) {
            (Some(a), Some(b)) => a == b,
            (None, None) => true,
            _ => false,
        },
{
    let mut n: usize = chunks.len();
    proof {
        assert(chunks@.take(n as int) =~= chunks@);
    }
    while n > 0
        invariant
            n <= chunks@.len(),
            samples_in_chunk(chunks@.take(n as int), number as int) == samples_in_chunk(
                chunks@,
                number as int,
            ),
        decreases n,
    {
        proof {
            assert(chunks@.take(n as int).drop_last() =~= chunks@.take(n - 1));
        }
        if chunks[n - 1].0 <= number {
            return Some(chunks[n - 1].1);
        }
        n = n - 1;
    }
    None
}

/// Whether `list` holds `x`.
fn list_contains(list: &Vec<u32>, x: u32) -> (r: bool)
    ensures
        r == list@.contains(x),
{
    let mut i: usize = 0;
    while i < list.len()
        invariant
            i <= list@.len(),
            forall|j: int| 0 <= j < i ==> list@[j] != x,
        decreases list@.len() - i,
    {
        if list[i] == x {
            assert(list@[i as int] == x);
            return true;
        }
        i = i + 1;
    }
    false
}

/// A number of ticks in milliseconds.
fn to_ms(ticks: u64, timescale: u32) -> (r: u32)
    requires
        timescale > 0,
    ensures
        r == ticks_to_ms(ticks as int, timescale as int),
{
    let scaled: u64 = ((ticks as u128 * 1000) % 0x1_0000_0000_0000_0000) as u64;
    ((scaled / timescale as u64) % 0x1_0000_0000) as u32
}

/// The time at which each sample begins.
fn start_ticks(durations: &Vec<u32>) -> (r: Vec<u64>)
    requires
        durations@.len() <= u32::MAX,
    ensures
        r@.len() == durations@.len(),
        forall|k: int|
            0 <= k < r@.len() ==> #[trigger] r@[k] == sum_durations(durations@, k),
{
    let mut out: Vec<u64> = Vec::new();
    let mut t: u64 = 0;
    let mut i: usize = 0;
    while i < durations.len()
        invariant
            i <= durations@.len() <= u32::MAX,
            out@.len() == i,
            t == sum_durations(durations@, i as int),
            t <= i * 0xffff_ffff,
            forall|k: int|
                0 <= k < i ==> #[trigger] out@[k] == sum_durations(durations@, k),
        decreases durations@.len() - i,
    {
        out.push(t);
        t = t + durations[i] as u64;
        i = i + 1;
    }
    out
}

proof fn lemma_sum_sizes_grow(sizes: Seq<usize>, from: int, mid: int, to: int)
    requires
        from <= mid <= to,
    ensures
        0 <= sum_sizes(sizes, from, mid) <= sum_sizes(sizes, from, to),
    decreases to - from,
{
    if mid < to {
        lemma_sum_sizes_grow(sizes, from, mid, to - 1);
    } else if from < mid {
        lemma_sum_sizes_grow(sizes, from, mid - 1, mid - 1);
    }
}

/// Cuts the samples of a track out of the file.
pub fn layout_samples(
    t: &SampleTables,
    track_id: u32,
    timescale: u32,
    file: &[u8],
) -> (r: Result<Vec<DemuxedSample>, Mp4Error>)
    requires
        timescale > 0,
        tables_agree(t@),
    ensures
        match (r, track_samples(t@, track_id, timescale, file@)) {
            (Ok(a), Ok(b)) => views(a@) == b,
            (Err(a), Err(b)) => a == b,
            _ => false,
        },
{
    let ticks = start_ticks(&t.durations);
    let sample_count: usize = t.sizes.len();
    let mut out: Vec<DemuxedSample> = Vec::new();
    let mut starts: Ghost<Seq<int>> = Ghost(Seq::empty());
    let mut chunk: usize = 0;
    while chunk < t.offsets.len()
        invariant
            timescale > 0,
            tables_agree(t@),
            sample_count == t.sizes@.len(),
            ticks@.len() == t.durations@.len(),
            forall|k: int|
                0 <= k < ticks@.len() ==> #[trigger] ticks@[k] == sum_durations(t.durations@, k),
            chunk <= t.offsets@.len(),
            out@.len() == starts@.len(),
            out@.len() <= sample_count,
            forall|k: int|
                0 <= k < out@.len() ==> (#[trigger] out@[k])@ == sample_model(
                    t@,
                    track_id,
                    timescale,
                    file@,
                    k,
                    starts@[k],
                ),
            match (sample_starts(t@, chunk as int, out@.len() as int), sample_starts(t@, 0, 0)) {
                (Ok(rest), Ok(all)) => starts@ + rest == all,
                (Err(a), Err(b)) => a == b,
                _ => false,
            },
        decreases t.offsets@.len() - chunk,
    {
        let number: u32 = chunk as u32 + 1;
        if let Some(count) = find_samples_in_chunk(&t.chunks, number) {
            let first: usize = out.len();
            let left: usize = sample_count - first;
            let n: usize = if count <= left {
                count
            } else {
                left
            };
            let ghost before = starts@;
            let offset64: u64 = t.offsets[chunk];
            if offset64 > usize::MAX as u64 {
                return Err(Mp4Error::OffsetOverflow);
            }
            let offset: usize = offset64 as usize;
            let mut running: usize = 0;
            let mut j: usize = 0;
            while j < n
                invariant
                    timescale > 0,
                    tables_agree(t@),
                    sample_count == t.sizes@.len(),
                    ticks@.len() == t.durations@.len(),
                    forall|k: int|
                        0 <= k < ticks@.len() ==> #[trigger] ticks@[k] == sum_durations(
                            t.durations@,
                            k,
                        ),
                    chunk < t.offsets@.len(),
                    offset == t.offsets@[chunk as int],
                    samples_in_chunk(t.chunks@, chunk + 1) == Some(count as int),
                    n == min_of(count as int, sample_count - first),
                    j <= n,
                    first + n <= sample_count,
                    out@.len() == first + j,
                    before.len() == first,
                    starts@ =~= before + Seq::new(
                        j as nat,
                        |i: int| offset + sum_sizes(t.sizes@, first as int, first + i),
                    ),
                    forall|k: int|
                        0 <= k < out@.len() ==> (#[trigger] out@[k])@ == sample_model(
                            t@,
                            track_id,
                            timescale,
                            file@,
                            k,
                            starts@[k],
                        ),
                    running == sum_sizes(t.sizes@, first as int, first + j),
                    offset + running <= usize::MAX,
                    match (
                        sample_starts(t@, chunk as int, first as int),
                        sample_starts(t@, 0, 0),
                    ) {
                        (Ok(rest), Ok(all)) => before + rest == all,
                        (Err(a), Err(b)) => a == b,
                        _ => false,
                    },
                decreases n - j,
            {
                let k: usize = first + j;
                let size: usize = t.sizes[k];
                let start: usize = offset + running;
                proof {
                    lemma_sum_sizes_grow(t.sizes@, first as int, first + j + 1, first + n);
                    assert(sum_sizes(t.sizes@, first as int, first + j + 1) == running + size);
                }
                if size > usize::MAX - start {
                    return Err(Mp4Error::OffsetOverflow);
                }
                let end: usize = start + size;
                running = running + size;
                let data: Vec<u8> = if end <= file.len() {
                    to_vec(slice(file, start, end))
                } else {
                    Vec::new()
                };
                let pts_ms: u32 = to_ms(ticks[k], timescale);
                let is_sync: bool = t.sync.len() == 0 || list_contains(&t.sync, k as u32 + 1);
                let sample = DemuxedSample {
                    track_id,
                    codec: t.codec,
                    data,
                    pts_ms,
                    dts_ms: pts_ms,
                    duration_ms: to_ms(t.durations[k] as u64, timescale),
                    is_sync,
                    is_config: false,
                };
                proof {
                    assert(data@ =~= if end <= file@.len() {
                        file@.subrange(start as int, end as int)
                    } else {
                        Seq::empty()
                    });
                    assert(sample@ == sample_model(
                        t@,
                        track_id,
                        timescale,
                        file@,
                        k as int,
                        start as int,
                    ));
                    starts@ = starts@.push(start as int);
                }
                out.push(sample);
                j = j + 1;
            }
            proof {
                if let Ok(rest) = sample_starts(t@, chunk + 1, first + n) {
                    let here = Seq::new(
                        n as nat,
                        |i: int| t@.offsets[chunk as int] + sum_sizes(t@.sizes, first as int, first + i),
                    );
                    assert(starts@ =~= before + here);
                    assert(before + (here + rest) =~= starts@ + rest);
                }
            }
        }
        chunk = chunk + 1;
    }
    proof {
        assert(starts@ + Seq::<int>::empty() =~= starts@);
        if let Ok(all) = sample_starts(t@, 0, 0) {
            assert(all == starts@);
            assert(views(out@) =~= Seq::new(
                all.len(),
                |k: int| sample_model(t@, track_id, timescale, file@, k, all[k]),
            ));
        }
    }
    Ok(out)
}

} // verus!
