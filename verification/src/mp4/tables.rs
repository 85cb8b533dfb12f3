//! Sample tables of a track: durations, chunk layout, sizes and sync samples.
use vstd::prelude::*;
use crate::bytes::{read_u32, read_u64, u32_at, u64_at};
use crate::mp4::boxes::{Mp4Error, CO64, STCO, STSC, STSS, STSZ, STTS};

verus! {

/// `count` 32-bit integers from offset `off` on.
pub open spec fn u32_table(body: Seq<u8>, off: int, count: int) -> Seq<u32> {
    Seq::new(count as nat, |i: int| u32_at(body, off + 4 * i) as u32)
}

/// `count` 64-bit integers from offset `off` on.
pub open spec fn u64_table(body: Seq<u8>, off: int, count: int) -> Seq<u64> {
    Seq::new(count as nat, |i: int| u64_at(body, off + 8 * i) as u64)
}

/// Number of entries that a table announces behind its version and flags.
pub open spec fn entry_count(body: Seq<u8>) -> int {
    u32_at(body, 4)
}

/// Whether a table holds its own entry count and that many entries.
pub open spec fn table_fits(body: Seq<u8>, entry_size: int) -> bool {
    body.len() >= 8 && 8 + entry_count(body) * entry_size <= body.len()
}

/// The durations that the first `n` entries of `stts` describe: each entry is
/// a number of samples and the duration of each of them.
pub open spec fn stts_runs(body: Seq<u8>, n: int) -> Seq<u32>
    decreases n,
{
    if n <= 0 {
        Seq::empty()
    } else {
        stts_runs(body, n - 1) + Seq::new(
            u32_at(body, 8 + 8 * (n - 1)) as nat,
            |i: int| u32_at(body, 8 + 8 * (n - 1) + 4) as u32,
        )
    }
}

/// The duration of each of the `expected` samples.
pub open spec fn stts_durations(body: Seq<u8>, expected: int) -> Result<Seq<u32>, Mp4Error> {
    if !table_fits(body, 8) {
        Err(Mp4Error::Truncated(STTS))
    } else if stts_runs(body, entry_count(body)).len() != expected {
        Err(Mp4Error::SampleCountMismatch)
    } else {
        Ok(stts_runs(body, entry_count(body)))
    }
}

/// The entries of `stsc`: first chunk, samples per chunk, sample description.
pub open spec fn stsc_entries(body: Seq<u8>) -> Result<Seq<(u32, usize, u32)>, Mp4Error> {
    if !table_fits(body, 12) {
        Err(Mp4Error::Truncated(STSC))
    } else {
        Ok(
            Seq::new(
                entry_count(body) as nat,
                |i: int|
                    (
                        u32_at(body, 8 + 12 * i) as u32,
                        u32_at(body, 8 + 12 * i + 4) as usize,
                        u32_at(body, 8 + 12 * i + 8) as u32,
                    ),
            ),
        )
    }
}

/// The size of each sample: one size for all of them, or a table.
pub open spec fn stsz_sizes(body: Seq<u8>, file_len: int) -> Result<Seq<usize>, Mp4Error> {
    if body.len() < 12 {
        Err(Mp4Error::Truncated(STSZ))
    } else if u32_at(body, 4) != 0 {
        if u32_at(body, 8) * u32_at(body, 4) > file_len {
            Err(Mp4Error::SamplesExceedFile)
        } else {
            Ok(Seq::new(u32_at(body, 8) as nat, |i: int| u32_at(body, 4) as usize))
        }
    } else if 12 + 4 * u32_at(body, 8) > body.len() {
        Err(Mp4Error::Truncated(STSZ))
    } else {
        Ok(Seq::new(u32_at(body, 8) as nat, |i: int| u32_at(body, 12 + 4 * i) as usize))
    }
}

/// The file offset of each chunk, from `stco`.
pub open spec fn stco_offsets(body: Seq<u8>) -> Result<Seq<u64>, Mp4Error> {
    if !table_fits(body, 4) {
        Err(Mp4Error::Truncated(STCO))
    } else {
        Ok(Seq::new(entry_count(body) as nat, |i: int| u32_at(body, 8 + 4 * i) as u64))
    }
}

/// The file offset of each chunk, from `co64`.
pub open spec fn co64_offsets(body: Seq<u8>) -> Result<Seq<u64>, Mp4Error> {
    if !table_fits(body, 8) {
        Err(Mp4Error::Truncated(CO64))
    } else {
        Ok(u64_table(body, 8, entry_count(body)))
    }
}

/// The numbers of the sync samples, from `stss`.
pub open spec fn stss_samples(body: Seq<u8>) -> Result<Seq<u32>, Mp4Error> {
    if !table_fits(body, 4) {
        Err(Mp4Error::Truncated(STSS))
    } else {
        Ok(u32_table(body, 8, entry_count(body)))
    }
}

/// What a fallible parser of a `Vec` returned, as the model has it.
pub open spec fn same_result<T>(r: Result<Vec<T>, Mp4Error>, m: Result<Seq<T>, Mp4Error>) -> bool {
    match (r, m) {
        (Ok(a), Ok(b)) => a@ == b,
        (Err(a), Err(b)) => a == b,
        _ => false,
    }
}

/// Checks that `entry_count` entries of `entry_size` bytes behind a header of
/// `header_len` bytes fit in `body_len` bytes.
pub fn ensure_table_entries(
    box_kind: u32,
    body_len: usize,
    header_len: usize,
    entry_count: usize,
    entry_size: usize,
) -> (r: Result<(), Mp4Error>)
    ensures
        header_len + entry_count * entry_size <= body_len ==> r == Ok::<(), Mp4Error>(()),
        header_len + entry_count * entry_size > body_len ==> r == Err::<(), Mp4Error>(
            Mp4Error::Truncated(box_kind),
        ),
{
    let entries: usize = match entry_count.checked_mul(entry_size) {
        Some(n) => n,
        None => {
            return Err(Mp4Error::Truncated(box_kind));
        },
    };
    match header_len.checked_add(entries) {
        Some(required) => if required > body_len {
            Err(Mp4Error::Truncated(box_kind))
        } else {
            Ok(())
        },
        None => Err(Mp4Error::Truncated(box_kind)),
    }
}

/// Reads the entry count of a table whose entries take `entry_size` bytes.
fn read_entry_count(body: &[u8], box_kind: u32, entry_size: usize) -> (r: Result<usize, Mp4Error>)
    ensures
        match r {
            Ok(n) => table_fits(body@, entry_size as int) && n == entry_count(body@),
            Err(e) => !table_fits(body@, entry_size as int) && e == Mp4Error::Truncated(box_kind),
        },
{
    if body.len() < 8 {
        return Err(Mp4Error::Truncated(box_kind));
    }
    let count: usize = read_u32(body, 4) as usize;
    match ensure_table_entries(box_kind, body.len(), 8, count, entry_size) {
        Ok(_) => Ok(count),
        Err(e) => Err(e),
    }
}

/// Reads `count` 32-bit integers from `off` on.
fn read_u32_table(body: &[u8], off: usize, count: usize) -> (r: Vec<u32>)
    requires
        off + 4 * count <= body@.len(),
    ensures
        r@ == u32_table(body@, off as int, count as int),
{
    let total: usize = body.len();
    let mut out: Vec<u32> = Vec::new();
    let mut i: usize = 0;
    while i < count
        invariant
            i <= count,
            off + 4 * count <= body@.len() == total,
            out@ =~= u32_table(body@, off as int, i as int),
        decreases count - i,
    {
        out.push(read_u32(body, off + 4 * i));
        i = i + 1;
    }
    out
}

/// The runs of fewer entries describe no more samples.
proof fn lemma_runs_grow(body: Seq<u8>, i: int, n: int)
    requires
        i <= n,
    ensures
        stts_runs(body, i).len() <= stts_runs(body, n).len(),
    decreases n - i,
{
    if i < n {
        lemma_runs_grow(body, i, n - 1);
    }
}

/// Parses `stts`: the duration of each sample.
pub fn parse_stts(stts: &[u8], expected_samples: usize) -> (r: Result<Vec<u32>, Mp4Error>)
    ensures
        same_result(r, stts_durations(stts@, expected_samples as int)),
{
    let entries: usize = match read_entry_count(stts, STTS, 8) {
        Ok(n) => n,
        Err(e) => {
            return Err(e);
        },
    };
    let total: usize = stts.len();
    let mut out: Vec<u32> = Vec::new();
    let mut i: usize = 0;
    while i < entries
        invariant
            i <= entries,
            8 + 8 * entries <= stts@.len() == total,
            entries == entry_count(stts@),
            table_fits(stts@, 8),
            out@ == stts_runs(stts@, i as int),
            out@.len() <= expected_samples,
        decreases entries - i,
    {
        let count: usize = read_u32(stts, 8 + 8 * i) as usize;
        let delta: u32 = read_u32(stts, 8 + 8 * i + 4);
        let ghost before = out@;
        proof {
            lemma_runs_grow(stts@, i + 1, entries as int);
            assert(stts_runs(stts@, i + 1).len() == before.len() + count);
        }
        if count > expected_samples - out.len() {
            return Err(Mp4Error::SampleCountMismatch);
        }
        let new_len: usize = out.len() + count;
        out.resize(new_len, delta);
        proof {
            assert(out@ =~= stts_runs(stts@, i + 1));
        }
        i = i + 1;
    }
    if out.len() != expected_samples {
        return Err(Mp4Error::SampleCountMismatch);
    }
    Ok(out)
}

/// Parses `stsc`: `(first_chunk, samples_per_chunk, sample_description_index)`
/// entries. Each entry applies from `first_chunk` through the chunk before the
/// next entry.
pub fn parse_stsc(stsc: &[u8]) -> (r: Result<Vec<(u32, usize, u32)>, Mp4Error>)
    ensures
        same_result(r, stsc_entries(stsc@)),
{
    let entries: usize = match read_entry_count(stsc, STSC, 12) {
        Ok(n) => n,
        Err(e) => {
            return Err(e);
        },
    };
    let total: usize = stsc.len();
    let mut out: Vec<(u32, usize, u32)> = Vec::new();
    let mut i: usize = 0;
    while i < entries
        invariant
            i <= entries,
            8 + 12 * entries <= stsc@.len() == total,
            entries == entry_count(stsc@),
            out@ =~= Seq::new(
                i as nat,
                |i: int|
                    (
                        u32_at(stsc@, 8 + 12 * i) as u32,
                        u32_at(stsc@, 8 + 12 * i + 4) as usize,
                        u32_at(stsc@, 8 + 12 * i + 8) as u32,
                    ),
            ),
        decreases entries - i,
    {
        let pos: usize = 8 + 12 * i;
        out.push((read_u32(stsc, pos), read_u32(stsc, pos + 4) as usize, read_u32(stsc, pos + 8)));
        i = i + 1;
    }
    Ok(out)
}

/// Parses `stsz`: the size of each sample.
pub fn parse_stsz(stsz: &[u8], file_len: usize) -> (r: Result<Vec<usize>, Mp4Error>)
    ensures
        same_result(r, stsz_sizes(stsz@, file_len as int)),
{
    if stsz.len() < 12 {
        return Err(Mp4Error::Truncated(STSZ));
    }
    let sample_size: usize = read_u32(stsz, 4) as usize;
    let sample_count: usize = read_u32(stsz, 8) as usize;
    if sample_size != 0 {
        proof {
            lemma_quotient(sample_count as int, sample_size as int, file_len as int);
        }
        if sample_count > file_len / sample_size {
            return Err(Mp4Error::SamplesExceedFile);
        }
        let mut out: Vec<usize> = Vec::new();
        out.resize(sample_count, sample_size);
        assert(out@ =~= Seq::new(u32_at(stsz@, 8) as nat, |i: int| u32_at(stsz@, 4) as usize));
        return Ok(out);
    }
    match ensure_table_entries(STSZ, stsz.len(), 12, sample_count, 4) {
        Ok(_) => {},
        Err(e) => {
            return Err(e);
        },
    }
    let total: usize = stsz.len();
    let mut out: Vec<usize> = Vec::new();
    let mut i: usize = 0;
    while i < sample_count
        invariant
            i <= sample_count,
            12 + 4 * sample_count <= stsz@.len() == total,
            out@ =~= Seq::new(i as nat, |i: int| u32_at(stsz@, 12 + 4 * i) as usize),
        decreases sample_count - i,
    {
        out.push(read_u32(stsz, 12 + 4 * i) as usize);
        i = i + 1;
    }
    Ok(out)
}

proof fn lemma_quotient(n: int, d: int, total: int)
    requires
        d > 0,
        n >= 0,
        total >= 0,
    ensures
        n > total / d <==> n * d > total,
{
    let q = total / d;
    assert(q * d <= total < (q + 1) * d) by (nonlinear_arith)
        requires
            d > 0,
            q == total / d,
    ;
    if n > q {
        assert(n * d >= (q + 1) * d) by (nonlinear_arith)
            requires
                n >= q + 1,
                d > 0,
        ;
    } else {
        assert(n * d <= q * d) by (nonlinear_arith)
            requires
                n <= q,
                d > 0,
        ;
    }
}

/// Parses `stco`: the 32-bit file offset of each chunk.
pub fn parse_stco(stco: &[u8]) -> (r: Result<Vec<u64>, Mp4Error>)
    ensures
        same_result(r, stco_offsets(stco@)),
{
    let count: usize = match read_entry_count(stco, STCO, 4) {
        Ok(n) => n,
        Err(e) => {
            return Err(e);
        },
    };
    let total: usize = stco.len();
    let mut out: Vec<u64> = Vec::new();
    let mut i: usize = 0;
    while i < count
        invariant
            i <= count,
            8 + 4 * count <= stco@.len() == total,
            out@ =~= Seq::new(i as nat, |i: int| u32_at(stco@, 8 + 4 * i) as u64),
        decreases count - i,
    {
        out.push(read_u32(stco, 8 + 4 * i) as u64);
        i = i + 1;
    }
    Ok(out)
}

/// Parses `co64`: the 64-bit file offset of each chunk.
pub fn parse_co64(co64: &[u8]) -> (r: Result<Vec<u64>, Mp4Error>)
    ensures
        same_result(r, co64_offsets(co64@)),
{
    let count: usize = match read_entry_count(co64, CO64, 8) {
        Ok(n) => n,
        Err(e) => {
            return Err(e);
        },
    };
    let total: usize = co64.len();
    let mut out: Vec<u64> = Vec::new();
    let mut i: usize = 0;
    while i < count
        invariant
            i <= count,
            8 + 8 * count <= co64@.len() == total,
            out@ =~= u64_table(co64@, 8, i as int),
        decreases count - i,
    {
        out.push(read_u64(co64, 8 + 8 * i));
        i = i + 1;
    }
    Ok(out)
}

/// Parses `stss`: the numbers of the sync samples.
pub fn parse_stss(stss: &[u8]) -> (r: Result<Vec<u32>, Mp4Error>)
    ensures
        same_result(r, stss_samples(stss@)),
{
    let count: usize = match read_entry_count(stss, STSS, 4) {
        Ok(n) => n,
        Err(e) => {
            return Err(e);
        },
    };
    Ok(read_u32_table(stss, 8, count))
}

} // verus!
