//! The body of an upstream response, taken apart as it arrives.
use vstd::prelude::*;
use vstd::utf8::{decode_utf8, valid_utf8};
use crate::bytes::{put_bytes, slice, to_vec, views};
use crate::http::upstream::{UpstreamError, find_bytes};
use crate::text::{
    chars_of, decode_text, first_place, hex_digits_value, parse_hex, parsed_hex, pieces, split, stands_at, trim,
    trimmed,
};

verus! {

/// The end of a line.
pub open spec fn line_end() -> Seq<u8> {
    seq![13, 10]
}

/// What is known of a body.
#[verifier::ext_equal]
pub struct BodyModel {
    /// What was read and not handed out.
    pub buffer: Seq<u8>,
    pub chunked: bool,
    /// What is left to hand out, when the length is known.
    pub remaining: Option<int>,
    pub finished: bool,
}

/// What a body gives next.
pub enum BodyStep {
    Data(Vec<u8>),
    Finished,
    /// More must be read.
    NeedMore,
}

/// The model of what a body gives next.
pub enum StepModel {
    Data(Seq<u8>),
    Finished,
    NeedMore,
}

impl View for BodyStep {
    type V = StepModel;

    open spec fn view(&self) -> StepModel {
        match self {
            BodyStep::Data(d) => StepModel::Data(d@),
            BodyStep::Finished => StepModel::Finished,
            BodyStep::NeedMore => StepModel::NeedMore,
        }
    }
}

/// The size that the line before a chunk gives: a hexadecimal number before
/// the first semicolon.
pub open spec fn chunk_size(line: Seq<u8>) -> Result<int, UpstreamError> {
    if !valid_utf8(line) {
        Err(UpstreamError::NotText)
    } else {
        match parsed_hex(trimmed(pieces(decode_utf8(line), ';')[0]), u64::MAX as int) {
            Some(n) => Ok(n),
            None => Err(UpstreamError::ChunkSize),
        }
    }
}

/// What a body in chunks gives next, and what is left then.
pub open spec fn chunk_step(m: BodyModel) -> Result<(StepModel, BodyModel), UpstreamError> {
    match first_place(m.buffer, line_end(), 0) {
        None => Ok((StepModel::NeedMore, m)),
        Some(k) => match chunk_size(m.buffer.take(k)) {
            Err(e) => Err(e),
            Ok(size) => {
                let rest = m.buffer.skip(k + 2);
                if size == 0 {
                    Ok((StepModel::Finished, BodyModel { buffer: rest, finished: true, ..m }))
                } else if rest.len() < size + 2 {
                    Ok((StepModel::NeedMore, m))
                } else if rest.subrange(size, size + 2) != line_end() {
                    Err(UpstreamError::ChunkTerminator)
                } else {
                    Ok(
                        (
                            StepModel::Data(rest.take(size)),
                            BodyModel { buffer: rest.skip(size + 2), ..m },
                        ),
                    )
                }
            },
        },
    }
}

/// What a body gives next, and what is left then.
pub open spec fn body_step(m: BodyModel) -> Result<(StepModel, BodyModel), UpstreamError> {
    if m.finished {
        Ok((StepModel::Finished, m))
    } else if m.chunked {
        chunk_step(m)
    } else if m.buffer.len() == 0 {
        Ok((StepModel::NeedMore, m))
    } else {
        match m.remaining {
            Some(n) => if n == 0 {
                Ok((StepModel::Finished, BodyModel { finished: true, ..m }))
            } else if n < m.buffer.len() {
                Ok(
                    (
                        StepModel::Data(m.buffer.take(n)),
                        BodyModel { buffer: m.buffer.skip(n), remaining: Some(0), ..m },
                    ),
                )
            } else {
                Ok(
                    (
                        StepModel::Data(m.buffer),
                        BodyModel {
                            buffer: Seq::empty(),
                            remaining: Some(n - m.buffer.len()),
                            ..m
                        },
                    ),
                )
            },
            None => Ok(
                (StepModel::Data(m.buffer), BodyModel { buffer: Seq::empty(), ..m }),
            ),
        }
    }
}

/// A body once nothing more can be read: in chunks something is missing, else
/// it is complete.
pub open spec fn ended(m: BodyModel) -> Result<BodyModel, UpstreamError> {
    if m.chunked && !m.finished {
        if first_place(m.buffer, line_end(), 0) is Some {
            Err(UpstreamError::ChunkBodyTruncated)
        } else {
            Err(UpstreamError::ChunkHeaderTruncated)
        }
    } else {
        Ok(BodyModel { finished: true, ..m })
    }
}

/// A body.
pub struct BodyReader {
    buffer: Vec<u8>,
    chunked: bool,
    remaining: Option<u64>,
    finished: bool,
}

impl View for BodyReader {
    type V = BodyModel;

    closed spec fn view(&self) -> BodyModel {
        BodyModel {
            buffer: self.buffer@,
            chunked: self.chunked,
            remaining: match self.remaining {
                Some(n) => Some(n as int),
                None => None,
            },
            finished: self.finished,
        }
    }
}

fn parse_chunk_size(line: &[u8]) -> (r: Result<u64, UpstreamError>)
    ensures
        match (r, chunk_size(line@)) {
            (Ok(a), Ok(b)) => a == b,
            (Err(a), Err(b)) => a == b,
            _ => false,
        },
{
    let text = match decode_text(to_vec(line)) {
        Some(t) => t,
        None => {
            return Err(UpstreamError::NotText);
        },
    };
    let chars = chars_of(text.as_str());
    let parts = split(chars.as_slice(), ';');
    assert(views(parts@)[0] == parts@[0]@);
    match parse_hex(trim(parts[0]), u64::MAX) {
        Some(n) => Ok(n),
        None => Err(UpstreamError::ChunkSize),
    }
}

impl BodyReader {
    /// A body of which the first bytes came with the head.
    pub fn new(buffer: Vec<u8>, chunked: bool, length: Option<u64>) -> (r: Self)
        ensures
            r@ == (BodyModel {
                buffer: buffer@,
                chunked,
                remaining: match length {
                    Some(n) => Some(n as int),
                    None => None,
                },
                finished: false,
            }),
    {
        Self { buffer, chunked, remaining: length, finished: false }
    }

    /// Takes more of what was read.
    pub fn feed(&mut self, data: &[u8])
        ensures
            final(self)@ == (BodyModel { buffer: old(self)@.buffer + data@, ..old(self)@ }),
    {
        put_bytes(&mut self.buffer, data);
    }

    fn next_chunk(&mut self) -> (r: Result<BodyStep, UpstreamError>)
        ensures
            match (r, chunk_step(old(self)@)) {
                (Ok(a), Ok(b)) => a@ == b.0 && final(self)@ == b.1,
                (Err(a), Err(b)) => a == b && final(self)@ == old(self)@,
                _ => false,
            },
    {
        let end: Vec<u8> = vec![13, 10];
        assert(end@ =~= line_end());
        let len: usize = self.buffer.len();
        let k: usize = match find_bytes(self.buffer.as_slice(), end.as_slice()) {
            Some(k) => k,
            None => {
                return Ok(BodyStep::NeedMore);
            },
        };
        let line = slice(self.buffer.as_slice(), 0, k);
        assert(line@ =~= self.buffer@.take(k as int));
        let size: u64 = match parse_chunk_size(line) {
            Ok(n) => n,
            Err(e) => {
                return Err(e);
            },
        };
        let ghost rest = self.buffer@.skip(k + 2);
        if size == 0 {
            let left = to_vec(slice(self.buffer.as_slice(), k + 2, len));
            assert(left@ =~= rest);
            self.buffer = left;
            self.finished = true;
            return Ok(BodyStep::Finished);
        }
        let held: u64 = (len - k - 2) as u64;
        if held < 2 || held - 2 < size {
            return Ok(BodyStep::NeedMore);
        }
        let from: usize = k + 2;
        let to: usize = from + size as usize;
        if self.buffer[to] != 13 || self.buffer[to + 1] != 10 {
            proof {
                let t = rest.subrange(size as int, size + 2);
                assert(t[0] == self.buffer@[to as int] && t[1] == self.buffer@[to + 1]);
                assert(line_end()[0] == 13 && line_end()[1] == 10);
            }
            return Err(UpstreamError::ChunkTerminator);
        }
        assert(rest.subrange(size as int, size + 2) =~= line_end());
        let data = to_vec(slice(self.buffer.as_slice(), from, to));
        let left = to_vec(slice(self.buffer.as_slice(), to + 2, len));
        assert(data@ =~= rest.take(size as int));
        assert(left@ =~= rest.skip(size + 2));
        self.buffer = left;
        Ok(BodyStep::Data(data))
    }

    /// What the body gives next.
    pub fn next(&mut self) -> (r: Result<BodyStep, UpstreamError>)
        ensures
            match (r, body_step(old(self)@)) {
                (Ok(a), Ok(b)) => a@ == b.0 && final(self)@ == b.1,
                (Err(a), Err(b)) => a == b && final(self)@ == old(self)@,
                _ => false,
            },
    {
        if self.finished {
            return Ok(BodyStep::Finished);
        }
        if self.chunked {
            return self.next_chunk();
        }
        let len: usize = self.buffer.len();
        if len == 0 {
            return Ok(BodyStep::NeedMore);
        }
        let ghost all = self.buffer@;
        match self.remaining {
            Some(n) => {
                if n == 0 {
                    self.finished = true;
                    return Ok(BodyStep::Finished);
                }
                let count: usize = if n < len as u64 {
                    n as usize
                } else {
                    len
                };
                let data = to_vec(slice(self.buffer.as_slice(), 0, count));
                let left = to_vec(slice(self.buffer.as_slice(), count, len));
                assert(data@ =~= all.take(count as int));
                assert(left@ =~= all.skip(count as int));
                assert(all.take(len as int) =~= all);
                assert(all.skip(len as int) =~= Seq::empty());
                self.buffer = left;
                self.remaining = Some(n - count as u64);
                Ok(BodyStep::Data(data))
            },
            None => {
                let data = to_vec(self.buffer.as_slice());
                self.buffer = Vec::new();
                assert(self.buffer@ =~= Seq::empty());
                Ok(BodyStep::Data(data))
            },
        }
    }

    /// Takes that nothing more can be read when more is needed: in chunks
    /// something is missing, else the body is complete.
    pub fn end(&mut self) -> (r: Result<(), UpstreamError>)
        ensures
            match ended(old(self)@) {
                Ok(m) => r is Ok && final(self)@ == m,
                Err(e) => r == Err::<(), UpstreamError>(e) && final(self)@ == old(self)@,
            },
            old(self)@.chunked && !old(self)@.finished ==> final(self)@ == old(self)@ && r == Err::<
                (),
                UpstreamError,
            >(
                if first_place(old(self)@.buffer, line_end(), 0) is Some {
                    UpstreamError::ChunkBodyTruncated
                } else {
                    UpstreamError::ChunkHeaderTruncated
                },
            ),
            !old(self)@.chunked || old(self)@.finished ==> r is Ok && final(self)@ == (BodyModel {
                finished: true,
                ..old(self)@
            }),
    {
        if self.chunked && !self.finished {
            let end: Vec<u8> = vec![13, 10];
            assert(end@ =~= line_end());
            return match find_bytes(self.buffer.as_slice(), end.as_slice()) {
                Some(_) => Err(UpstreamError::ChunkBodyTruncated),
                None => Err(UpstreamError::ChunkHeaderTruncated),
            };
        }
        self.finished = true;
        Ok(())
    }
}

/// Appends a part of a body, unless the whole would exceed `limit` bytes.
pub fn collect(out: &mut Vec<u8>, part: &[u8], limit: usize) -> (r: Result<(), UpstreamError>)
    requires
        old(out)@.len() <= limit,
    ensures
        old(out)@.len() + part@.len() <= limit ==> r is Ok && final(out)@ == old(out)@ + part@,
        old(out)@.len() + part@.len() > limit ==> r == Err::<(), UpstreamError>(
            UpstreamError::BodyTooLarge,
        ) && final(out)@ == old(out)@,
{
    if part.len() > limit - out.len() {
        return Err(UpstreamError::BodyTooLarge);
    }
    put_bytes(out, part);
    Ok(())
}

/// A body that is not in chunks hands out what was read in its order, and no
/// more than its length.
pub proof fn law_body_hands_out_in_order(m: BodyModel)
    requires
        !m.chunked,
        m.remaining is Some ==> m.remaining->0 >= 0,
    ensures
        body_step(m) is Ok,
        match body_step(m)->Ok_0 {
            (StepModel::Data(d), next) => {
                &&& d + next.buffer == m.buffer
                &&& d.len() > 0
                &&& m.remaining is Some ==> next.remaining == Some(m.remaining->0 - d.len())
                    && next.remaining->0 >= 0
            },
            (_, next) => next.buffer == m.buffer && next.remaining == m.remaining,
        },
{
    if !m.finished && m.buffer.len() > 0 {
        match m.remaining {
            Some(n) => {
                if 0 < n < m.buffer.len() {
                    assert(m.buffer.take(n) + m.buffer.skip(n) =~= m.buffer);
                } else {
                    assert(m.buffer + Seq::<u8>::empty() =~= m.buffer);
                }
            },
            None => {
                assert(m.buffer + Seq::<u8>::empty() =~= m.buffer);
            },
        }
    }
}

/// A complete chunk gives its data, and what follows it is left.
pub proof fn law_chunk_gives_its_data(
    m: BodyModel,
    line: Seq<u8>,
    data: Seq<u8>,
    rest: Seq<u8>,
)
    requires
        m.chunked,
        !m.finished,
        m.buffer == line + line_end() + data + line_end() + rest,
        first_place(line + line_end(), line_end(), 0) == Some(line.len() as int),
        chunk_size(line) == Ok::<int, UpstreamError>(data.len() as int),
        data.len() > 0,
    ensures
        body_step(m) == Ok::<(StepModel, BodyModel), UpstreamError>(
            (StepModel::Data(data), BodyModel { buffer: rest, ..m }),
        ),
{
    let k = line.len() as int;
    let tail = data + line_end() + rest;
    assert(m.buffer =~= (line + line_end()) + tail);
    lemma_place_in_longer(line + line_end(), tail, line_end(), 0);
    assert(m.buffer.take(k) =~= line);
    let after = m.buffer.skip(k + 2);
    assert(after =~= tail);
    assert(after.subrange(data.len() as int, data.len() as int + 2) =~= line_end());
    assert(after.take(data.len() as int) =~= data);
    assert(after.skip(data.len() as int + 2) =~= rest);
}

/// What a body in chunks gives does not depend on how much was read: more
/// bytes behind what it needs change nothing, and are left.
pub proof fn law_read_boundaries_do_not_matter(m: BodyModel, more: Seq<u8>)
    requires
        m.chunked,
        !m.finished,
        match body_step(m) {
            Ok((StepModel::NeedMore, _)) => false,
            _ => true,
        },
    ensures
        body_step(BodyModel { buffer: m.buffer + more, ..m }) == match body_step(m) {
            Ok((step, next)) => Ok::<(StepModel, BodyModel), UpstreamError>(
                (step, BodyModel { buffer: next.buffer + more, ..next }),
            ),
            Err(e) => Err(e),
        },
{
    let longer = m.buffer + more;
    let k = first_place(m.buffer, line_end(), 0)->0;
    lemma_place_in_longer(m.buffer, more, line_end(), 0);
    lemma_place_fits(m.buffer, line_end(), 0);
    assert(longer.take(k) =~= m.buffer.take(k));
    let rest = m.buffer.skip(k + 2);
    assert(longer.skip(k + 2) =~= rest + more);
    if let Ok(size) = chunk_size(m.buffer.take(k)) {
        lemma_size_is_not_negative(m.buffer.take(k));
        if 0 < size && size + 2 <= rest.len() {
            assert((rest + more).subrange(size, size + 2) =~= rest.subrange(size, size + 2));
            assert((rest + more).take(size) =~= rest.take(size));
            assert((rest + more).skip(size + 2) =~= rest.skip(size + 2) + more);
        }
    }
}

proof fn lemma_place_fits(s: Seq<u8>, p: Seq<u8>, i: int)
    requires
        0 <= i,
    ensures
        first_place(s, p, i) matches Some(k) ==> i <= k && k + p.len() <= s.len(),
    decreases s.len() - i,
{
    if i + p.len() <= s.len() && !stands_at(s, p, i) && i < s.len() {
        lemma_place_fits(s, p, i + 1);
    }
}

proof fn lemma_size_is_not_negative(line: Seq<u8>)
    ensures
        chunk_size(line) matches Ok(n) ==> n >= 0,
{
    let text = trimmed(pieces(decode_utf8(line), ';')[0]);
    let digits = if text.len() > 1 && text[0] == '+' {
        text.skip(1)
    } else {
        text
    };
    lemma_hex_not_negative(digits);
}

proof fn lemma_hex_not_negative(s: Seq<char>)
    ensures
        hex_digits_value(s) matches Some(v) ==> v >= 0,
    decreases s.len(),
{
    if s.len() > 1 {
        lemma_hex_not_negative(s.drop_last());
    }
}

proof fn lemma_place_in_longer(s: Seq<u8>, tail: Seq<u8>, p: Seq<u8>, i: int)
    requires
        0 <= i,
        first_place(s, p, i) is Some,
    ensures
        first_place(s + tail, p, i) == first_place(s, p, i),
    decreases s.len() - i,
{
    assert((s + tail).subrange(i, i + p.len()) =~= s.subrange(i, i + p.len()));
    if !stands_at(s, p, i) {
        lemma_place_in_longer(s, tail, p, i + 1);
    }
}

} // verus!
