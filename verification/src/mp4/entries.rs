//! Sample descriptions: the codec of a track and its decoder configuration.
use vstd::prelude::*;
use crate::bytes::{read_u16, read_u32, slice, to_vec, u16_at, u32_at, views};
use crate::media::CodecId;
use crate::mp4::fragmented_demuxer::{asc_of, extract_asc};
use crate::mp4::boxes::{
    BoxCursor, BoxModel, Mp4Box, Mp4Error, AVC1, AVC3, AVCC, ESDS, HEV1, HVC1, HVCC, MP4A, STSD,
    boxes_of,
};

verus! {

/// What a track carries.
#[derive(Debug, Clone, Copy, PartialEq, Eq, Structural)]
pub enum TrackKind {
    Video,
    Audio,
    Other,
}

/// Where the payload of the child box at `pos` ends: at its announced size, or
/// at the end of the data when that size is too small for a box.
pub open spec fn child_end(data: Seq<u8>, pos: int) -> int {
    if u32_at(data, pos) >= 8 {
        pos + u32_at(data, pos)
    } else {
        data.len() as int
    }
}

/// Whether a box of the given type that fits in the data begins at `pos`.
pub open spec fn child_at(data: Seq<u8>, target: u32, pos: int) -> bool {
    &&& 0 <= pos
    &&& pos + 8 <= data.len()
    &&& u32_at(data, pos + 4) == target
    &&& child_end(data, pos) <= data.len()
}

/// Whether the first such box begins at `pos`.
pub open spec fn first_child(data: Seq<u8>, target: u32, pos: int) -> bool {
    child_at(data, target, pos) && forall|q: int| 0 <= q < pos ==> !child_at(data, target, q)
}

/// Payload of the first box of the given type, found by its type tag at any
/// offset: the body of a sample entry begins with fields that are no boxes.
pub open spec fn child_box(data: Seq<u8>, target: u32) -> Option<Seq<u8>> {
    if exists|p: int| first_child(data, target, p) {
        let p = choose|p: int| first_child(data, target, p);
        Some(data.subrange(p + 8, child_end(data, p)))
    } else {
        None
    }
}

/// The first box of a type is at one place.
pub proof fn lemma_first_child(data: Seq<u8>, target: u32, p: int)
    requires
        first_child(data, target, p),
    ensures
        child_box(data, target) == Some(data.subrange(p + 8, child_end(data, p))),
{
    let c = choose|p: int| first_child(data, target, p);
    assert(first_child(data, target, c));
    if c < p {
        assert(!child_at(data, target, c));
    } else if p < c {
        assert(!child_at(data, target, p));
    }
}

/// Finds a child box inside a sample entry by its type tag and reads the size
/// field before it.
pub fn find_child_box(data: &[u8], target: u32) -> (r: Option<Vec<u8>>)
    ensures
        match (r, child_box(data@, target)) {
            (Some(a), Some(b)) => a@ == b,
            (None, None) => true,
            _ => false,
        },
{
    let len: usize = data.len();
    let mut pos: usize = 0;
    while pos <= len && len - pos >= 8
        invariant
            pos <= len == data@.len(),
            forall|q: int| 0 <= q < pos ==> !child_at(data@, target, q),
        decreases len - pos,
    {
        if read_u32(data, pos + 4) == target {
            let size: usize = read_u32(data, pos) as usize;
            let fits: bool = if size >= 8 {
                size <= len - pos
            } else {
                true
            };
            if fits {
                let end: usize = if size >= 8 {
                    pos + size
                } else {
                    len
                };
                proof {
                    assert(first_child(data@, target, pos as int));
                    lemma_first_child(data@, target, pos as int);
                }
                return Some(to_vec(slice(data, pos + 8, end)));
            }
        }
        pos = pos + 1;
    }
    proof {
        assert forall|q: int| !first_child(data@, target, q) by {
            if 0 <= q < pos {
                assert(!child_at(data@, target, q));
            }
        }
    }
    None
}

/// The low 64 bits of the `n` big-endian bytes from offset 1 on.
pub open spec fn ber_value(data: Seq<u8>, n: int) -> int
    decreases n,
{
    if n <= 0 {
        0
    } else {
        (ber_value(data, n - 1) % 0x100_0000_0000_0000) * 0x100 + data[n]
    }
}

/// A length in the short or the long form: the length and how many bytes it
/// takes.
pub open spec fn ber_len(data: Seq<u8>) -> Option<(int, int)> {
    if data.len() == 0 {
        None
    } else if data[0] < 0x80 {
        Some((data[0] as int, 1))
    } else if data[0] - 0x80 + 1 > data.len() {
        None
    } else {
        Some((ber_value(data, data[0] - 0x80), 1 + (data[0] - 0x80)))
    }
}

/// Reads a length in the short or the long form.
pub fn read_ber_len(data: &[u8]) -> (r: Option<(u64, usize)>)
    ensures
        match (r, ber_len(data@)) {
            (Some(a), Some(b)) => a.0 == b.0 && a.1 == b.1,
            (None, None) => true,
            _ => false,
        },
{
    if data.len() == 0 {
        return None;
    }
    let b: u8 = data[0];
    if b < 0x80 {
        return Some((b as u64, 1));
    }
    let num: usize = (b - 0x80) as usize;
    if num + 1 > data.len() {
        return None;
    }
    let mut len: u64 = 0;
    let mut i: usize = 0;
    while i < num
        invariant
            i <= num < data@.len(),
            num <= 0x7f,
            len == ber_value(data@, i as int),
        decreases num - i,
    {
        len = (len % 0x100_0000_0000_0000) * 0x100 + data[i + 1] as u64;
        i = i + 1;
    }
    Some((len, 1 + num))
}

/// The decoder specific info of the descriptors from offset `i` on. Elementary
/// stream and decoder descriptors are skipped whole.
pub open spec fn esds_asc(esds: Seq<u8>, i: int) -> Option<Seq<u8>>
    decreases esds.len() - i,
{
    if i < 0 || i + 2 >= esds.len() {
        None
    } else if esds[i] == 0x05 {
        match ber_len(esds.skip(i + 1)) {
            Some((len, n)) => if i + 1 + n + len <= esds.len() {
                Some(esds.subrange(i + 1 + n, i + 1 + n + len))
            } else {
                None
            },
            None => None,
        }
    } else if esds[i] == 0x03 || esds[i] == 0x04 {
        match ber_len(esds.skip(i + 1)) {
            Some((len, n)) => if len < 0 || n < 0 || i + 1 + n + len > esds.len() {
                None
            } else {
                esds_asc(esds, i + 1 + n + len)
            },
            None => None,
        }
    } else {
        None
    }
}

fn scan_descriptors(esds: &[u8]) -> (r: Option<Vec<u8>>)
    ensures
        match (r, esds_asc(esds@, 4)) {
            (Some(a), Some(b)) => a@ == b,
            (None, None) => true,
            _ => false,
        },
{
    let total: usize = esds.len();
    let mut i: usize = 4;
    while i < total && total - i > 2
        invariant
            total == esds@.len(),
            esds_asc(esds@, i as int) == esds_asc(esds@, 4),
        ensures
            esds_asc(esds@, 4) is None,
        decreases total - i,
    {
        let tag: u8 = esds[i];
        let tail = slice(esds, i + 1, total);
        assert(tail@ =~= esds@.skip(i + 1));
        if tag == 0x05 {
            return match read_ber_len(tail) {
                Some((len, n)) => {
                    let start: usize = i + 1 + n;
                    if len <= (total - start) as u64 {
                        Some(to_vec(slice(esds, start, start + len as usize)))
                    } else {
                        None
                    }
                },
                None => None,
            };
        }
        if tag == 0x03 || tag == 0x04 {
            match read_ber_len(tail) {
                Some((len, n)) => {
                    let start: usize = i + 1 + n;
                    if len > (total - start) as u64 {
                        return None;
                    }
                    i = start + len as usize;
                },
                None => {
                    return None;
                },
            }
        } else {
            break;
        }
    }
    None
}

/// The decoder specific info in the body of an `esds` box: a descriptor of its
/// own, or nested in the others.
pub open spec fn esds_info(esds: Seq<u8>) -> Option<Seq<u8>> {
    match esds_asc(esds, 4) {
        Some(asc) => Some(asc),
        None => if asc_of(esds).len() > 0 {
            Some(asc_of(esds))
        } else {
            None
        },
    }
}

/// Reads the decoder specific info out of the body of an `esds` box.
pub fn parse_esds_asc(esds: &[u8]) -> (r: Option<Vec<u8>>)
    ensures
        match (r, esds_info(esds@)) {
            (Some(a), Some(b)) => a@ == b,
            (None, None) => true,
            _ => false,
        },
{
    match scan_descriptors(esds) {
        Some(asc) => Some(asc),
        None => {
            let nested = extract_asc(esds);
            if nested.len() > 0 {
                Some(nested)
            } else {
                None
            }
        },
    }
}

/// Decoder configuration of an audio sample entry: what its `esds` box holds,
/// or AAC-LC at 44.1 kHz in stereo.
pub open spec fn aac_config(entry: Seq<u8>) -> Seq<u8> {
    match child_box(entry, ESDS) {
        Some(esds) => match esds_info(esds) {
            Some(asc) => asc,
            None => seq![0x12, 0x10],
        },
        None => seq![0x12, 0x10],
    }
}

/// The `avcC` record of a sample entry, empty when there is none.
pub fn extract_avcc(sample_entry: &[u8]) -> (r: Vec<u8>)
    ensures
        r@ == child_box(sample_entry@, AVCC).unwrap_or(Seq::empty()),
{
    match find_child_box(sample_entry, AVCC) {
        Some(v) => v,
        None => Vec::new(),
    }
}

/// The `hvcC` record of a sample entry, empty when there is none.
pub fn extract_hvcc(sample_entry: &[u8]) -> (r: Vec<u8>)
    ensures
        r@ == child_box(sample_entry@, HVCC).unwrap_or(Seq::empty()),
{
    match find_child_box(sample_entry, HVCC) {
        Some(v) => v,
        None => Vec::new(),
    }
}

/// The audio specific config of an `mp4a` sample entry.
pub fn extract_aac_config(sample_entry: &[u8]) -> (r: Vec<u8>)
    ensures
        r@ == aac_config(sample_entry@),
{
    if let Some(esds) = find_child_box(sample_entry, ESDS) {
        if let Some(asc) = parse_esds_asc(esds.as_slice()) {
            return asc;
        }
    }
    let fallback: Vec<u8> = vec![0x12, 0x10];
    assert(fallback@ =~= seq![0x12u8, 0x10u8]);
    fallback
}

/// The boxes of `boxes` with the smallest type; of several, the last one.
pub open spec fn is_first_entry(boxes: Seq<BoxModel>, i: int) -> bool {
    &&& 0 <= i < boxes.len()
    &&& forall|j: int| 0 <= j < boxes.len() ==> boxes[i].kind <= (#[trigger] boxes[j]).kind
    &&& forall|j: int| i < j < boxes.len() ==> boxes[i].kind != (#[trigger] boxes[j]).kind
}

/// Codec and decoder configuration that a sample entry stands for.
pub open spec fn entry_codec(entry: BoxModel, handler: TrackKind) -> Result<
    (CodecId, Seq<u8>),
    Mp4Error,
> {
    if handler == TrackKind::Video && (entry.kind == AVC1 || entry.kind == AVC3) {
        Ok((CodecId::H264, child_box(entry.body, AVCC).unwrap_or(Seq::empty())))
    } else if handler == TrackKind::Video && (entry.kind == HVC1 || entry.kind == HEV1) {
        Ok((CodecId::H265, child_box(entry.body, HVCC).unwrap_or(Seq::empty())))
    } else if handler == TrackKind::Audio && entry.kind == MP4A {
        Ok((CodecId::AAC, aac_config(entry.body)))
    } else {
        Err(Mp4Error::UnsupportedCodec)
    }
}

/// Codec and decoder configuration of a track.
pub open spec fn stsd_codec(stsd: Seq<u8>, handler: TrackKind) -> Result<
    (CodecId, Seq<u8>),
    Mp4Error,
> {
    if stsd.len() < 8 {
        Err(Mp4Error::Truncated(STSD))
    } else if u32_at(stsd, 4) == 0 {
        Err(Mp4Error::NoSampleEntry)
    } else {
        match boxes_of(stsd.skip(8)) {
            Err(e) => Err(e),
            Ok(entries) => if entries.len() == 0 {
                Err(Mp4Error::NoSampleEntry)
            } else {
                entry_codec(entries[choose|i: int| is_first_entry(entries, i)], handler)
            },
        }
    }
}

/// The index of the entry that stands for the track.
fn first_entry<'a>(boxes: &Vec<Mp4Box<'a>>) -> (r: usize)
    requires
        boxes@.len() > 0,
    ensures
        is_first_entry(views(boxes@), r as int),
        forall|i: int| is_first_entry(views(boxes@), i) ==> i == r,
{
    let mut best: usize = 0;
    let mut i: usize = 1;
    while i < boxes.len()
        invariant
            0 <= best < i <= boxes@.len(),
            forall|j: int| 0 <= j < i ==> boxes@[best as int].kind <= (#[trigger] boxes@[j]).kind,
            forall|j: int| best < j < i ==> boxes@[best as int].kind != (#[trigger] boxes@[j]).kind,
        decreases boxes@.len() - i,
    {
        if boxes[i].kind <= boxes[best].kind {
            best = i;
        }
        i = i + 1;
    }
    proof {
        let m = views(boxes@);
        assert forall|j: int| 0 <= j < m.len() implies m[best as int].kind <= (
        #[trigger] m[j]).kind by {
            assert(boxes@[j].kind == m[j].kind);
        }
        assert forall|j: int| best < j < m.len() implies m[best as int].kind != (
        #[trigger] m[j]).kind by {
            assert(boxes@[j].kind == m[j].kind);
        }
        assert forall|k: int| is_first_entry(m, k) implies k == best by {
            assert(m[k].kind <= m[best as int].kind);
            assert(m[best as int].kind <= m[k].kind);
        }
    }
    best
}

/// Parses `stsd`: codec and decoder configuration record.
pub fn parse_stsd(stsd: &[u8], handler: TrackKind) -> (r: Result<(CodecId, Vec<u8>), Mp4Error>)
    ensures
        match (r, stsd_codec(stsd@, handler)) {
            (Ok(a), Ok(b)) => a.0 == b.0 && a.1@ == b.1,
            (Err(a), Err(b)) => a == b,
            _ => false,
        },
{
    if stsd.len() < 8 {
        return Err(Mp4Error::Truncated(STSD));
    }
    if read_u32(stsd, 4) == 0 {
        return Err(Mp4Error::NoSampleEntry);
    }
    let entries = slice(stsd, 8, stsd.len());
    assert(entries@ =~= stsd@.skip(8));
    let boxes = match BoxCursor::new(entries).walk_top_boxes_vec() {
        Ok(b) => b,
        Err(e) => {
            return Err(e);
        },
    };
    if boxes.len() == 0 {
        return Err(Mp4Error::NoSampleEntry);
    }
    let index: usize = first_entry(&boxes);
    let kind: u32 = boxes[index].kind;
    let body = boxes[index].body;
    assert(views(boxes@)[index as int] == (BoxModel { kind, body: body@ }));
    match handler {
        TrackKind::Video => if kind == AVC1 || kind == AVC3 {
            Ok((CodecId::H264, extract_avcc(body)))
        } else if kind == HVC1 || kind == HEV1 {
            Ok((CodecId::H265, extract_hvcc(body)))
        } else {
            Err(Mp4Error::UnsupportedCodec)
        },
        TrackKind::Audio => if kind == MP4A {
            Ok((CodecId::AAC, extract_aac_config(body)))
        } else {
            Err(Mp4Error::UnsupportedCodec)
        },
        TrackKind::Other => Err(Mp4Error::UnsupportedCodec),
    }
}

/// The sequence parameter set that an `avcC` record holds first.
pub open spec fn first_sps(codec: CodecId, config: Seq<u8>) -> Option<Seq<u8>> {
    if codec != CodecId::H264 || config.len() < 8 || config[5] % 0x20 == 0 || config.len() < 8
        + u16_at(config, 6) {
        None
    } else {
        Some(config.subrange(8, 8 + u16_at(config, 6)))
    }
}

/// The sequence parameter set that an `avcC` record holds first. (Nothing is
/// read from an `hvcC` record.)
pub fn extract_sps(codec: CodecId, config: &[u8]) -> (r: Option<&[u8]>)
    ensures
        match (r, first_sps(codec, config@)) {
            (Some(a), Some(b)) => a@ == b,
            (None, None) => true,
            _ => false,
        },
{
    if codec != CodecId::H264 || config.len() < 8 || config[5] % 0x20 == 0 {
        return None;
    }
    let len: usize = read_u16(config, 6) as usize;
    if config.len() < 8 + len {
        return None;
    }
    Some(slice(config, 8, 8 + len))
}

} // verus!
