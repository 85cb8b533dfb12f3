//! Incremental demuxing of CMAF segments: an initialization segment, then
//! `moof`/`mdat` fragments.
use vstd::prelude::*;
use crate::bytes::{
    read_u16, read_u32, read_u64, slice, to_vec, u16_at, u32_at, u64_at, views,
};
use crate::media::{
    AudioInfo, CodecId, FrameModel, MediaFrame, PayloadFormat, TrackInfo, VideoInfo, audio_frame,
    video_frame,
};
use crate::mp4::boxes::{
    AVC1, AVC3, AVCC, ESDS, HEV1, HVC1, HVCC, MDAT, MDHD, MDIA, MINF, MOOF, MOOV, MP4A, STBL, STSD,
    TFDT, TFHD, TKHD, TRAF, TRAK, TRUN,
};
use crate::order::{is_stable_order, stable_order};

verus! {

/// Why a segment could not be demuxed.
#[derive(Debug, Clone, Copy, PartialEq, Eq, Structural)]
pub enum FragmentError {
    /// A box ends before a field that it announces.
    Truncated,
    /// A box is larger than what holds it, or smaller than its own header.
    InvalidBoxSize,
    /// A mandatory box is absent.
    MissingBox(u32),
    /// The sample entry does not fit in its box.
    InvalidEntry,
    /// The sample entry names no supported codec.
    UnsupportedEntry(u32),
    /// No track of the segment can be played.
    NoTracks,
    /// A fragment belongs to a track that the initialization segment lacks.
    UnknownTrack(u32),
    /// The samples of a fragment begin before the segment.
    NegativeOffset,
    /// A sample ends behind the segment.
    TruncatedSample,
}

/// Where a box stands in a segment.
#[derive(Debug, Clone, Copy, PartialEq, Eq, Structural)]
pub struct BoxView {
    pub kind: u32,
    pub start: usize,
    pub data_start: usize,
    pub end: usize,
}

/// Header length and total size of the box at `start` inside a parent that
/// ends at `end`: a size of 0 reaches to the end of the parent, a size of 1
/// announces a 64-bit one.
pub open spec fn span_header(data: Seq<u8>, start: int, end: int) -> Result<
    (int, int),
    FragmentError,
> {
    let size = u32_at(data, start);
    if size == 0 {
        Ok((8, end - start))
    } else if size != 1 {
        Ok((8, size))
    } else if start + 16 > data.len() {
        Err(FragmentError::Truncated)
    } else {
        Ok((16, u64_at(data, start + 8)))
    }
}

/// The boxes between `start` and `end`.
pub open spec fn spans(data: Seq<u8>, start: int, end: int) -> Result<Seq<BoxView>, FragmentError>
    decreases end - start,
{
    if start + 8 > end {
        Ok(Seq::empty())
    } else {
        match span_header(data, start, end) {
            Err(e) => Err(e),
            Ok((header, size)) => if size < header || start + size > end {
                Err(FragmentError::InvalidBoxSize)
            } else {
                match spans(data, start + size, end) {
                    Err(e) => Err(e),
                    Ok(rest) => Ok(
                        seq![
                            BoxView {
                                kind: u32_at(data, start + 4) as u32,
                                start: start as usize,
                                data_start: (start + header) as usize,
                                end: (start + size) as usize,
                            },
                        ] + rest,
                    ),
                }
            },
        }
    }
}

/// The first of the boxes that has the given type.
pub open spec fn first_span(boxes: Seq<BoxView>, kind: u32) -> Option<BoxView>
    decreases boxes.len(),
{
    if boxes.len() == 0 {
        None
    } else if boxes[0].kind == kind {
        Some(boxes[0])
    } else {
        first_span(boxes.skip(1), kind)
    }
}

/// The first child of a box that has the given type.
pub open spec fn child_span(data: Seq<u8>, parent: BoxView, kind: u32) -> Result<
    Option<BoxView>,
    FragmentError,
> {
    match spans(data, parent.data_start as int, parent.end as int) {
        Err(e) => Err(e),
        Ok(boxes) => Ok(first_span(boxes, kind)),
    }
}

/// The box at the end of a path of types.
pub open spec fn descendant_span(data: Seq<u8>, parent: BoxView, path: Seq<u32>) -> Result<
    Option<BoxView>,
    FragmentError,
>
    decreases path.len(),
{
    if path.len() == 0 {
        Ok(Some(parent))
    } else {
        match child_span(data, parent, path[0]) {
            Err(e) => Err(e),
            Ok(None) => Ok(None),
            Ok(Some(next)) => descendant_span(data, next, path.skip(1)),
        }
    }
}

/// Whether a box lies in the data.
pub open spec fn in_data(data: Seq<u8>, b: BoxView) -> bool {
    b.start <= b.data_start <= b.end <= data.len()
}

/// The body of a box.
pub open spec fn span_body(data: Seq<u8>, b: BoxView) -> Seq<u8> {
    data.subrange(b.data_start as int, b.end as int)
}

/// The boxes between `start` and `end`.
pub fn boxes(data: &[u8], start: usize, end: usize) -> (r: Result<Vec<BoxView>, FragmentError>)
    requires
        end <= data@.len(),
    ensures
        match (r, spans(data@, start as int, end as int)) {
            (Ok(a), Ok(b)) => a@ == b,
            (Err(a), Err(b)) => a == b,
            _ => false,
        },
        r matches Ok(a) ==> forall|i: int|
            0 <= i < a@.len() ==> in_data(data@, #[trigger] a@[i]) && start <= a@[i].start
                && a@[i].end <= end,
{
    let total: usize = data.len();
    let mut out: Vec<BoxView> = Vec::new();
    let mut offset: usize = start;
    proof {
        if let Ok(all) = spans(data@, start as int, end as int) {
            assert(Seq::<BoxView>::empty() + all =~= all);
        }
    }
    while offset <= end && end - offset >= 8
        invariant
            end <= data@.len() == total,
            start <= offset,
            out@.len() > 0 ==> offset <= end,
            forall|i: int|
                0 <= i < out@.len() ==> in_data(data@, #[trigger] out@[i]) && start
                    <= out@[i].start && out@[i].end <= end,
            match (
                spans(data@, offset as int, end as int),
                spans(data@, start as int, end as int),
            ) {
                (Ok(rest), Ok(all)) => out@ + rest == all,
                (Err(a), Err(b)) => a == b,
                _ => false,
            },
        decreases end - offset,
    {
        let size32: u32 = read_u32(data, offset);
        let header: usize = if size32 == 1 {
            16
        } else {
            8
        };
        let size: u64 = if size32 == 0 {
            (end - offset) as u64
        } else if size32 == 1 {
            if total - offset < 16 {
                return Err(FragmentError::Truncated);
            }
            read_u64(data, offset + 8)
        } else {
            size32 as u64
        };
        if size < header as u64 || size > (end - offset) as u64 {
            return Err(FragmentError::InvalidBoxSize);
        }
        let size: usize = size as usize;
        let found = BoxView {
            kind: read_u32(data, offset + 4),
            start: offset,
            data_start: offset + header,
            end: offset + size,
        };
        proof {
            if let Ok(rest) = spans(data@, offset + size, end as int) {
                assert(out@ + (seq![found] + rest) =~= out@.push(found) + rest);
            }
        }
        out.push(found);
        offset = offset + size;
    }
    assert(out@ + Seq::<BoxView>::empty() =~= out@);
    Ok(out)
}

/// The first of the boxes that has the given type.
pub fn find_box(list: &Vec<BoxView>, kind: u32) -> (r: Option<BoxView>)
    ensures
        r == first_span(list@, kind),
        r matches Some(b) ==> list@.contains(b) && b.kind == kind,
{
    let mut i: usize = 0;
    assert(list@.skip(0) =~= list@);
    while i < list.len()
        invariant
            i <= list@.len(),
            first_span(list@.skip(i as int), kind) == first_span(list@, kind),
        decreases list@.len() - i,
    {
        assert(list@.skip(i as int)[0] == list@[i as int]);
        assert(list@.skip(i as int).skip(1) =~= list@.skip(i + 1));
        if list[i].kind == kind {
            return Some(list[i]);
        }
        i = i + 1;
    }
    None
}

/// The first child of a box that has the given type.
pub fn child(data: &[u8], parent: BoxView, kind: u32) -> (r: Result<Option<BoxView>, FragmentError>)
    requires
        in_data(data@, parent),
    ensures
        r == child_span(data@, parent, kind),
        r matches Ok(Some(b)) ==> in_data(data@, b) && b.kind == kind,
{
    match boxes(data, parent.data_start, parent.end) {
        Ok(list) => Ok(find_box(&list, kind)),
        Err(e) => Err(e),
    }
}

/// The box at the end of a path of types.
pub fn descendant(data: &[u8], parent: BoxView, path: &[u32]) -> (r: Result<
    Option<BoxView>,
    FragmentError,
>)
    requires
        in_data(data@, parent),
    ensures
        r == descendant_span(data@, parent, path@),
        r matches Ok(Some(b)) ==> in_data(data@, b),
{
    let mut current = parent;
    let mut i: usize = 0;
    assert(path@.skip(0) =~= path@);
    while i < path.len()
        invariant
            i <= path@.len(),
            in_data(data@, current),
            descendant_span(data@, current, path@.skip(i as int)) == descendant_span(
                data@,
                parent,
                path@,
            ),
        decreases path@.len() - i,
    {
        assert(path@.skip(i as int)[0] == path@[i as int]);
        assert(path@.skip(i as int).skip(1) =~= path@.skip(i + 1));
        match child(data, current, path[i]) {
            Ok(Some(next)) => {
                current = next;
            },
            Ok(None) => {
                return Ok(None);
            },
            Err(e) => {
                return Err(e);
            },
        }
        i = i + 1;
    }
    Ok(Some(current))
}

// ── decoder configuration ───────────────────────────────────────────────

/// A descriptor length in groups of seven bits, of at most four bytes: the
/// length and where it ends.
pub open spec fn descriptor_len(data: Seq<u8>, offset: int, length: int, n: int) -> Option<
    (int, int),
>
    decreases 4 - n,
{
    if n >= 4 || offset < 0 || offset >= data.len() {
        None
    } else {
        let value = length * 0x80 + data[offset] as int % 0x80;
        if data[offset] < 0x80 {
            Some((value, offset + 1))
        } else {
            descriptor_len(data, offset + 1, value, n + 1)
        }
    }
}

/// Reads a descriptor length at `offset`: the length and where it ends.
pub fn descriptor_length(data: &[u8], offset: usize) -> (r: Option<(usize, usize)>)
    ensures
        match (r, descriptor_len(data@, offset as int, 0, 0)) {
            (Some(a), Some(b)) => a.0 == b.0 && a.1 == b.1 && offset < a.1 <= data@.len(),
            (None, None) => true,
            _ => false,
        },
{
    let mut length: u32 = 0;
    let mut at: usize = offset;
    let mut n: u32 = 0;
    while n < 4
        invariant
            n <= 4,
            offset <= at,
            n == 0 ==> length == 0,
            n == 1 ==> length < 0x80,
            n == 2 ==> length < 0x4000,
            n == 3 ==> length < 0x20_0000,
            descriptor_len(data@, at as int, length as int, n as int) == descriptor_len(
                data@,
                offset as int,
                0,
                0,
            ),
        decreases 4 - n,
    {
        if at >= data.len() {
            return None;
        }
        let byte: u8 = data[at];
        length = length * 0x80 + (byte % 0x80) as u32;
        at = at + 1;
        if byte < 0x80 {
            return Some((length as usize, at));
        }
        n = n + 1;
    }
    None
}

/// The place of the first byte 5 from `i` on, or `end`.
pub open spec fn first_five(data: Seq<u8>, i: int, end: int) -> int
    decreases end - i,
{
    if i >= end || data[i] == 0x05 {
        i
    } else {
        first_five(data, i + 1, end)
    }
}

/// The audio specific config among the descriptors from `offset` on: a decoder
/// specific info descriptor, or the first thing inside another descriptor that
/// looks like one.
pub open spec fn asc_from(esds: Seq<u8>, offset: int) -> Seq<u8>
    decreases esds.len() - offset,
{
    if offset < 0 || offset >= esds.len() {
        Seq::empty()
    } else {
        match descriptor_len(esds, offset + 1, 0, 0) {
            None => Seq::empty(),
            Some((len, body)) => if len < 0 || body <= offset || body + len > esds.len() {
                Seq::empty()
            } else if esds[offset] == 0x05 {
                esds.subrange(body, body + len)
            } else {
                let five = first_five(esds, body, body + len);
                match descriptor_len(esds, five + 1, 0, 0) {
                    Some((inner_len, inner)) => if five < body + len && inner + inner_len <= body
                        + len {
                        esds.subrange(inner, inner + inner_len)
                    } else {
                        asc_from(esds, body + len)
                    },
                    None => asc_from(esds, body + len),
                }
            },
        }
    }
}

/// The audio specific config in the body of an `esds` box.
pub open spec fn asc_of(esds: Seq<u8>) -> Seq<u8> {
    asc_from(
        esds,
        if esds.len() < 4 {
            esds.len() as int
        } else {
            4
        },
    )
}

fn find_five(data: &[u8], from: usize, end: usize) -> (r: usize)
    requires
        from <= end <= data@.len(),
    ensures
        r == first_five(data@, from as int, end as int),
        from <= r <= end,
{
    let mut i: usize = from;
    while i < end
        invariant
            from <= i <= end <= data@.len(),
            first_five(data@, i as int, end as int) == first_five(data@, from as int, end as int),
        decreases end - i,
    {
        if data[i] == 0x05 {
            return i;
        }
        i = i + 1;
    }
    i
}

/// The audio specific config in the body of an `esds` box.
pub fn extract_asc(esds: &[u8]) -> (r: Vec<u8>)
    ensures
        r@ == asc_of(esds@),
{
    let total: usize = esds.len();
    let first: usize = if total < 4 {
        total
    } else {
        4
    };
    let mut offset: usize = first;
    while offset < total
        invariant
            total == esds@.len(),
            offset <= total,
            asc_from(esds@, offset as int) == asc_of(esds@),
        ensures
            asc_of(esds@) == Seq::<u8>::empty(),
        decreases total - offset,
    {
        let (len, body) = match descriptor_length(esds, offset + 1) {
            Some(d) => d,
            None => {
                break;
            },
        };
        if len > total - body {
            break;
        }
        if esds[offset] == 0x05 {
            return to_vec(slice(esds, body, body + len));
        }
        let five: usize = find_five(esds, body, body + len);
        if five < body + len {
            if let Some((inner_len, inner)) = descriptor_length(esds, five + 1) {
                if inner <= body + len && inner_len <= body + len - inner {
                    return to_vec(slice(esds, inner, inner + inner_len));
                }
            }
        }
        offset = body + len;
    }
    Vec::new()
}

// ── initialization segment ──────────────────────────────────────────────

/// A track of the initialization segment.
#[derive(Debug)]
pub struct FragmentTrack {
    pub id: u32,
    pub codec: CodecId,
    pub timescale: u32,
    pub width: u32,
    pub height: u32,
    pub channels: u32,
    pub config: Vec<u8>,
}

/// The model of a track.
#[verifier::ext_equal]
pub struct FragmentTrackModel {
    pub id: u32,
    pub codec: CodecId,
    pub timescale: u32,
    pub width: u32,
    pub height: u32,
    pub channels: u32,
    pub config: Seq<u8>,
}

impl View for FragmentTrack {
    type V = FragmentTrackModel;

    open spec fn view(&self) -> FragmentTrackModel {
        FragmentTrackModel {
            id: self.id,
            codec: self.codec,
            timescale: self.timescale,
            width: self.width,
            height: self.height,
            channels: self.channels,
            config: self.config@,
        }
    }
}

/// A 32-bit field of a body.
pub open spec fn field32(body: Seq<u8>, offset: int) -> Result<int, FragmentError> {
    if offset + 4 > body.len() {
        Err(FragmentError::Truncated)
    } else {
        Ok(u32_at(body, offset))
    }
}

/// A 64-bit field of a body.
pub open spec fn field64(body: Seq<u8>, offset: int) -> Result<int, FragmentError> {
    if offset + 8 > body.len() {
        Err(FragmentError::Truncated)
    } else {
        Ok(u64_at(body, offset))
    }
}

/// Where a header box of the given version has its track number or time base.
pub open spec fn versioned_offset(body: Seq<u8>) -> int {
    if body.len() > 0 && body[0] == 1 {
        20
    } else {
        12
    }
}

/// The picture width at the end of a track header.
pub open spec fn tkhd_width(tkhd: Seq<u8>) -> int {
    if tkhd.len() >= 8 {
        u32_at(tkhd, tkhd.len() - 8) / 0x1_0000
    } else {
        0
    }
}

/// The picture height at the end of a track header.
pub open spec fn tkhd_height(tkhd: Seq<u8>) -> int {
    if tkhd.len() >= 4 {
        u32_at(tkhd, tkhd.len() - 4) / 0x1_0000
    } else {
        0
    }
}

/// The codec that a sample entry type stands for.
pub open spec fn entry_codec_of(kind: int) -> Option<CodecId> {
    if kind == AVC1 || kind == AVC3 {
        Some(CodecId::H264)
    } else if kind == HVC1 || kind == HEV1 {
        Some(CodecId::H265)
    } else if kind == MP4A {
        Some(CodecId::AAC)
    } else {
        None
    }
}

/// Where the boxes of a sample entry begin, from the start of the sample
/// description body: behind 78 bytes of video fields or 28 of audio fields.
pub open spec fn entry_boxes_at(codec: CodecId) -> int {
    if codec == CodecId::AAC {
        44
    } else {
        94
    }
}

/// The box that holds the decoder configuration.
pub open spec fn config_kind(codec: CodecId) -> u32 {
    if codec == CodecId::H264 {
        AVCC
    } else if codec == CodecId::H265 {
        HVCC
    } else {
        ESDS
    }
}

/// Codec, channels and decoder configuration of a sample description.
pub open spec fn init_entry(data: Seq<u8>, stsd: BoxView) -> Result<
    (CodecId, u32, Seq<u8>),
    FragmentError,
> {
    let body = span_body(data, stsd);
    if body.len() < 16 || u32_at(body, 8) < 8 || 8 + u32_at(body, 8) > body.len() {
        Err(FragmentError::InvalidEntry)
    } else {
        match entry_codec_of(u32_at(body, 12)) {
            None => Err(FragmentError::UnsupportedEntry(u32_at(body, 12) as u32)),
            Some(codec) => match spans(
                data,
                stsd.data_start + entry_boxes_at(codec),
                stsd.data_start + 8 + u32_at(body, 8),
            ) {
                Err(e) => Err(e),
                Ok(list) => match first_span(list, config_kind(codec)) {
                    None => Err(FragmentError::MissingBox(config_kind(codec))),
                    Some(b) => Ok(
                        (
                            codec,
                            if codec != CodecId::AAC {
                                0
                            } else if body.len() >= 34 {
                                u16_at(body, 32) as u32
                            } else {
                                2
                            },
                            if codec == CodecId::AAC {
                                asc_of(span_body(data, b))
                            } else {
                                span_body(data, b)
                            },
                        ),
                    ),
                },
            },
        }
    }
}

/// Time base, codec, channels and configuration from a media box.
pub open spec fn init_media(data: Seq<u8>, mdia: BoxView) -> Result<
    (u32, CodecId, u32, Seq<u8>),
    FragmentError,
> {
    match child_span(data, mdia, MDHD) {
        Err(e) => Err(e),
        Ok(None) => Err(FragmentError::MissingBox(MDHD)),
        Ok(Some(mdhd)) => match field32(
            span_body(data, mdhd),
            versioned_offset(span_body(data, mdhd)),
        ) {
            Err(e) => Err(e),
            Ok(timescale) => match descendant_span(data, mdia, seq![MINF, STBL, STSD]) {
                Err(e) => Err(e),
                Ok(None) => Err(FragmentError::MissingBox(STSD)),
                Ok(Some(stsd)) => match init_entry(data, stsd) {
                    Err(e) => Err(e),
                    Ok((codec, channels, config)) => Ok(
                        (
                            if timescale == 0 {
                                1
                            } else {
                                timescale as u32
                            },
                            codec,
                            channels,
                            config,
                        ),
                    ),
                },
            },
        },
    }
}

/// The track that a `trak` box of an initialization segment describes.
pub open spec fn init_track(data: Seq<u8>, trak: BoxView) -> Result<
    FragmentTrackModel,
    FragmentError,
> {
    match child_span(data, trak, TKHD) {
        Err(e) => Err(e),
        Ok(None) => Err(FragmentError::MissingBox(TKHD)),
        Ok(Some(tkhd_box)) => {
            let tkhd = span_body(data, tkhd_box);
            match field32(tkhd, versioned_offset(tkhd)) {
                Err(e) => Err(e),
                Ok(id) => match child_span(data, trak, MDIA) {
                    Err(e) => Err(e),
                    Ok(None) => Err(FragmentError::MissingBox(MDIA)),
                    Ok(Some(mdia)) => match init_media(data, mdia) {
                        Err(e) => Err(e),
                        Ok((timescale, codec, channels, config)) => Ok(
                            FragmentTrackModel {
                                id: id as u32,
                                codec,
                                timescale,
                                width: tkhd_width(tkhd) as u32,
                                height: tkhd_height(tkhd) as u32,
                                channels,
                                config,
                            },
                        ),
                    },
                },
            }
        },
    }
}

/// The place of the first track with the given number among those from `i` on.
pub open spec fn track_index(tracks: Seq<FragmentTrackModel>, id: u32, i: int) -> Option<int>
    decreases tracks.len() - i,
{
    if i < 0 || i >= tracks.len() {
        None
    } else if tracks[i].id == id {
        Some(i)
    } else {
        track_index(tracks, id, i + 1)
    }
}

/// The tracks with `t` among them, in place of one with its number.
pub open spec fn with_fragment_track(
    tracks: Seq<FragmentTrackModel>,
    t: FragmentTrackModel,
) -> Seq<FragmentTrackModel> {
    match track_index(tracks, t.id, 0) {
        Some(i) => tracks.update(i, t),
        None => tracks.push(t),
    }
}

/// The tracks of the boxes from `i` on, added to those known.
pub open spec fn init_tracks(
    data: Seq<u8>,
    list: Seq<BoxView>,
    i: int,
    known: Seq<FragmentTrackModel>,
) -> Result<Seq<FragmentTrackModel>, FragmentError>
    decreases list.len() - i,
{
    if i < 0 || i >= list.len() {
        Ok(known)
    } else if list[i].kind != TRAK {
        init_tracks(data, list, i + 1, known)
    } else {
        match init_track(data, list[i]) {
            Err(e) => Err(e),
            Ok(t) => init_tracks(data, list, i + 1, with_fragment_track(known, t)),
        }
    }
}

/// The tracks of an initialization segment.
pub open spec fn init_segment_tracks(data: Seq<u8>) -> Result<
    Seq<FragmentTrackModel>,
    FragmentError,
> {
    match spans(data, 0, data.len() as int) {
        Err(e) => Err(e),
        Ok(top) => match first_span(top, MOOV) {
            None => Err(FragmentError::MissingBox(MOOV)),
            Some(moov) => match spans(data, moov.data_start as int, moov.end as int) {
                Err(e) => Err(e),
                Ok(list) => match init_tracks(data, list, 0, Seq::empty()) {
                    Err(e) => Err(e),
                    Ok(tracks) => if tracks.len() == 0 {
                        Err(FragmentError::NoTracks)
                    } else {
                        Ok(tracks)
                    },
                },
            },
        },
    }
}

fn read_field32(body: &[u8], offset: usize) -> (r: Result<u32, FragmentError>)
    requires
        offset <= usize::MAX - 8,
    ensures
        match (r, field32(body@, offset as int)) {
            (Ok(a), Ok(b)) => a == b,
            (Err(a), Err(b)) => a == b,
            _ => false,
        },
{
    if offset + 4 > body.len() {
        Err(FragmentError::Truncated)
    } else {
        Ok(read_u32(body, offset))
    }
}

fn read_field64(body: &[u8], offset: usize) -> (r: Result<u64, FragmentError>)
    requires
        offset <= usize::MAX - 8,
    ensures
        match (r, field64(body@, offset as int)) {
            (Ok(a), Ok(b)) => a == b,
            (Err(a), Err(b)) => a == b,
            _ => false,
        },
{
    if offset + 8 > body.len() {
        Err(FragmentError::Truncated)
    } else {
        Ok(read_u64(body, offset))
    }
}

fn read_versioned(body: &[u8]) -> (r: Result<u32, FragmentError>)
    ensures
        match (r, field32(body@, versioned_offset(body@))) {
            (Ok(a), Ok(b)) => a == b,
            (Err(a), Err(b)) => a == b,
            _ => false,
        },
{
    if body.len() > 0 && body[0] == 1 {
        read_field32(body, 20)
    } else {
        read_field32(body, 12)
    }
}

fn parse_init_entry(data: &[u8], stsd: BoxView) -> (r: Result<
    (CodecId, u32, Vec<u8>),
    FragmentError,
>)
    requires
        in_data(data@, stsd),
    ensures
        match (r, init_entry(data@, stsd)) {
            (Ok(a), Ok(b)) => a.0 == b.0 && a.1 == b.1 && a.2@ == b.2,
            (Err(a), Err(b)) => a == b,
            _ => false,
        },
{
    let total: usize = data.len();
    let body = slice(data, stsd.data_start, stsd.end);
    if body.len() < 16 {
        return Err(FragmentError::InvalidEntry);
    }
    let entry_size: usize = read_u32(body, 8) as usize;
    if entry_size < 8 || entry_size > body.len() - 8 {
        return Err(FragmentError::InvalidEntry);
    }
    let kind: u32 = read_u32(body, 12);
    let codec = if kind == AVC1 || kind == AVC3 {
        CodecId::H264
    } else if kind == HVC1 || kind == HEV1 {
        CodecId::H265
    } else if kind == MP4A {
        CodecId::AAC
    } else {
        return Err(FragmentError::UnsupportedEntry(kind));
    };
    let channels: u32 = if codec != CodecId::AAC {
        0
    } else if body.len() >= 34 {
        read_u16(body, 32) as u32
    } else {
        2
    };
    let wanted: u32 = if codec == CodecId::H264 {
        AVCC
    } else if codec == CodecId::H265 {
        HVCC
    } else {
        ESDS
    };
    let boxes_at: usize = if codec == CodecId::AAC {
        44
    } else {
        94
    };
    let entry_end: usize = stsd.data_start + 8 + entry_size;
    if boxes_at > entry_end - stsd.data_start {
        return Err(FragmentError::MissingBox(wanted));
    }
    let list = match boxes(data, stsd.data_start + boxes_at, entry_end) {
        Ok(b) => b,
        Err(e) => {
            return Err(e);
        },
    };
    match find_box(&list, wanted) {
        None => Err(FragmentError::MissingBox(wanted)),
        Some(b) => {
            let raw = slice(data, b.data_start, b.end);
            let config = if codec == CodecId::AAC {
                extract_asc(raw)
            } else {
                to_vec(raw)
            };
            Ok((codec, channels, config))
        },
    }
}

fn parse_init_media(data: &[u8], mdia: BoxView) -> (r: Result<
    (u32, CodecId, u32, Vec<u8>),
    FragmentError,
>)
    requires
        in_data(data@, mdia),
    ensures
        match (r, init_media(data@, mdia)) {
            (Ok(a), Ok(b)) => a.0 == b.0 && a.1 == b.1 && a.2 == b.2 && a.3@ == b.3 && a.0 > 0,
            (Err(a), Err(b)) => a == b,
            _ => false,
        },
{
    let mdhd = match child(data, mdia, MDHD) {
        Ok(Some(b)) => b,
        Ok(None) => {
            return Err(FragmentError::MissingBox(MDHD));
        },
        Err(e) => {
            return Err(e);
        },
    };
    let timescale: u32 = match read_versioned(slice(data, mdhd.data_start, mdhd.end)) {
        Ok(t) => if t == 0 {
            1
        } else {
            t
        },
        Err(e) => {
            return Err(e);
        },
    };
    let path: [u32; 3] = [MINF, STBL, STSD];
    assert(path@ =~= seq![MINF, STBL, STSD]);
    let stsd = match descendant(data, mdia, &path) {
        Ok(Some(b)) => b,
        Ok(None) => {
            return Err(FragmentError::MissingBox(STSD));
        },
        Err(e) => {
            return Err(e);
        },
    };
    match parse_init_entry(data, stsd) {
        Ok((codec, channels, config)) => Ok((timescale, codec, channels, config)),
        Err(e) => Err(e),
    }
}

fn parse_init_track(data: &[u8], trak: BoxView) -> (r: Result<FragmentTrack, FragmentError>)
    requires
        in_data(data@, trak),
    ensures
        match (r, init_track(data@, trak)) {
            (Ok(a), Ok(b)) => a@ == b && b.timescale > 0,
            (Err(a), Err(b)) => a == b,
            _ => false,
        },
{
    let tkhd_box = match child(data, trak, TKHD) {
        Ok(Some(b)) => b,
        Ok(None) => {
            return Err(FragmentError::MissingBox(TKHD));
        },
        Err(e) => {
            return Err(e);
        },
    };
    let tkhd = slice(data, tkhd_box.data_start, tkhd_box.end);
    let id: u32 = match read_versioned(tkhd) {
        Ok(id) => id,
        Err(e) => {
            return Err(e);
        },
    };
    let width: u32 = if tkhd.len() >= 8 {
        read_u32(tkhd, tkhd.len() - 8) / 0x1_0000
    } else {
        0
    };
    let height: u32 = if tkhd.len() >= 4 {
        read_u32(tkhd, tkhd.len() - 4) / 0x1_0000
    } else {
        0
    };
    let mdia = match child(data, trak, MDIA) {
        Ok(Some(b)) => b,
        Ok(None) => {
            return Err(FragmentError::MissingBox(MDIA));
        },
        Err(e) => {
            return Err(e);
        },
    };
    match parse_init_media(data, mdia) {
        Ok((timescale, codec, channels, config)) => Ok(
            FragmentTrack { id, codec, timescale, width, height, channels, config },
        ),
        Err(e) => Err(e),
    }
}

fn find_track(tracks: &Vec<FragmentTrack>, id: u32) -> (r: Option<usize>)
    ensures
        match (r, track_index(views(tracks@), id, 0)) {
            (Some(a), Some(b)) => a == b && a < tracks@.len() && tracks@[a as int].id == id,
            (None, None) => true,
            _ => false,
        },
{
    let mut i: usize = 0;
    while i < tracks.len()
        invariant
            i <= tracks@.len(),
            track_index(views(tracks@), id, i as int) == track_index(views(tracks@), id, 0),
        decreases tracks@.len() - i,
    {
        assert(views(tracks@)[i as int] == tracks@[i as int]@);
        if tracks[i].id == id {
            return Some(i);
        }
        i = i + 1;
    }
    None
}

fn insert_fragment_track(tracks: &mut Vec<FragmentTrack>, t: FragmentTrack)
    ensures
        views(final(tracks)@) == with_fragment_track(views(old(tracks)@), t@),
{
    let ghost before = views(tracks@);
    match find_track(tracks, t.id) {
        Some(i) => {
            tracks.set(i, t);
            assert(views(tracks@) =~= before.update(i as int, t@));
        },
        None => {
            tracks.push(t);
            assert(views(tracks@) =~= before.push(t@));
        },
    }
}

// ── fragments ───────────────────────────────────────────────────────────

/// Whether the bit of the given weight is set.
pub open spec fn bit_set(flags: int, weight: int) -> bool {
    (flags / weight) % 2 == 1
}

/// Four bytes if the bit is set, none else.
pub open spec fn bit_len(flags: int, weight: int) -> int {
    if bit_set(flags, weight) {
        4
    } else {
        0
    }
}

fn has_bit(flags: u32, weight: u32) -> (r: bool)
    requires
        weight > 0,
    ensures
        r == bit_set(flags as int, weight as int),
{
    (flags / weight) % 2 == 1
}

/// Defaults that a track fragment header gives.
pub struct FragmentDefaults {
    /// Where offsets in the fragment count from.
    pub base: u64,
    pub duration: u32,
    pub size: u32,
    pub flags: u32,
}

/// A field that is there only when its bit is set.
pub open spec fn optional32(body: Seq<u8>, flags: int, weight: int, offset: int) -> Result<
    int,
    FragmentError,
> {
    if bit_set(flags, weight) {
        field32(body, offset)
    } else {
        Ok(0)
    }
}

/// What a track fragment header gives; offsets count from the fragment unless
/// it says otherwise.
pub open spec fn tfhd_defaults(tfhd: Seq<u8>, moof_start: int) -> Result<
    FragmentDefaults,
    FragmentError,
> {
    let flags = u32_at(tfhd, 0) % 0x100_0000;
    let base = if bit_set(flags, 1) {
        field64(tfhd, 8)
    } else {
        Ok(moof_start)
    };
    let at_duration: int = 8 + (if bit_set(flags, 1) {
        8int
    } else {
        0
    }) + bit_len(flags, 2);
    let at_size = at_duration + bit_len(flags, 8);
    let at_flags = at_size + bit_len(flags, 0x10);
    match (
        base,
        optional32(tfhd, flags, 8, at_duration),
        optional32(tfhd, flags, 0x10, at_size),
        optional32(tfhd, flags, 0x20, at_flags),
    ) {
        (Ok(base), Ok(duration), Ok(size), Ok(sample_flags)) => Ok(
            FragmentDefaults {
                base: base as u64,
                duration: duration as u32,
                size: size as u32,
                flags: sample_flags as u32,
            },
        ),
        _ => Err(FragmentError::Truncated),
    }
}

/// The decode time at which a track fragment begins: 0 unless it says so.
pub open spec fn base_decode_time(data: Seq<u8>, traf: BoxView) -> Result<int, FragmentError> {
    match child_span(data, traf, TFDT) {
        Err(e) => Err(e),
        Ok(None) => Ok(0),
        Ok(Some(b)) => {
            let tfdt = span_body(data, b);
            if tfdt.len() > 0 && tfdt[0] == 1 {
                field64(tfdt, 4)
            } else {
                field32(tfdt, 4)
            }
        },
    }
}

/// A 32-bit number read as signed.
pub open spec fn signed32(n: int) -> int {
    if n >= 0x8000_0000 {
        n - 0x1_0000_0000
    } else {
        n
    }
}

/// A 64-bit number read as signed.
pub open spec fn signed64(n: int) -> int {
    if n >= 0x8000_0000_0000_0000 {
        n - 0x1_0000_0000_0000_0000
    } else {
        n
    }
}

/// A number, or the largest 64-bit one.
pub open spec fn clamp64(n: int) -> int {
    if n > u64::MAX {
        u64::MAX as int
    } else if n < 0 {
        0
    } else {
        n
    }
}

/// A number of ticks in milliseconds.
pub open spec fn clamped_ms(ticks: int, timescale: int) -> int {
    clamp64(ticks * 1000) / timescale
}

/// The header of a run of samples.
#[verifier::ext_equal]
pub struct RunModel {
    pub body: Seq<u8>,
    pub flags: int,
    pub version: int,
    pub count: int,
    /// Where the samples begin in the segment.
    pub samples_at: int,
    /// Where the records of the samples begin in the body.
    pub records_at: int,
    pub first_flags: int,
}

/// Reads the header of a run. Its samples begin where it says, or behind those
/// of the run before.
pub open spec fn run_header(body: Seq<u8>, d: FragmentDefaults, implicit: int) -> Result<
    RunModel,
    FragmentError,
> {
    let flags = u32_at(body, 0) % 0x100_0000;
    let at_first = 8 + bit_len(flags, 1);
    let samples_at = if bit_set(flags, 1) {
        signed64(d.base as int) + signed32(u32_at(body, 8))
    } else {
        implicit
    };
    if body.len() < 8 || (bit_set(flags, 1) && body.len() < 12) {
        Err(FragmentError::Truncated)
    } else if samples_at < 0 {
        Err(FragmentError::NegativeOffset)
    } else if bit_set(flags, 4) && at_first + 4 > body.len() {
        Err(FragmentError::Truncated)
    } else {
        Ok(
            RunModel {
                body,
                flags,
                version: body[0] as int,
                count: u32_at(body, 4),
                samples_at,
                records_at: at_first + bit_len(flags, 4),
                first_flags: if bit_set(flags, 4) {
                    u32_at(body, at_first)
                } else {
                    d.flags as int
                },
            },
        )
    }
}

/// Length of the record of a sample.
pub open spec fn record_len(flags: int) -> int {
    bit_len(flags, 0x100) + bit_len(flags, 0x200) + bit_len(flags, 0x400) + bit_len(flags, 0x800)
}

/// Duration that a record gives.
pub open spec fn record_duration(r: RunModel, d: FragmentDefaults, at: int) -> int {
    if bit_set(r.flags, 0x100) {
        u32_at(r.body, at)
    } else {
        d.duration as int
    }
}

/// Size that a record gives.
pub open spec fn record_size(r: RunModel, d: FragmentDefaults, at: int) -> int {
    if bit_set(r.flags, 0x200) {
        u32_at(r.body, at + bit_len(r.flags, 0x100))
    } else {
        d.size as int
    }
}

/// Sample flags that a record gives.
pub open spec fn record_flags(r: RunModel, d: FragmentDefaults, at: int, first: bool) -> int {
    if bit_set(r.flags, 0x400) {
        u32_at(r.body, at + bit_len(r.flags, 0x100) + bit_len(r.flags, 0x200))
    } else if first {
        r.first_flags
    } else {
        d.flags as int
    }
}

/// Distance from decoding to presentation that a record gives.
pub open spec fn record_composition(r: RunModel, at: int) -> int {
    let raw = u32_at(
        r.body,
        at + bit_len(r.flags, 0x100) + bit_len(r.flags, 0x200) + bit_len(r.flags, 0x400),
    );
    if !bit_set(r.flags, 0x800) {
        0
    } else if r.version == 1 {
        signed32(raw)
    } else {
        raw
    }
}

/// The frame of a sample.
pub open spec fn fragment_frame(
    t: FragmentTrackModel,
    time: int,
    composition: int,
    sample: Seq<u8>,
    flags: int,
) -> FrameModel {
    let dts = clamped_ms(time, t.timescale as int);
    let pts = clamped_ms(clamp64(time + composition), t.timescale as int);
    if t.codec.is_video() {
        FrameModel {
            payload_format: if t.codec == CodecId::H264 {
                PayloadFormat::Avcc
            } else {
                PayloadFormat::Hvcc
            },
            ..video_frame(
                t.id,
                t.codec,
                (dts % 0x1_0000_0000) as u32,
                pts as u64,
                dts as u64,
                sample,
                !bit_set(flags, 0x1_0000),
            )
        }
    } else {
        FrameModel {
            payload_format: PayloadFormat::AacRaw,
            ..audio_frame(
                t.id,
                t.codec,
                (dts % 0x1_0000_0000) as u32,
                pts as u64,
                dts as u64,
                sample,
            )
        }
    }
}

/// The frames of the `left` last samples of a run, whose records begin at `at`
/// and whose bytes begin at `offset`; and the decode time and the offset
/// behind them.
pub open spec fn run_frames(
    data: Seq<u8>,
    t: FragmentTrackModel,
    r: RunModel,
    d: FragmentDefaults,
    left: int,
    at: int,
    time: int,
    offset: int,
) -> Result<(Seq<FrameModel>, int, int), FragmentError>
    decreases left,
{
    if left <= 0 {
        Ok((Seq::empty(), time, offset))
    } else if at + record_len(r.flags) > r.body.len() {
        Err(FragmentError::Truncated)
    } else if offset + record_size(r, d, at) > data.len() {
        Err(FragmentError::TruncatedSample)
    } else {
        let end = offset + record_size(r, d, at);
        let frame = fragment_frame(
            t,
            time,
            record_composition(r, at),
            data.subrange(offset, end),
            record_flags(r, d, at, left == r.count),
        );
        match run_frames(
            data,
            t,
            r,
            d,
            left - 1,
            at + record_len(r.flags),
            clamp64(time + record_duration(r, d, at)),
            end,
        ) {
            Err(e) => Err(e),
            Ok((rest, time_after, offset_after)) => Ok(
                (seq![frame] + rest, time_after, offset_after),
            ),
        }
    }
}

/// The frames of the runs among the boxes from `i` on.
pub open spec fn runs_frames(
    data: Seq<u8>,
    t: FragmentTrackModel,
    d: FragmentDefaults,
    list: Seq<BoxView>,
    i: int,
    time: int,
    offset: int,
) -> Result<Seq<FrameModel>, FragmentError>
    decreases list.len() - i,
{
    if i < 0 || i >= list.len() {
        Ok(Seq::empty())
    } else if list[i].kind != TRUN {
        runs_frames(data, t, d, list, i + 1, time, offset)
    } else {
        match run_header(span_body(data, list[i]), d, offset) {
            Err(e) => Err(e),
            Ok(r) => match run_frames(data, t, r, d, r.count, r.records_at, time, r.samples_at) {
                Err(e) => Err(e),
                Ok((frames, time_after, offset_after)) => match runs_frames(
                    data,
                    t,
                    d,
                    list,
                    i + 1,
                    time_after,
                    offset_after,
                ) {
                    Err(e) => Err(e),
                    Ok(rest) => Ok(frames + rest),
                },
            },
        }
    }
}

/// The frames of a track fragment, once its track is known.
pub open spec fn known_traf_frames(
    data: Seq<u8>,
    t: FragmentTrackModel,
    d: FragmentDefaults,
    traf: BoxView,
    mdat: BoxView,
) -> Result<Seq<FrameModel>, FragmentError> {
    match base_decode_time(data, traf) {
        Err(e) => Err(e),
        Ok(time) => match spans(data, traf.data_start as int, traf.end as int) {
            Err(e) => Err(e),
            Ok(list) => runs_frames(data, t, d, list, 0, time, mdat.data_start as int),
        },
    }
}

/// The frames of a track fragment.
pub open spec fn traf_frames(
    data: Seq<u8>,
    tracks: Seq<FragmentTrackModel>,
    moof: BoxView,
    mdat: BoxView,
    traf: BoxView,
) -> Result<Seq<FrameModel>, FragmentError> {
    match child_span(data, traf, TFHD) {
        Err(e) => Err(e),
        Ok(None) => Err(FragmentError::MissingBox(TFHD)),
        Ok(Some(b)) => {
            let tfhd = span_body(data, b);
            if tfhd.len() < 8 {
                Err(FragmentError::Truncated)
            } else {
                match track_index(tracks, u32_at(tfhd, 4) as u32, 0) {
                    None => Err(FragmentError::UnknownTrack(u32_at(tfhd, 4) as u32)),
                    Some(i) => match tfhd_defaults(tfhd, moof.start as int) {
                        Err(e) => Err(e),
                        Ok(d) => known_traf_frames(data, tracks[i], d, traf, mdat),
                    },
                }
            }
        },
    }
}

/// The frames of the track fragments among the boxes from `i` on.
pub open spec fn moof_frames(
    data: Seq<u8>,
    tracks: Seq<FragmentTrackModel>,
    moof: BoxView,
    mdat: BoxView,
    list: Seq<BoxView>,
    i: int,
) -> Result<Seq<FrameModel>, FragmentError>
    decreases list.len() - i,
{
    if i < 0 || i >= list.len() {
        Ok(Seq::empty())
    } else if list[i].kind != TRAF {
        moof_frames(data, tracks, moof, mdat, list, i + 1)
    } else {
        match traf_frames(data, tracks, moof, mdat, list[i]) {
            Err(e) => Err(e),
            Ok(frames) => match moof_frames(data, tracks, moof, mdat, list, i + 1) {
                Err(e) => Err(e),
                Ok(rest) => Ok(frames + rest),
            },
        }
    }
}

/// The frames of a segment in the order in which they stand in it.
pub open spec fn segment_frames(data: Seq<u8>, tracks: Seq<FragmentTrackModel>) -> Result<
    Seq<FrameModel>,
    FragmentError,
> {
    match spans(data, 0, data.len() as int) {
        Err(e) => Err(e),
        Ok(top) => match (first_span(top, MOOF), first_span(top, MDAT)) {
            (None, _) => Err(FragmentError::MissingBox(MOOF)),
            (Some(_), None) => Err(FragmentError::MissingBox(MDAT)),
            (Some(moof), Some(mdat)) => match spans(data, moof.data_start as int, moof.end as int) {
                Err(e) => Err(e),
                Ok(list) => moof_frames(data, tracks, moof, mdat, list, 0),
            },
        },
    }
}

/// The keys by which frames are ordered: decode time, then track.
pub open spec fn dts_keys(frames: Seq<FrameModel>) -> Seq<(u64, u32)> {
    Seq::new(frames.len(), |i: int| (frames[i].dts, frames[i].track_id))
}

/// Whether `out` is `frames` in ascending order of decode time and track,
/// frames that agree in both in their own order.
pub open spec fn in_decode_order(frames: Seq<FrameModel>, out: Seq<FrameModel>) -> bool {
    exists|p: Seq<int>|
        #[trigger] is_stable_order(dts_keys(frames), p) && out == Seq::new(
            p.len(),
            |i: int| frames[p[i]],
        )
}

fn parse_defaults(tfhd: &[u8], moof_start: usize) -> (r: Result<FragmentDefaults, FragmentError>)
    requires
        tfhd@.len() >= 8,
    ensures
        r == tfhd_defaults(tfhd@, moof_start as int),
{
    let flags: u32 = read_u32(tfhd, 0) % 0x100_0000;
    let mut at: usize = 8;
    let base: u64 = if has_bit(flags, 1) {
        let value: u64 = match read_field64(tfhd, at) {
            Ok(v) => v,
            Err(e) => {
                return Err(e);
            },
        };
        at = at + 8;
        value
    } else {
        moof_start as u64
    };
    if has_bit(flags, 2) {
        at = at + 4;
    }
    let duration: u32 = if has_bit(flags, 8) {
        let value: u32 = match read_field32(tfhd, at) {
            Ok(v) => v,
            Err(e) => {
                return Err(e);
            },
        };
        at = at + 4;
        value
    } else {
        0
    };
    let size: u32 = if has_bit(flags, 0x10) {
        let value: u32 = match read_field32(tfhd, at) {
            Ok(v) => v,
            Err(e) => {
                return Err(e);
            },
        };
        at = at + 4;
        value
    } else {
        0
    };
    let sample_flags: u32 = if has_bit(flags, 0x20) {
        match read_field32(tfhd, at) {
            Ok(v) => v,
            Err(e) => {
                return Err(e);
            },
        }
    } else {
        0
    };
    Ok(FragmentDefaults { base, duration, size, flags: sample_flags })
}

fn parse_decode_time(data: &[u8], traf: BoxView) -> (r: Result<u64, FragmentError>)
    requires
        in_data(data@, traf),
    ensures
        match (r, base_decode_time(data@, traf)) {
            (Ok(a), Ok(b)) => a == b,
            (Err(a), Err(b)) => a == b,
            _ => false,
        },
{
    match child(data, traf, TFDT) {
        Err(e) => Err(e),
        Ok(None) => Ok(0),
        Ok(Some(b)) => {
            let tfdt = slice(data, b.data_start, b.end);
            if tfdt.len() > 0 && tfdt[0] == 1 {
                read_field64(tfdt, 4)
            } else {
                match read_field32(tfdt, 4) {
                    Ok(v) => Ok(v as u64),
                    Err(e) => Err(e),
                }
            }
        },
    }
}

/// The header of a run of samples.
struct RunHeader {
    flags: u32,
    version: u8,
    count: u32,
    samples_at: u64,
    records_at: usize,
    first_flags: u32,
}

impl RunHeader {
    spec fn model(&self, body: Seq<u8>) -> RunModel {
        RunModel {
            body,
            flags: self.flags as int,
            version: self.version as int,
            count: self.count as int,
            samples_at: self.samples_at as int,
            records_at: self.records_at as int,
            first_flags: self.first_flags as int,
        }
    }
}

fn parse_run_header(body: &[u8], d: &FragmentDefaults, implicit: u64) -> (r: Result<
    RunHeader,
    FragmentError,
>)
    ensures
        match (r, run_header(body@, *d, implicit as int)) {
            (Ok(a), Ok(b)) => a.model(body@) == b && a.records_at <= 16,
            (Err(a), Err(b)) => a == b,
            _ => false,
        },
{
    if body.len() < 8 {
        return Err(FragmentError::Truncated);
    }
    let version: u8 = body[0];
    let flags: u32 = read_u32(body, 0) % 0x100_0000;
    let count: u32 = read_u32(body, 4);
    let mut at: usize = 8;
    let samples_at: u64 = if has_bit(flags, 1) {
        if body.len() < 12 {
            return Err(FragmentError::Truncated);
        }
        let raw: u32 = read_u32(body, at);
        at = at + 4;
        let relative: i128 = if raw >= 0x8000_0000 {
            raw as i128 - 0x1_0000_0000
        } else {
            raw as i128
        };
        let base: i128 = if d.base >= 0x8000_0000_0000_0000 {
            d.base as i128 - 0x1_0000_0000_0000_0000
        } else {
            d.base as i128
        };
        let sum: i128 = base + relative;
        if sum < 0 {
            return Err(FragmentError::NegativeOffset);
        }
        sum as u64
    } else {
        implicit
    };
    let first_flags: u32 = if has_bit(flags, 4) {
        if body.len() < at + 4 {
            return Err(FragmentError::Truncated);
        }
        let value: u32 = read_u32(body, at);
        at = at + 4;
        value
    } else {
        d.flags
    };
    Ok(RunHeader { flags, version, count, samples_at, records_at: at, first_flags })
}

/// A sum, or the largest 64-bit number.
fn add_clamped(a: u64, b: u32) -> (r: u64)
    ensures
        r == clamp64(a + b),
{
    a.saturating_add(b as u64)
}

/// A number of ticks in milliseconds.
fn ms_clamped(ticks: u64, timescale: u32) -> (r: u64)
    requires
        timescale > 0,
    ensures
        r == clamped_ms(ticks as int, timescale as int),
{
    let scaled: u64 = if ticks > u64::MAX / 1000 {
        u64::MAX
    } else {
        ticks * 1000
    };
    scaled / timescale as u64
}

/// The presentation time of a sample.
fn presentation(time: u64, raw: u32, signed: bool) -> (r: u64)
    ensures
        r == clamp64(
            time + if signed {
                signed32(raw as int)
            } else {
                raw as int
            },
        ),
{
    if signed && raw >= 0x8000_0000 {
        let back: u64 = 0x1_0000_0000 - raw as u64;
        if time >= back {
            time - back
        } else {
            0
        }
    } else {
        add_clamped(time, raw)
    }
}

fn make_fragment_frame(t: &FragmentTrack, time: u64, pts_ticks: u64, sample: &[u8], flags: u32) -> (r:
    MediaFrame)
    requires
        t.timescale > 0,
    ensures
        forall|c: int|
            pts_ticks == #[trigger] clamp64(time + c) ==> r@ == fragment_frame(
                t@,
                time as int,
                c,
                sample@,
                flags as int,
            ),
{
    let dts: u64 = ms_clamped(time, t.timescale);
    let pts: u64 = ms_clamped(pts_ticks, t.timescale);
    let timestamp: u32 = (dts % 0x1_0000_0000) as u32;
    let key: bool = !has_bit(flags, 0x1_0000);
    if t.codec.is_video() {
        MediaFrame::new_video(t.id, t.codec, timestamp, pts, dts, to_vec(sample), key).with_payload_format(
            if t.codec == CodecId::H264 {
                PayloadFormat::Avcc
            } else {
                PayloadFormat::Hvcc
            },
        )
    } else {
        MediaFrame::new_audio(t.id, t.codec, timestamp, pts, dts, to_vec(sample)).with_payload_format(
            PayloadFormat::AacRaw,
        )
    }
}

/// What the record of a sample says.
struct SampleRecord {
    duration: u32,
    size: u32,
    flags: u32,
    /// Distance from decoding to presentation, as written.
    composition: u32,
}

impl RunHeader {
    /// The record at `at`, and where the next one begins.
    fn read_record(&self, body: &[u8], d: &FragmentDefaults, at: usize, first: bool) -> (r: Result<
        (SampleRecord, usize),
        FragmentError,
    >)
        requires
            at <= body@.len() || at <= 16,
        ensures
            ({
                let m = self.model(body@);
                match r {
                    Ok((s, next)) => {
                        &&& at + record_len(m.flags) <= body@.len()
                        &&& next == at + record_len(m.flags)
                        &&& s.duration == record_duration(m, *d, at as int)
                        &&& s.size == record_size(m, *d, at as int)
                        &&& s.flags == record_flags(m, *d, at as int, first)
                        &&& (if self.version == 1 {
                            signed32(s.composition as int)
                        } else {
                            s.composition as int
                        }) == record_composition(m, at as int)
                    },
                    Err(e) => e == FragmentError::Truncated && at + record_len(m.flags)
                        > body@.len(),
                }
            }),
    {
        let len: usize = body.len();
        let mut record: usize = 0;
        if has_bit(self.flags, 0x100) {
            record = record + 4;
        }
        let size_at: usize = record;
        if has_bit(self.flags, 0x200) {
            record = record + 4;
        }
        let flags_at: usize = record;
        if has_bit(self.flags, 0x400) {
            record = record + 4;
        }
        let composition_at: usize = record;
        if has_bit(self.flags, 0x800) {
            record = record + 4;
        }
        if at > len || record > len - at {
            return Err(FragmentError::Truncated);
        }
        let duration: u32 = if has_bit(self.flags, 0x100) {
            read_u32(body, at)
        } else {
            d.duration
        };
        let size: u32 = if has_bit(self.flags, 0x200) {
            read_u32(body, at + size_at)
        } else {
            d.size
        };
        let flags: u32 = if has_bit(self.flags, 0x400) {
            read_u32(body, at + flags_at)
        } else if first {
            self.first_flags
        } else {
            d.flags
        };
        let composition: u32 = if has_bit(self.flags, 0x800) {
            read_u32(body, at + composition_at)
        } else {
            0
        };
        Ok((SampleRecord { duration, size, flags, composition }, at + record))
    }
}

/// The frame of the sample that a record describes.
fn demux_sample(
    data: &[u8],
    t: &FragmentTrack,
    s: &SampleRecord,
    signed: bool,
    time: u64,
    offset: u64,
) -> (r: Result<MediaFrame, FragmentError>)
    requires
        t.timescale > 0,
    ensures
        match r {
            Ok(frame) => offset + s.size <= data@.len() && frame@ == fragment_frame(
                t@,
                time as int,
                if signed {
                    signed32(s.composition as int)
                } else {
                    s.composition as int
                },
                data@.subrange(offset as int, offset + s.size),
                s.flags as int,
            ),
            Err(e) => e == FragmentError::TruncatedSample && offset + s.size > data@.len(),
        },
{
    let total: usize = data.len();
    if offset > total as u64 || s.size as u64 > total as u64 - offset {
        return Err(FragmentError::TruncatedSample);
    }
    let pts: u64 = presentation(time, s.composition, signed);
    let from: usize = offset as usize;
    let sample = slice(data, from, from + s.size as usize);
    Ok(make_fragment_frame(t, time, pts, sample, s.flags))
}

/// Demuxes one run: appends its frames, and returns the decode time and the
/// offset behind it.
fn demux_run(
    data: &[u8],
    t: &FragmentTrack,
    body: &[u8],
    h: &RunHeader,
    d: &FragmentDefaults,
    start_time: u64,
    output: &mut Vec<MediaFrame>,
) -> (r: Result<(u64, u64), FragmentError>)
    requires
        t.timescale > 0,
        h.records_at <= 16,
    ensures
        match (
            r,
            run_frames(
                data@,
                t@,
                h.model(body@),
                *d,
                h.count as int,
                h.records_at as int,
                start_time as int,
                h.samples_at as int,
            ),
        ) {
            (Ok(a), Ok(b)) => views(final(output)@) == views(old(output)@) + b.0 && a.0 == b.1
                && a.1 == b.2,
            (Err(a), Err(b)) => a == b,
            _ => false,
        },
{
    let total: usize = data.len();
    let ghost m = h.model(body@);
    let ghost before = views(output@);
    let ghost whole = run_frames(
        data@,
        t@,
        m,
        *d,
        h.count as int,
        h.records_at as int,
        start_time as int,
        h.samples_at as int,
    );
    let mut left: u32 = h.count;
    let mut at: usize = h.records_at;
    let mut time: u64 = start_time;
    let mut offset: u64 = h.samples_at;
    while left > 0
        invariant
            t.timescale > 0,
            total == data@.len(),
            m == h.model(body@),
            whole == run_frames(
                data@,
                t@,
                m,
                *d,
                h.count as int,
                h.records_at as int,
                start_time as int,
                h.samples_at as int,
            ),
            left <= h.count,
            at <= 16 || at <= body@.len(),
            match (
                whole,
                run_frames(
                    data@,
                    t@,
                    m,
                    *d,
                    left as int,
                    at as int,
                    time as int,
                    offset as int,
                ),
            ) {
                (Ok(w), Ok(rest)) => views(output@) + rest.0 == before + w.0 && rest.1 == w.1
                    && rest.2 == w.2,
                (Err(a), Err(b)) => a == b,
                _ => false,
            },
        decreases left,
    {
        let (s, next) = match h.read_record(body, d, at, left == h.count) {
            Ok(x) => x,
            Err(e) => {
                return Err(e);
            },
        };
        let frame = match demux_sample(data, t, &s, h.version == 1, time, offset) {
            Ok(f) => f,
            Err(e) => {
                return Err(e);
            },
        };
        let next_time: u64 = add_clamped(time, s.duration);
        let ghost now = views(output@);
        output.push(frame);
        proof {
            assert(views(output@) =~= now.push(frame@));
            if let Ok((rest, _, _)) = run_frames(
                data@,
                t@,
                m,
                *d,
                left - 1,
                next as int,
                next_time as int,
                offset + s.size,
            ) {
                assert(now + (seq![frame@] + rest) =~= now.push(frame@) + rest);
            }
        }
        time = next_time;
        at = next;
        offset = offset + s.size as u64;
        left = left - 1;
    }
    proof {
        assert(views(output@) + Seq::<FrameModel>::empty() =~= views(output@));
    }
    Ok((time, offset))
}

/// Demuxes the runs among the boxes of a track fragment: appends their frames.
fn demux_runs(
    data: &[u8],
    t: &FragmentTrack,
    d: &FragmentDefaults,
    list: &Vec<BoxView>,
    start_time: u64,
    start_offset: u64,
    output: &mut Vec<MediaFrame>,
) -> (r: Result<(), FragmentError>)
    requires
        t.timescale > 0,
        forall|k: int| 0 <= k < list@.len() ==> in_data(data@, #[trigger] list@[k]),
    ensures
        match (
            r,
            runs_frames(data@, t@, *d, list@, 0, start_time as int, start_offset as int),
        ) {
            (Ok(_), Ok(b)) => views(final(output)@) == views(old(output)@) + b,
            (Err(a), Err(b)) => a == b,
            _ => false,
        },
{
    let mut time: u64 = start_time;
    let mut offset: u64 = start_offset;
    let mut i: usize = 0;
    let ghost before = views(output@);
    let ghost whole = runs_frames(
        data@,
        t@,
        *d,
        list@,
        0,
        start_time as int,
        start_offset as int,
    );
    while i < list.len()
        invariant
            t.timescale > 0,
            whole == runs_frames(
                data@,
                t@,
                *d,
                list@,
                0,
                start_time as int,
                start_offset as int,
            ),
            i <= list@.len(),
            forall|k: int| 0 <= k < list@.len() ==> in_data(data@, #[trigger] list@[k]),
            match (
                whole,
                runs_frames(data@, t@, *d, list@, i as int, time as int, offset as int),
            ) {
                (Ok(all), Ok(rest)) => views(output@) + rest == before + all,
                (Err(a), Err(b)) => a == b,
                _ => false,
            },
        decreases list@.len() - i,
    {
        assert(in_data(data@, list@[i as int]));
        if list[i].kind == TRUN {
            let body = slice(data, list[i].data_start, list[i].end);
            let header = match parse_run_header(body, d, offset) {
                Ok(h) => h,
                Err(e) => {
                    return Err(e);
                },
            };
            let ghost now = views(output@);
            match demux_run(data, t, body, &header, d, time, output) {
                Ok((after, end)) => {
                    proof {
                        if let Ok(rest) = runs_frames(
                            data@,
                            t@,
                            *d,
                            list@,
                            i + 1,
                            after as int,
                            end as int,
                        ) {
                            if let Ok((here, _, _)) = run_frames(
                                data@,
                                t@,
                                header.model(body@),
                                *d,
                                header.count as int,
                                header.records_at as int,
                                time as int,
                                header.samples_at as int,
                            ) {
                                assert(now + (here + rest) =~= now + here + rest);
                            }
                        }
                    }
                    time = after;
                    offset = end;
                },
                Err(e) => {
                    return Err(e);
                },
            }
        }
        i = i + 1;
    }
    proof {
        assert(views(output@) + Seq::<FrameModel>::empty() =~= views(output@));
    }
    Ok(())
}

/// Reads the tracks among the boxes of a movie.
fn parse_init_tracks(data: &[u8], list: &Vec<BoxView>) -> (r: Result<
    Vec<FragmentTrack>,
    FragmentError,
>)
    requires
        forall|k: int| 0 <= k < list@.len() ==> in_data(data@, #[trigger] list@[k]),
    ensures
        match (r, init_tracks(data@, list@, 0, Seq::empty())) {
            (Ok(a), Ok(b)) => views(a@) == b && timescales_valid(b),
            (Err(a), Err(b)) => a == b,
            _ => false,
        },
{
    let mut tracks: Vec<FragmentTrack> = Vec::new();
    let mut i: usize = 0;
    let ghost whole = init_tracks(data@, list@, 0, Seq::empty());
    assert(views(tracks@) =~= Seq::empty());
    while i < list.len()
        invariant
            i <= list@.len(),
            whole == init_tracks(data@, list@, 0, Seq::empty()),
            forall|k: int| 0 <= k < list@.len() ==> in_data(data@, #[trigger] list@[k]),
            timescales_valid(views(tracks@)),
            init_tracks(data@, list@, i as int, views(tracks@)) == whole,
        decreases list@.len() - i,
    {
        assert(in_data(data@, list@[i as int]));
        if list[i].kind == TRAK {
            match parse_init_track(data, list[i]) {
                Ok(t) => {
                    let ghost before = views(tracks@);
                    insert_fragment_track(&mut tracks, t);
                    proof {
                        let after = views(tracks@);
                        lemma_track_index(before, t@.id, 0);
                        assert forall|k: int| 0 <= k < after.len() implies (
                        #[trigger] after[k]).timescale > 0 by {
                            if k < before.len() {
                                assert(before[k].timescale > 0);
                            }
                        }
                    }
                },
                Err(e) => {
                    return Err(e);
                },
            }
        }
        i = i + 1;
    }
    Ok(tracks)
}

/// A demuxer that knows the tracks of an initialization segment, in the order
/// in which they were found, each number once.
pub struct Fmp4Demuxer {
    tracks: Vec<FragmentTrack>,
}

impl View for Fmp4Demuxer {
    type V = Seq<FragmentTrackModel>;

    closed spec fn view(&self) -> Seq<FragmentTrackModel> {
        views(self.tracks@)
    }
}

/// Whether every track has a time base.
pub open spec fn timescales_valid(tracks: Seq<FragmentTrackModel>) -> bool {
    forall|i: int| 0 <= i < tracks.len() ==> (#[trigger] tracks[i]).timescale > 0
}

/// What is known of a track.
pub open spec fn info_of(t: FragmentTrackModel) -> TrackInfo {
    if t.codec.is_video() {
        TrackInfo::Video(
            VideoInfo { codec: t.codec, width: t.width, height: t.height, fps: 0, key_frame: true },
        )
    } else {
        TrackInfo::Audio(
            AudioInfo {
                codec: t.codec,
                sample_rate: t.timescale,
                channels: if t.channels >= 1 {
                    t.channels
                } else {
                    1
                },
                bits_per_sample: 16,
            },
        )
    }
}

/// The frame that carries the decoder configuration of a track.
pub open spec fn fragment_config(t: FragmentTrackModel) -> FrameModel {
    if t.codec.is_video() {
        FrameModel {
            config_frame: true,
            payload_format: if t.codec == CodecId::H264 {
                PayloadFormat::Avcc
            } else {
                PayloadFormat::Hvcc
            },
            ..video_frame(t.id, t.codec, 0, 0, 0, t.config, false)
        }
    } else {
        FrameModel {
            config_frame: true,
            payload_format: PayloadFormat::AacAudioSpecificConfig,
            ..audio_frame(t.id, t.codec, 0, 0, 0, t.config)
        }
    }
}

/// The configurations of those of the first `n` tracks that have one.
pub open spec fn fragment_configs(tracks: Seq<FragmentTrackModel>, n: int) -> Seq<FrameModel>
    decreases n,
{
    if n <= 0 {
        Seq::empty()
    } else if tracks[n - 1].config.len() == 0 {
        fragment_configs(tracks, n - 1)
    } else {
        fragment_configs(tracks, n - 1).push(fragment_config(tracks[n - 1]))
    }
}

impl Fmp4Demuxer {
    /// Whether every track has a time base.
    #[verifier::type_invariant]
    spec fn valid(&self) -> bool {
        timescales_valid(views(self.tracks@))
    }

    /// Reads the tracks of an initialization segment.
    pub fn from_init_segment(data: &[u8]) -> (r: Result<Self, FragmentError>)
        ensures
            match (r, init_segment_tracks(data@)) {
                (Ok(a), Ok(b)) => a@ == b,
                (Err(a), Err(b)) => a == b,
                _ => false,
            },
    {
        let top = match boxes(data, 0, data.len()) {
            Ok(b) => b,
            Err(e) => {
                return Err(e);
            },
        };
        let moov = match find_box(&top, MOOV) {
            Some(b) => b,
            None => {
                return Err(FragmentError::MissingBox(MOOV));
            },
        };
        let list = match boxes(data, moov.data_start, moov.end) {
            Ok(b) => b,
            Err(e) => {
                return Err(e);
            },
        };
        let tracks = match parse_init_tracks(data, &list) {
            Ok(t) => t,
            Err(e) => {
                return Err(e);
            },
        };
        if tracks.len() == 0 {
            return Err(FragmentError::NoTracks);
        }
        Ok(Fmp4Demuxer { tracks })
    }

    /// What is known of the tracks.
    pub fn track_info(&self) -> (r: Vec<TrackInfo>)
        ensures
            r@ == Seq::new(self@.len(), |i: int| info_of(self@[i])),
    {
        let mut out: Vec<TrackInfo> = Vec::new();
        let mut i: usize = 0;
        while i < self.tracks.len()
            invariant
                i <= self.tracks@.len(),
                out@ =~= Seq::new(i as nat, |k: int| info_of(self@[k])),
            decreases self.tracks@.len() - i,
        {
            let t = &self.tracks[i];
            assert(self@[i as int] == t@);
            let info = if t.codec.is_video() {
                TrackInfo::Video(
                    VideoInfo {
                        codec: t.codec,
                        width: t.width,
                        height: t.height,
                        fps: 0,
                        key_frame: true,
                    },
                )
            } else {
                TrackInfo::Audio(
                    AudioInfo {
                        codec: t.codec,
                        sample_rate: t.timescale,
                        channels: if t.channels >= 1 {
                            t.channels
                        } else {
                            1
                        },
                        bits_per_sample: 16,
                    },
                )
            };
            out.push(info);
            i = i + 1;
        }
        out
    }

    /// The decoder configurations of the tracks that have one.
    pub fn config_frames(&self) -> (r: Vec<MediaFrame>)
        ensures
            views(r@) == fragment_configs(self@, self@.len() as int),
    {
        let mut out: Vec<MediaFrame> = Vec::new();
        let mut i: usize = 0;
        assert(views(out@) =~= Seq::empty());
        while i < self.tracks.len()
            invariant
                i <= self.tracks@.len(),
                views(out@) == fragment_configs(self@, i as int),
            decreases self.tracks@.len() - i,
        {
            let t = &self.tracks[i];
            assert(self@[i as int] == t@);
            if t.config.len() > 0 {
                let config = to_vec(t.config.as_slice());
                let mut frame = if t.codec.is_video() {
                    MediaFrame::new_video(t.id, t.codec, 0, 0, 0, config, false).with_payload_format(
                        if t.codec == CodecId::H264 {
                            PayloadFormat::Avcc
                        } else {
                            PayloadFormat::Hvcc
                        },
                    )
                } else {
                    MediaFrame::new_audio(t.id, t.codec, 0, 0, 0, config).with_payload_format(
                        PayloadFormat::AacAudioSpecificConfig,
                    )
                };
                frame.config_frame = true;
                let ghost before = views(out@);
                out.push(frame);
                assert(views(out@) =~= before.push(frame@));
            }
            i = i + 1;
        }
        out
    }

    /// Demuxes a media segment: its frames in ascending order of decode time
    /// and track.
    pub fn demux_fragment(&self, data: &[u8]) -> (r: Result<Vec<MediaFrame>, FragmentError>)
        ensures
            match (r, segment_frames(data@, self@)) {
                (Ok(a), Ok(b)) => in_decode_order(b, views(a@)),
                (Err(a), Err(b)) => a == b,
                _ => false,
            },
    {
        let top = match boxes(data, 0, data.len()) {
            Ok(b) => b,
            Err(e) => {
                return Err(e);
            },
        };
        let moof = match find_box(&top, MOOF) {
            Some(b) => b,
            None => {
                return Err(FragmentError::MissingBox(MOOF));
            },
        };
        let mdat = match find_box(&top, MDAT) {
            Some(b) => b,
            None => {
                return Err(FragmentError::MissingBox(MDAT));
            },
        };
        let list = match boxes(data, moof.data_start, moof.end) {
            Ok(b) => b,
            Err(e) => {
                return Err(e);
            },
        };
        match self.demux_trafs(data, moof, mdat, &list) {
            Ok(frames) => Ok(sort_frames(&frames)),
            Err(e) => Err(e),
        }
    }

    /// Demuxes the track fragments among the boxes of a fragment.
    fn demux_trafs(
        &self,
        data: &[u8],
        moof: BoxView,
        mdat: BoxView,
        list: &Vec<BoxView>,
    ) -> (r: Result<Vec<MediaFrame>, FragmentError>)
        requires
            in_data(data@, moof),
            in_data(data@, mdat),
            forall|k: int| 0 <= k < list@.len() ==> in_data(data@, #[trigger] list@[k]),
        ensures
            match (r, moof_frames(data@, self@, moof, mdat, list@, 0)) {
                (Ok(a), Ok(b)) => views(a@) == b,
                (Err(a), Err(b)) => a == b,
                _ => false,
            },
    {
        let mut frames: Vec<MediaFrame> = Vec::new();
        let mut i: usize = 0;
        let ghost whole = moof_frames(data@, self@, moof, mdat, list@, 0);
        proof {
            assert(views(frames@) =~= Seq::empty());
            if let Ok(all) = whole {
                assert(Seq::<FrameModel>::empty() + all =~= all);
            }
        }
        while i < list.len()
            invariant
                i <= list@.len(),
                whole == moof_frames(data@, self@, moof, mdat, list@, 0),
                forall|k: int| 0 <= k < list@.len() ==> in_data(data@, #[trigger] list@[k]),
                in_data(data@, moof),
                in_data(data@, mdat),
                match (whole, moof_frames(data@, self@, moof, mdat, list@, i as int)) {
                    (Ok(all), Ok(rest)) => views(frames@) + rest == all,
                    (Err(a), Err(b)) => a == b,
                    _ => false,
                },
            decreases list@.len() - i,
        {
            assert(in_data(data@, list@[i as int]));
            if list[i].kind == TRAF {
                let ghost before = views(frames@);
                match self.demux_traf(data, moof, mdat, list[i], &mut frames) {
                    Ok(_) => {
                        proof {
                            if let Ok(rest) = moof_frames(
                                data@,
                                self@,
                                moof,
                                mdat,
                                list@,
                                i + 1,
                            ) {
                                if let Ok(here) = traf_frames(
                                    data@,
                                    self@,
                                    moof,
                                    mdat,
                                    list@[i as int],
                                ) {
                                    assert(before + (here + rest) =~= before + here + rest);
                                }
                            }
                        }
                    },
                    Err(e) => {
                        return Err(e);
                    },
                }
            }
            i = i + 1;
        }
        proof {
            assert(views(frames@) + Seq::<FrameModel>::empty() =~= views(frames@));
        }
        Ok(frames)
    }

    /// Demuxes one track fragment: appends its frames.
    fn demux_traf(
        &self,
        data: &[u8],
        moof: BoxView,
        mdat: BoxView,
        traf: BoxView,
        output: &mut Vec<MediaFrame>,
    ) -> (r: Result<(), FragmentError>)
        requires
            in_data(data@, moof),
            in_data(data@, mdat),
            in_data(data@, traf),
        ensures
            match (r, traf_frames(data@, self@, moof, mdat, traf)) {
                (Ok(_), Ok(b)) => views(final(output)@) == views(old(output)@) + b,
                (Err(a), Err(b)) => a == b,
                _ => false,
            },
    {
        let tfhd_box = match child(data, traf, TFHD) {
            Ok(Some(b)) => b,
            Ok(None) => {
                return Err(FragmentError::MissingBox(TFHD));
            },
            Err(e) => {
                return Err(e);
            },
        };
        let tfhd = slice(data, tfhd_box.data_start, tfhd_box.end);
        if tfhd.len() < 8 {
            return Err(FragmentError::Truncated);
        }
        let track_id: u32 = read_u32(tfhd, 4);
        let index: usize = match find_track(&self.tracks, track_id) {
            Some(i) => i,
            None => {
                return Err(FragmentError::UnknownTrack(track_id));
            },
        };
        let t = &self.tracks[index];
        proof {
            use_type_invariant(self);
            assert(self@[index as int] == t@);
            assert(self@[index as int].timescale > 0);
        }
        let d = match parse_defaults(tfhd, moof.start) {
            Ok(d) => d,
            Err(e) => {
                return Err(e);
            },
        };
        let time: u64 = match parse_decode_time(data, traf) {
            Ok(t) => t,
            Err(e) => {
                return Err(e);
            },
        };
        let list = match boxes(data, traf.data_start, traf.end) {
            Ok(b) => b,
            Err(e) => {
                return Err(e);
            },
        };
        demux_runs(data, t, &d, &list, time, mdat.data_start as u64, output)
    }
}

/// A track that is found is where it is said to be.
proof fn lemma_track_index(tracks: Seq<FragmentTrackModel>, id: u32, i: int)
    requires
        0 <= i,
    ensures
        track_index(tracks, id, i) matches Some(k) ==> i <= k < tracks.len() && tracks[k].id == id,
    decreases tracks.len() - i,
{
    if i < tracks.len() {
        lemma_track_index(tracks, id, i + 1);
    }
}

/// The frames in ascending order of decode time and track.
fn sort_frames(frames: &Vec<MediaFrame>) -> (r: Vec<MediaFrame>)
    ensures
        in_decode_order(views(frames@), views(r@)),
{
    let mut keys: Vec<(u64, u32)> = Vec::new();
    let mut i: usize = 0;
    while i < frames.len()
        invariant
            i <= frames@.len(),
            keys@ =~= Seq::new(
                i as nat,
                |k: int| (views(frames@)[k].dts, views(frames@)[k].track_id),
            ),
        decreases frames@.len() - i,
    {
        assert(views(frames@)[i as int] == frames@[i as int]@);
        keys.push((frames[i].dts, frames[i].track_id));
        i = i + 1;
    }
    assert(keys@ =~= dts_keys(views(frames@)));
    let order = stable_order(&keys);
    let ghost p = order@.map_values(|i: usize| i as int);
    let mut out: Vec<MediaFrame> = Vec::new();
    let mut k: usize = 0;
    while k < order.len()
        invariant
            k <= order@.len(),
            p == order@.map_values(|i: usize| i as int),
            is_stable_order(dts_keys(views(frames@)), p),
            views(out@) =~= Seq::new(k as nat, |j: int| views(frames@)[p[j]]),
        decreases order@.len() - k,
    {
        assert(p[k as int] == order@[k as int]);
        let frame = frames[order[k]].duplicate();
        let ghost before = views(out@);
        out.push(frame);
        proof {
            assert(views(frames@)[p[k as int]] == frames@[order@[k as int] as int]@);
            assert(views(out@) =~= before.push(frame@));
        }
        k = k + 1;
    }
    out
}

} // verus!
