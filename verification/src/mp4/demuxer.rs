//! MP4 demuxer.
//!
//! Parses an MP4 file (ftyp/moov/mdat) into tracks and encoded samples, and
//! turns the samples into frames in FLV-style framing, so that a recorded file
//! can be replayed. Supported codecs: H.264 (avc1), H.265 (hvc1/hev1), AAC
//! (mp4a).
use vstd::prelude::*;
use crate::bytes::{put_bytes, read_u32, to_vec, u32_at, views};
use crate::media::{
    CodecId, FrameModel, MediaFrame, PayloadFormat, audio_frame, video_frame,
};
use crate::mp4::boxes::{
    BoxCursor, BoxModel, Mp4Box, Mp4Error, CO64, HDLR, MDAT, MDHD, MDIA, MINF, MOOV, MVHD, SOUN,
    STBL, STCO, STSC, STSD, STSS, STSZ, STTS, TKHD, TRAK, VIDE, boxes_of, last_body, last_box,
};
use crate::mp4::entries::{TrackKind, parse_stsd, stsd_codec};
use crate::mp4::layout::{
    DemuxedSample, SampleModel, SampleTables, TablesModel, layout_samples, tables_agree,
    track_samples,
};
use crate::mp4::tables::{
    co64_offsets, parse_co64, parse_stco, parse_stsc, parse_stss, parse_stsz, parse_stts,
    stco_offsets, stsc_entries, stss_samples, stsz_sizes, stts_durations,
};
use crate::order::{is_stable_order, stable_order};

verus! {

/// One media track of a file.
#[derive(Debug, Clone)]
pub struct DemuxedTrack {
    pub track_id: u32,
    pub handler: TrackKind,
    pub codec: CodecId,
    /// Ticks per second of the track's clock.
    pub timescale: u32,
    /// Duration in ticks.
    pub duration: u64,
    /// Decoder configuration record.
    pub config: Vec<u8>,
    /// Number of samples that the tables announce.
    pub sample_count: u32,
    /// Picture width, 0 when unknown.
    pub width: u32,
    /// Picture height, 0 when unknown.
    pub height: u32,
    /// Nominal frames per second, 0 when unknown.
    pub fps: u32,
    /// Audio sample rate in Hz, 0 when unknown.
    pub sample_rate: u32,
}

/// The model of a track.
#[verifier::ext_equal]
pub struct TrackModel {
    pub track_id: u32,
    pub handler: TrackKind,
    pub codec: CodecId,
    pub timescale: u32,
    pub duration: u64,
    pub config: Seq<u8>,
    pub sample_count: u32,
    pub width: u32,
    pub height: u32,
    pub fps: u32,
    pub sample_rate: u32,
}

impl View for DemuxedTrack {
    type V = TrackModel;

    open spec fn view(&self) -> TrackModel {
        TrackModel {
            track_id: self.track_id,
            handler: self.handler,
            codec: self.codec,
            timescale: self.timescale,
            duration: self.duration,
            config: self.config@,
            sample_count: self.sample_count,
            width: self.width,
            height: self.height,
            fps: self.fps,
            sample_rate: self.sample_rate,
        }
    }
}

impl DemuxedTrack {
    /// A copy of the track.
    pub fn duplicate(&self) -> (r: Self)
        ensures
            r@ == self@,
    {
        DemuxedTrack {
            track_id: self.track_id,
            handler: self.handler,
            codec: self.codec,
            timescale: self.timescale,
            duration: self.duration,
            config: to_vec(self.config.as_slice()),
            sample_count: self.sample_count,
            width: self.width,
            height: self.height,
            fps: self.fps,
            sample_rate: self.sample_rate,
        }
    }
}

/// A track with its samples in decode order.
#[derive(Debug, Clone)]
pub struct ParsedTrack {
    pub track: DemuxedTrack,
    pub samples: Vec<DemuxedSample>,
}

/// The model of a track with its samples.
#[verifier::ext_equal]
pub struct ParsedModel {
    pub track: TrackModel,
    pub samples: Seq<SampleModel>,
}

impl View for ParsedTrack {
    type V = ParsedModel;

    open spec fn view(&self) -> ParsedModel {
        ParsedModel { track: self.track@, samples: views(self.samples@) }
    }
}

/// What the header boxes of a track say, and the boxes that hold its tables.
struct TrackHead<'a> {
    track_id: u32,
    timescale: u32,
    duration: u64,
    handler: TrackKind,
    tables: Vec<Mp4Box<'a>>,
}

/// The model of a track head.
pub struct HeadModel {
    pub track_id: u32,
    pub timescale: u32,
    pub duration: u64,
    pub handler: TrackKind,
    pub tables: Seq<BoxModel>,
}

impl<'a> TrackHead<'a> {
    spec fn model(&self) -> HeadModel {
        HeadModel {
            track_id: self.track_id,
            timescale: self.timescale,
            duration: self.duration,
            handler: self.handler,
            tables: views(self.tables@),
        }
    }
}

// ── header boxes ────────────────────────────────────────────────────────

/// Time base of a movie header, 1000 when the box is too short to say.
pub open spec fn mvhd_timescale(mvhd: Seq<u8>) -> int {
    if mvhd.len() >= 16 {
        u32_at(mvhd, 12)
    } else {
        1000
    }
}

/// Track number of a track header, 0 when the box is too short to say.
pub open spec fn tkhd_track_id(tkhd: Seq<u8>) -> int {
    if tkhd.len() >= 16 {
        u32_at(tkhd, 12)
    } else {
        0
    }
}

/// Time base of a media header, 90000 when the box is too short to say.
pub open spec fn mdhd_timescale(mdhd: Seq<u8>) -> int {
    if mdhd.len() >= 16 {
        u32_at(mdhd, 12)
    } else {
        90000
    }
}

/// Duration of a media header, 0 when the box is too short to say.
pub open spec fn mdhd_duration(mdhd: Seq<u8>) -> int {
    if mdhd.len() >= 20 {
        u32_at(mdhd, 16)
    } else {
        0
    }
}

/// What a handler box says that its track carries.
pub open spec fn hdlr_kind(hdlr: Seq<u8>) -> TrackKind {
    if hdlr.len() >= 12 && u32_at(hdlr, 8) == VIDE {
        TrackKind::Video
    } else if hdlr.len() >= 12 && u32_at(hdlr, 8) == SOUN {
        TrackKind::Audio
    } else {
        TrackKind::Other
    }
}

pub fn read_mvhd_timescale(mvhd: &[u8]) -> (r: u32)
    ensures
        r == mvhd_timescale(mvhd@),
{
    if mvhd.len() >= 16 {
        read_u32(mvhd, 12)
    } else {
        1000
    }
}

pub fn read_tkhd_track_id(tkhd: &[u8]) -> (r: u32)
    ensures
        r == tkhd_track_id(tkhd@),
{
    if tkhd.len() >= 16 {
        read_u32(tkhd, 12)
    } else {
        0
    }
}

pub fn read_mdhd_timescale(mdhd: &[u8]) -> (r: u32)
    ensures
        r == mdhd_timescale(mdhd@),
{
    if mdhd.len() >= 16 {
        read_u32(mdhd, 12)
    } else {
        90000
    }
}

pub fn read_mdhd_duration(mdhd: &[u8]) -> (r: u64)
    ensures
        r == mdhd_duration(mdhd@),
{
    if mdhd.len() >= 20 {
        read_u32(mdhd, 16) as u64
    } else {
        0
    }
}

pub fn read_hdlr_type(hdlr: &[u8]) -> (r: TrackKind)
    ensures
        r == hdlr_kind(hdlr@),
{
    if hdlr.len() < 12 {
        return TrackKind::Other;
    }
    let kind: u32 = read_u32(hdlr, 8);
    if kind == VIDE {
        TrackKind::Video
    } else if kind == SOUN {
        TrackKind::Audio
    } else {
        TrackKind::Other
    }
}

// ── tracks ──────────────────────────────────────────────────────────────

/// The boxes that hold the sample tables: those of `stbl`, or of `minf` itself
/// where there is no `stbl`.
pub open spec fn table_boxes(minf: Seq<BoxModel>) -> Result<Seq<BoxModel>, Mp4Error> {
    match last_box(minf, STBL) {
        Some(stbl) => boxes_of(stbl),
        None => Ok(minf),
    }
}

/// What the media box of a track says; `None` when the track is to be skipped.
pub open spec fn mdia_head(track_id: u32, mdia: Seq<BoxModel>) -> Result<
    Option<HeadModel>,
    Mp4Error,
> {
    match (last_box(mdia, MDHD), last_box(mdia, HDLR)) {
        (None, _) => Err(Mp4Error::MissingBox(MDHD)),
        (Some(mdhd), hdlr) => if mdhd_timescale(mdhd) == 0 {
            Err(Mp4Error::ZeroTimescale)
        } else {
            match hdlr {
                None => Err(Mp4Error::MissingBox(HDLR)),
                Some(hdlr) => if hdlr_kind(hdlr) == TrackKind::Other {
                    Ok(None)
                } else {
                    match last_box(mdia, MINF) {
                        None => Ok(None),
                        Some(minf) => match boxes_of(minf) {
                            Err(e) => Err(e),
                            Ok(minf_boxes) => match table_boxes(minf_boxes) {
                                Err(e) => Err(e),
                                Ok(tables) => Ok(
                                    Some(
                                        HeadModel {
                                            track_id,
                                            timescale: mdhd_timescale(mdhd) as u32,
                                            duration: mdhd_duration(mdhd) as u64,
                                            handler: hdlr_kind(hdlr),
                                            tables,
                                        },
                                    ),
                                ),
                            },
                        },
                    }
                },
            }
        },
    }
}

/// What the header boxes of a track say; `None` when it is to be skipped.
pub open spec fn track_head(trak: Seq<u8>) -> Result<Option<HeadModel>, Mp4Error> {
    match boxes_of(trak) {
        Err(e) => Err(e),
        Ok(boxes) => match (last_box(boxes, TKHD), last_box(boxes, MDIA)) {
            (None, _) => Err(Mp4Error::MissingBox(TKHD)),
            (Some(_), None) => Ok(None),
            (Some(tkhd), Some(mdia)) => match boxes_of(mdia) {
                Err(e) => Err(e),
                Ok(mdia_boxes) => mdia_head(tkhd_track_id(tkhd) as u32, mdia_boxes),
            },
        },
    }
}

/// The chunk offsets: 64-bit ones where there are any.
pub open spec fn chunk_offsets(tables: Seq<BoxModel>) -> Result<Seq<u64>, Mp4Error> {
    match (last_box(tables, CO64), last_box(tables, STCO)) {
        (Some(co64), _) => co64_offsets(co64),
        (None, Some(stco)) => stco_offsets(stco),
        (None, None) => Err(Mp4Error::MissingBox(STCO)),
    }
}

/// The sync samples; none listed means that every sample is one.
pub open spec fn sync_samples(tables: Seq<BoxModel>) -> Result<Seq<u32>, Mp4Error> {
    match last_box(tables, STSS) {
        Some(stss) => stss_samples(stss),
        None => Ok(Seq::empty()),
    }
}

/// The tables that place the samples, once codec, sizes and durations are
/// known.
pub open spec fn chunk_tables(
    tables: Seq<BoxModel>,
    codec: CodecId,
    config: Seq<u8>,
    sizes: Seq<usize>,
    durations: Seq<u32>,
) -> Result<Option<TablesModel>, Mp4Error> {
    match last_box(tables, STSC) {
        None => Err(Mp4Error::MissingBox(STSC)),
        Some(stsc) => match stsc_entries(stsc) {
            Err(e) => Err(e),
            Ok(chunks) => match chunk_offsets(tables) {
                Err(e) => Err(e),
                Ok(offsets) => match sync_samples(tables) {
                    Err(e) => Err(e),
                    Ok(sync) => Ok(
                        Some(
                            TablesModel { codec, config, sizes, durations, chunks, offsets, sync },
                        ),
                    ),
                },
            },
        },
    }
}

/// The sample tables of a track; `None` when it holds no samples.
pub open spec fn sample_tables(
    tables: Seq<BoxModel>,
    handler: TrackKind,
    file_len: int,
) -> Result<Option<TablesModel>, Mp4Error> {
    match last_box(tables, STSD) {
        None => Err(Mp4Error::MissingBox(STSD)),
        Some(stsd) => match stsd_codec(stsd, handler) {
            Err(e) => Err(e),
            Ok((codec, config)) => match last_box(tables, STSZ) {
                None => Err(Mp4Error::MissingBox(STSZ)),
                Some(stsz) => match stsz_sizes(stsz, file_len) {
                    Err(e) => Err(e),
                    Ok(sizes) => if sizes.len() == 0 {
                        Ok(None)
                    } else {
                        match last_box(tables, STTS) {
                            None => Err(Mp4Error::MissingBox(STTS)),
                            Some(stts) => match stts_durations(stts, sizes.len() as int) {
                                Err(e) => Err(e),
                                Ok(durations) => chunk_tables(
                                    tables,
                                    codec,
                                    config,
                                    sizes,
                                    durations,
                                ),
                            },
                        }
                    },
                },
            },
        },
    }
}

/// A track and its samples, given its head and its tables.
pub open spec fn assemble_track(head: HeadModel, tables: TablesModel, file: Seq<u8>) -> Result<
    Option<ParsedModel>,
    Mp4Error,
> {
    match track_samples(tables, head.track_id, head.timescale, file) {
        Err(e) => Err(e),
        Ok(samples) => Ok(
            Some(
                ParsedModel {
                    track: TrackModel {
                        track_id: head.track_id,
                        handler: head.handler,
                        codec: tables.codec,
                        timescale: head.timescale,
                        duration: head.duration,
                        config: tables.config,
                        sample_count: tables.sizes.len() as u32,
                        width: 0,
                        height: 0,
                        fps: 0,
                        sample_rate: 0,
                    },
                    samples,
                },
            ),
        ),
    }
}

/// The track that a `trak` box describes; `None` when it is to be skipped.
#[verifier::opaque]
pub open spec fn trak_model(trak: Seq<u8>, file: Seq<u8>) -> Result<Option<ParsedModel>, Mp4Error> {
    match track_head(trak) {
        Err(e) => Err(e),
        Ok(None) => Ok(None),
        Ok(Some(head)) => match sample_tables(head.tables, head.handler, file.len() as int) {
            Err(e) => Err(e),
            Ok(None) => Ok(None),
            Ok(Some(tables)) => assemble_track(head, tables, file),
        },
    }
}

fn parse_mdia_head<'a>(track_id: u32, mdia: &'a [u8]) -> (r: Result<Option<TrackHead<'a>>, Mp4Error>)
    ensures
        match boxes_of(mdia@) {
            Err(e) => r == Err::<Option<TrackHead<'a>>, Mp4Error>(e),
            Ok(boxes) => match (r, mdia_head(track_id, boxes)) {
                (Ok(Some(a)), Ok(Some(b))) => a.model() == b && b.timescale > 0,
                (Ok(None), Ok(None)) => true,
                (Err(a), Err(b)) => a == b,
                _ => false,
            },
        },
{
    let boxes = match BoxCursor::new(mdia).walk_top_boxes_vec() {
        Ok(b) => b,
        Err(e) => {
            return Err(e);
        },
    };
    let mdhd = match last_body(&boxes, MDHD) {
        Some(b) => b,
        None => {
            return Err(Mp4Error::MissingBox(MDHD));
        },
    };
    let timescale: u32 = read_mdhd_timescale(mdhd);
    if timescale == 0 {
        return Err(Mp4Error::ZeroTimescale);
    }
    let duration: u64 = read_mdhd_duration(mdhd);
    let hdlr = match last_body(&boxes, HDLR) {
        Some(b) => b,
        None => {
            return Err(Mp4Error::MissingBox(HDLR));
        },
    };
    let handler = read_hdlr_type(hdlr);
    if handler == TrackKind::Other {
        return Ok(None);
    }
    let minf = match last_body(&boxes, MINF) {
        Some(b) => b,
        None => {
            return Ok(None);
        },
    };
    let minf_boxes = match BoxCursor::new(minf).walk_top_boxes_vec() {
        Ok(b) => b,
        Err(e) => {
            return Err(e);
        },
    };
    let tables = match last_body(&minf_boxes, STBL) {
        Some(stbl) => match BoxCursor::new(stbl).walk_top_boxes_vec() {
            Ok(b) => b,
            Err(e) => {
                return Err(e);
            },
        },
        None => minf_boxes,
    };
    Ok(Some(TrackHead { track_id, timescale, duration, handler, tables }))
}

fn parse_track_head<'a>(trak: &'a [u8]) -> (r: Result<Option<TrackHead<'a>>, Mp4Error>)
    ensures
        match (r, track_head(trak@)) {
            (Ok(Some(a)), Ok(Some(b))) => a.model() == b && b.timescale > 0,
            (Ok(None), Ok(None)) => true,
            (Err(a), Err(b)) => a == b,
            _ => false,
        },
{
    let boxes = match BoxCursor::new(trak).walk_top_boxes_vec() {
        Ok(b) => b,
        Err(e) => {
            return Err(e);
        },
    };
    let tkhd = match last_body(&boxes, TKHD) {
        Some(b) => b,
        None => {
            return Err(Mp4Error::MissingBox(TKHD));
        },
    };
    let track_id: u32 = read_tkhd_track_id(tkhd);
    match last_body(&boxes, MDIA) {
        Some(mdia) => parse_mdia_head(track_id, mdia),
        None => Ok(None),
    }
}

fn parse_chunk_offsets<'a>(tables: &Vec<Mp4Box<'a>>) -> (r: Result<Vec<u64>, Mp4Error>)
    ensures
        match (r, chunk_offsets(views(tables@))) {
            (Ok(a), Ok(b)) => a@ == b && b.len() <= u32::MAX,
            (Err(a), Err(b)) => a == b,
            _ => false,
        },
{
    match last_body(tables, CO64) {
        Some(co64) => parse_co64(co64),
        None => match last_body(tables, STCO) {
            Some(stco) => parse_stco(stco),
            None => Err(Mp4Error::MissingBox(STCO)),
        },
    }
}

fn parse_sync_samples<'a>(tables: &Vec<Mp4Box<'a>>) -> (r: Result<Vec<u32>, Mp4Error>)
    ensures
        match (r, sync_samples(views(tables@))) {
            (Ok(a), Ok(b)) => a@ == b,
            (Err(a), Err(b)) => a == b,
            _ => false,
        },
{
    match last_body(tables, STSS) {
        Some(stss) => parse_stss(stss),
        None => Ok(Vec::new()),
    }
}

fn parse_sample_tables<'a>(tables: &Vec<Mp4Box<'a>>, handler: TrackKind, file_len: usize) -> (r:
    Result<Option<SampleTables>, Mp4Error>)
    ensures
        match (r, sample_tables(views(tables@), handler, file_len as int)) {
            (Ok(Some(a)), Ok(Some(b))) => a@ == b && tables_agree(b),
            (Ok(None), Ok(None)) => true,
            (Err(a), Err(b)) => a == b,
            _ => false,
        },
{
    let stsd = match last_body(tables, STSD) {
        Some(b) => b,
        None => {
            return Err(Mp4Error::MissingBox(STSD));
        },
    };
    let (codec, config) = match parse_stsd(stsd, handler) {
        Ok(c) => c,
        Err(e) => {
            return Err(e);
        },
    };
    let stsz = match last_body(tables, STSZ) {
        Some(b) => b,
        None => {
            return Err(Mp4Error::MissingBox(STSZ));
        },
    };
    let sizes = match parse_stsz(stsz, file_len) {
        Ok(s) => s,
        Err(e) => {
            return Err(e);
        },
    };
    if sizes.len() == 0 {
        return Ok(None);
    }
    let stts = match last_body(tables, STTS) {
        Some(b) => b,
        None => {
            return Err(Mp4Error::MissingBox(STTS));
        },
    };
    let durations = match parse_stts(stts, sizes.len()) {
        Ok(d) => d,
        Err(e) => {
            return Err(e);
        },
    };
    let stsc = match last_body(tables, STSC) {
        Some(b) => b,
        None => {
            return Err(Mp4Error::MissingBox(STSC));
        },
    };
    let chunks = match parse_stsc(stsc) {
        Ok(c) => c,
        Err(e) => {
            return Err(e);
        },
    };
    let offsets = match parse_chunk_offsets(tables) {
        Ok(o) => o,
        Err(e) => {
            return Err(e);
        },
    };
    let sync = match parse_sync_samples(tables) {
        Ok(s) => s,
        Err(e) => {
            return Err(e);
        },
    };
    Ok(Some(SampleTables { codec, config, sizes, durations, chunks, offsets, sync }))
}

/// Parses one `trak` box; `None` when the track is to be skipped.
pub fn parse_trak(trak: &[u8], file_data: &[u8]) -> (r: Result<Option<ParsedTrack>, Mp4Error>)
    ensures
        match (r, trak_model(trak@, file_data@)) {
            (Ok(Some(a)), Ok(Some(b))) => a@ == b,
            (Ok(None), Ok(None)) => true,
            (Err(a), Err(b)) => a == b,
            _ => false,
        },
{
    proof {
        reveal(trak_model);
    }
    let head = match parse_track_head(trak) {
        Ok(Some(h)) => h,
        Ok(None) => {
            return Ok(None);
        },
        Err(e) => {
            return Err(e);
        },
    };
    let tables = match parse_sample_tables(&head.tables, head.handler, file_data.len()) {
        Ok(Some(t)) => t,
        Ok(None) => {
            return Ok(None);
        },
        Err(e) => {
            return Err(e);
        },
    };
    let samples = match layout_samples(&tables, head.track_id, head.timescale, file_data) {
        Ok(s) => s,
        Err(e) => {
            return Err(e);
        },
    };
    let sample_count: u32 = tables.sizes.len() as u32;
    let track = DemuxedTrack {
        track_id: head.track_id,
        handler: head.handler,
        codec: tables.codec,
        timescale: head.timescale,
        duration: head.duration,
        config: tables.config,
        sample_count,
        width: 0,
        height: 0,
        fps: 0,
        sample_rate: 0,
    };
    Ok(Some(ParsedTrack { track, samples }))
}

/// Whether the tracks stand in ascending order of their numbers, each number
/// once.
pub open spec fn ascending(tracks: Seq<ParsedModel>) -> bool {
    forall|i: int, j: int|
        0 <= i < j < tracks.len() ==> (#[trigger] tracks[i]).track.track_id < (
        #[trigger] tracks[j]).track.track_id
}

/// The tracks with `t` among them, in place of one with its number.
pub open spec fn with_track(tracks: Seq<ParsedModel>, t: ParsedModel) -> Seq<ParsedModel>
    decreases tracks.len(),
{
    if tracks.len() == 0 {
        seq![t]
    } else if tracks.last().track.track_id < t.track.track_id {
        tracks.push(t)
    } else if tracks.last().track.track_id == t.track.track_id {
        tracks.drop_last().push(t)
    } else {
        with_track(tracks.drop_last(), t).push(tracks.last())
    }
}

/// The playable tracks among the boxes of a movie.
pub open spec fn movie_tracks(moov: Seq<BoxModel>, file: Seq<u8>) -> Seq<ParsedModel>
    decreases moov.len(),
{
    if moov.len() == 0 {
        Seq::empty()
    } else {
        let before = movie_tracks(moov.drop_last(), file);
        if moov.last().kind == TRAK {
            match trak_model(moov.last().body, file) {
                Ok(Some(t)) => with_track(before, t),
                _ => before,
            }
        } else {
            before
        }
    }
}

/// The playable tracks of a file.
pub open spec fn file_tracks(data: Seq<u8>) -> Result<Seq<ParsedModel>, Mp4Error> {
    match boxes_of(data) {
        Err(e) => Err(e),
        Ok(top) => match (last_box(top, MOOV), last_box(top, MDAT)) {
            (None, _) => Err(Mp4Error::MissingBox(MOOV)),
            (Some(_), None) => Err(Mp4Error::MissingBox(MDAT)),
            (Some(moov), Some(_)) => match boxes_of(moov) {
                Err(e) => Err(e),
                Ok(boxes) => if last_box(boxes, MVHD) is None {
                    Err(Mp4Error::MissingBox(MVHD))
                } else if movie_tracks(boxes, data).len() == 0 {
                    Err(Mp4Error::NoTracks)
                } else {
                    Ok(movie_tracks(boxes, data))
                },
            },
        },
    }
}

proof fn lemma_with_track(tracks: Seq<ParsedModel>, t: ParsedModel)
    requires
        ascending(tracks),
    ensures
        ascending(with_track(tracks, t)),
        with_track(tracks, t).len() > 0,
        with_track(tracks, t).last().track.track_id == if tracks.len() > 0
            && tracks.last().track.track_id > t.track.track_id {
            tracks.last().track.track_id
        } else {
            t.track.track_id
        },
    decreases tracks.len(),
{
    if tracks.len() > 0 && tracks.last().track.track_id > t.track.track_id {
        let init = tracks.drop_last();
        lemma_with_track(init, t);
        let w = with_track(init, t);
        assert forall|i: int, j: int| 0 <= i < j < w.push(tracks.last()).len() implies (
        #[trigger] w.push(tracks.last())[i]).track.track_id < (#[trigger] w.push(
            tracks.last(),
        )[j]).track.track_id by {
            if j == w.len() {
                if i < w.len() - 1 {
                    assert(w[i].track.track_id < w[w.len() - 1].track.track_id);
                }
                if init.len() > 0 {
                    assert(tracks[init.len() - 1].track.track_id < tracks[init.len() as int].track.track_id);
                }
            }
        }
    } else if tracks.len() > 0 {
        assert forall|i: int| 0 <= i < tracks.len() - 1 implies (
        #[trigger] tracks[i]).track.track_id < tracks.last().track.track_id by {
            assert(tracks[i].track.track_id < tracks[tracks.len() - 1].track.track_id);
        }
    }
}

/// The tracks of a movie are in ascending order.
pub proof fn lemma_movie_tracks_ascending(moov: Seq<BoxModel>, file: Seq<u8>)
    ensures
        ascending(movie_tracks(moov, file)),
    decreases moov.len(),
{
    if moov.len() > 0 {
        lemma_movie_tracks_ascending(moov.drop_last(), file);
        if let Ok(Some(t)) = trak_model(moov.last().body, file) {
            lemma_with_track(movie_tracks(moov.drop_last(), file), t);
        }
    }
}

/// Puts `t` among the tracks, in place of one with its number.
fn insert_track(tracks: &mut Vec<ParsedTrack>, t: ParsedTrack)
    ensures
        views(final(tracks)@) == with_track(views(old(tracks)@), t@),
{
    let ghost all = views(tracks@);
    let mut n: usize = tracks.len();
    proof {
        assert(all.take(n as int) =~= all);
        assert(all.skip(n as int) =~= Seq::empty());
        assert(with_track(all, t@) + Seq::<ParsedModel>::empty() =~= with_track(all, t@));
    }
    while n > 0 && tracks[n - 1].track.track_id > t.track.track_id
        invariant
            all == views(tracks@),
            n <= tracks@.len(),
            with_track(all.take(n as int), t@) + all.skip(n as int) == with_track(all, t@),
        decreases n,
    {
        proof {
            let part = all.take(n as int);
            assert(part.drop_last() =~= all.take(n - 1));
            assert(part.last() == all[n - 1]);
            assert(with_track(part.drop_last(), t@).push(part.last()) + all.skip(n as int)
                =~= with_track(all.take(n - 1), t@) + all.skip(n - 1));
        }
        n = n - 1;
    }
    let ghost tm = t@;
    if n > 0 && tracks[n - 1].track.track_id == t.track.track_id {
        let ghost part = all.take(n as int);
        proof {
            assert(part.last() == all[n - 1]);
        }
        tracks.set(n - 1, t);
        proof {
            assert(views(tracks@) =~= part.drop_last().push(tm) + all.skip(n as int));
        }
    } else {
        let ghost part = all.take(n as int);
        proof {
            if n > 0 {
                assert(part.last() == all[n - 1]);
                assert(with_track(part, tm) == part.push(tm));
            } else {
                assert(with_track(part, tm) == seq![tm]);
            }
        }
        tracks.insert(n, t);
        proof {
            assert(views(tracks@) =~= part.push(tm) + all.skip(n as int));
            if n == 0 {
                assert(part.push(tm) =~= seq![tm]);
            }
        }
    }
}

// ── FLV-style frames ────────────────────────────────────────────────────

/// FLV tag header of a decoder configuration.
pub open spec fn flv_config_header(t: TrackModel) -> Seq<u8> {
    match (t.handler, t.codec) {
        (TrackKind::Video, CodecId::H264) => seq![0x17, 0, 0, 0, 0],
        (TrackKind::Video, CodecId::H265) => seq![0x1c, 0, 0, 0, 0],
        (TrackKind::Audio, _) => seq![0xaf, 0],
        _ => Seq::empty(),
    }
}

/// FLV tag header of a sample.
pub open spec fn flv_sample_header(t: TrackModel, is_sync: bool) -> Seq<u8> {
    match (t.handler, t.codec) {
        (TrackKind::Video, CodecId::H264) => seq![0x17, 1, 0, 0, 0],
        (TrackKind::Video, CodecId::H265) => if is_sync {
            seq![0x1c, 1, 0, 0, 0]
        } else {
            seq![0x2c, 1, 0, 0, 0]
        },
        (TrackKind::Audio, _) => seq![0xaf, 1],
        _ => Seq::empty(),
    }
}

/// The frame that carries the decoder configuration of a track.
pub open spec fn config_frame_of(t: TrackModel) -> Option<FrameModel> {
    let data = flv_config_header(t) + t.config;
    if t.config.len() == 0 {
        None
    } else {
        match t.handler {
            TrackKind::Video => Some(
                FrameModel {
                    config_frame: true,
                    payload_format: PayloadFormat::Flv,
                    ..video_frame(t.track_id, t.codec, 0, 0, 0, data, true)
                },
            ),
            TrackKind::Audio => Some(
                FrameModel {
                    config_frame: true,
                    payload_format: PayloadFormat::Flv,
                    ..audio_frame(t.track_id, t.codec, 0, 0, 0, data)
                },
            ),
            TrackKind::Other => None,
        }
    }
}

/// The frame that carries a sample of a track.
pub open spec fn data_frame_of(t: TrackModel, s: SampleModel) -> Option<FrameModel> {
    let data = flv_sample_header(t, s.is_sync) + s.data;
    match t.handler {
        TrackKind::Video => Some(
            FrameModel {
                payload_format: PayloadFormat::Flv,
                ..video_frame(
                    t.track_id,
                    t.codec,
                    s.pts_ms,
                    s.pts_ms as u64,
                    s.dts_ms as u64,
                    data,
                    s.is_sync,
                )
            },
        ),
        TrackKind::Audio => Some(
            FrameModel {
                payload_format: PayloadFormat::Flv,
                ..audio_frame(
                    t.track_id,
                    t.codec,
                    s.pts_ms,
                    s.pts_ms as u64,
                    s.dts_ms as u64,
                    data,
                )
            },
        ),
        TrackKind::Other => None,
    }
}

/// Adds the item of an option to a sequence.
pub open spec fn with_some<T>(s: Seq<T>, item: Option<T>) -> Seq<T> {
    match item {
        Some(x) => s.push(x),
        None => s,
    }
}

/// The decoder configurations of the first `n` tracks.
pub open spec fn config_frames(tracks: Seq<ParsedModel>, n: int) -> Seq<FrameModel>
    decreases n,
{
    if n <= 0 {
        Seq::empty()
    } else {
        with_some(config_frames(tracks, n - 1), config_frame_of(tracks[n - 1].track))
    }
}

/// The frames of the first `n` samples of a track.
pub open spec fn data_frames(t: ParsedModel, n: int) -> Seq<FrameModel>
    decreases n,
{
    if n <= 0 {
        Seq::empty()
    } else {
        with_some(data_frames(t, n - 1), data_frame_of(t.track, t.samples[n - 1]))
    }
}

/// The frames of the first `n` tracks: of each its configuration, then its
/// samples.
pub open spec fn grouped_frames(tracks: Seq<ParsedModel>, n: int) -> Seq<FrameModel>
    decreases n,
{
    if n <= 0 {
        Seq::empty()
    } else {
        with_some(grouped_frames(tracks, n - 1), config_frame_of(tracks[n - 1].track))
            + data_frames(tracks[n - 1], tracks[n - 1].samples.len() as int)
    }
}

/// Every sample of the first `n` tracks, as track index and sample index.
pub open spec fn sample_indices(tracks: Seq<ParsedModel>, n: int) -> Seq<(int, int)>
    decreases n,
{
    if n <= 0 {
        Seq::empty()
    } else {
        sample_indices(tracks, n - 1) + Seq::new(
            tracks[n - 1].samples.len(),
            |k: int| (n - 1, k),
        )
    }
}

/// The presentation times of the samples at the given places.
pub open spec fn pts_keys(tracks: Seq<ParsedModel>, at: Seq<(int, int)>) -> Seq<(u64, u32)> {
    Seq::new(at.len(), |i: int| (tracks[at[i].0].samples[at[i].1].pts_ms as u64, 0u32))
}

/// The frames of the first `n` samples in the order `p`.
pub open spec fn ordered_frames(
    tracks: Seq<ParsedModel>,
    at: Seq<(int, int)>,
    p: Seq<int>,
    n: int,
) -> Seq<FrameModel>
    decreases n,
{
    if n <= 0 {
        Seq::empty()
    } else {
        let (t, k) = at[p[n - 1]];
        with_some(
            ordered_frames(tracks, at, p, n - 1),
            data_frame_of(tracks[t].track, tracks[t].samples[k]),
        )
    }
}

/// Whether `p` lists the samples in ascending order of their presentation
/// times, those of one time in order of their tracks.
pub open spec fn playback_order(tracks: Seq<ParsedModel>, p: Seq<int>) -> bool {
    is_stable_order(pts_keys(tracks, sample_indices(tracks, tracks.len() as int)), p)
}

/// The decoder configurations of all tracks, then the samples in the order
/// `p`.
pub open spec fn interleaved_frames(tracks: Seq<ParsedModel>, p: Seq<int>) -> Seq<FrameModel> {
    let n = tracks.len() as int;
    config_frames(tracks, n) + ordered_frames(tracks, sample_indices(tracks, n), p, p.len() as int)
}

/// The FLV payload of a decoder configuration.
pub fn build_flv_config(track: &DemuxedTrack, config: &[u8]) -> (r: Vec<u8>)
    ensures
        r@ == flv_config_header(track@) + config@,
{
    let mut v: Vec<u8> = match track.handler {
        TrackKind::Video => match track.codec {
            CodecId::H264 => vec![0x17, 0, 0, 0, 0],
            CodecId::H265 => vec![0x1c, 0, 0, 0, 0],
            _ => Vec::new(),
        },
        TrackKind::Audio => vec![0xaf, 0],
        TrackKind::Other => Vec::new(),
    };
    assert(v@ =~= flv_config_header(track@));
    put_bytes(&mut v, config);
    v
}

/// The FLV payload of a sample.
pub fn build_flv_sample(track: &DemuxedTrack, sample: &[u8], is_sync: bool) -> (r: Vec<u8>)
    ensures
        r@ == flv_sample_header(track@, is_sync) + sample@,
{
    let mut v: Vec<u8> = match track.handler {
        TrackKind::Video => match track.codec {
            CodecId::H264 => vec![0x17, 1, 0, 0, 0],
            CodecId::H265 => if is_sync {
                vec![0x1c, 1, 0, 0, 0]
            } else {
                vec![0x2c, 1, 0, 0, 0]
            },
            _ => Vec::new(),
        },
        TrackKind::Audio => vec![0xaf, 1],
        TrackKind::Other => Vec::new(),
    };
    assert(v@ =~= flv_sample_header(track@, is_sync));
    put_bytes(&mut v, sample);
    v
}

/// Builds the frame that carries the decoder configuration of a track.
fn make_config_frame(track: &DemuxedTrack) -> (r: Option<MediaFrame>)
    ensures
        match (r, config_frame_of(track@)) {
            (Some(a), Some(b)) => a@ == b,
            (None, None) => true,
            _ => false,
        },
{
    if track.config.len() == 0 {
        return None;
    }
    let data = build_flv_config(track, track.config.as_slice());
    let frame = match track.handler {
        TrackKind::Video => MediaFrame::new_video(
            track.track_id,
            track.codec,
            0,
            0,
            0,
            data,
            true,
        ),
        TrackKind::Audio => MediaFrame::new_audio(track.track_id, track.codec, 0, 0, 0, data),
        TrackKind::Other => {
            return None;
        },
    };
    let mut frame = frame.with_payload_format(PayloadFormat::Flv);
    frame.config_frame = true;
    Some(frame)
}

/// Builds the frame that carries a sample of a track.
fn make_data_frame(track: &DemuxedTrack, s: &DemuxedSample) -> (r: Option<MediaFrame>)
    ensures
        match (r, data_frame_of(track@, s@)) {
            (Some(a), Some(b)) => a@ == b,
            (None, None) => true,
            _ => false,
        },
{
    let data = build_flv_sample(track, s.data.as_slice(), s.is_sync);
    let frame = match track.handler {
        TrackKind::Video => MediaFrame::new_video(
            track.track_id,
            track.codec,
            s.pts_ms,
            s.pts_ms as u64,
            s.dts_ms as u64,
            data,
            s.is_sync,
        ),
        TrackKind::Audio => MediaFrame::new_audio(
            track.track_id,
            track.codec,
            s.pts_ms,
            s.pts_ms as u64,
            s.dts_ms as u64,
            data,
        ),
        TrackKind::Other => {
            return None;
        },
    };
    Some(frame.with_payload_format(PayloadFormat::Flv))
}

/// Display parameters of a track: width, height, frames per second and sample
/// rate, from what the codec parsers read out of its configuration.
pub open spec fn track_params(
    handler: TrackKind,
    codec: CodecId,
    dimensions: Option<(u32, u32)>,
    sample_rate: Option<u32>,
) -> (u32, u32, u32, u32) {
    match (handler, dimensions, sample_rate) {
        (TrackKind::Video, Some((w, h)), _) => if codec == CodecId::H264 || codec == CodecId::H265 {
            (w, h, 30, 0)
        } else {
            (0, 0, 0, 0)
        },
        (TrackKind::Audio, _, Some(rate)) => if codec == CodecId::AAC {
            (0, 0, 0, rate)
        } else {
            (0, 0, 0, 0)
        },
        _ => (0, 0, 0, 0),
    }
}

/// Display parameters of a track. `dimensions` is what the H.264 parser read
/// from the parameter set, `sample_rate` what the AAC parser read from the
/// audio specific config.
pub fn derive_track_params(
    handler: TrackKind,
    codec: CodecId,
    dimensions: Option<(u32, u32)>,
    sample_rate: Option<u32>,
) -> (r: (u32, u32, u32, u32))
    ensures
        r == track_params(handler, codec, dimensions, sample_rate),
{
    match handler {
        TrackKind::Video => {
            if codec == CodecId::H264 || codec == CodecId::H265 {
                if let Some((w, h)) = dimensions {
                    return (w, h, 30, 0);
                }
            }
            (0, 0, 0, 0)
        },
        TrackKind::Audio => {
            if codec == CodecId::AAC {
                if let Some(rate) = sample_rate {
                    return (0, 0, 0, rate);
                }
            }
            (0, 0, 0, 0)
        },
        TrackKind::Other => (0, 0, 0, 0),
    }
}

/// The tracks with the display parameters of one of them set.
pub open spec fn with_params(
    tracks: Seq<ParsedModel>,
    track_id: u32,
    dimensions: Option<(u32, u32)>,
    sample_rate: Option<u32>,
) -> Seq<ParsedModel> {
    Seq::new(
        tracks.len(),
        |i: int|
            {
                let t = tracks[i].track;
                let p = track_params(t.handler, t.codec, dimensions, sample_rate);
                if t.track_id == track_id {
                    ParsedModel {
                        track: TrackModel {
                            width: p.0,
                            height: p.1,
                            fps: p.2,
                            sample_rate: p.3,
                            ..t
                        },
                        ..tracks[i]
                    }
                } else {
                    tracks[i]
                }
            },
    )
}

/// A parsed MP4 file: its playable tracks in ascending order of their numbers.
pub struct Mp4Demuxer {
    tracks: Vec<ParsedTrack>,
}

impl View for Mp4Demuxer {
    type V = Seq<ParsedModel>;

    closed spec fn view(&self) -> Seq<ParsedModel> {
        views(self.tracks@)
    }
}

impl Mp4Demuxer {
    /// Parses an MP4 from an in-memory buffer. The display parameters of the
    /// tracks are left 0: see `set_track_params`.
    pub fn from_bytes(data: &[u8]) -> (r: Result<Self, Mp4Error>)
        ensures
            match (r, file_tracks(data@)) {
                (Ok(a), Ok(b)) => a@ == b && ascending(b) && b.len() > 0,
                (Err(a), Err(b)) => a == b,
                _ => false,
            },
    {
        let top = match BoxCursor::new(data).walk_top_boxes_vec() {
            Ok(b) => b,
            Err(e) => {
                return Err(e);
            },
        };
        let moov = match last_body(&top, MOOV) {
            Some(b) => b,
            None => {
                return Err(Mp4Error::MissingBox(MOOV));
            },
        };
        if last_body(&top, MDAT).is_none() {
            return Err(Mp4Error::MissingBox(MDAT));
        }
        let boxes = match BoxCursor::new(moov).walk_top_boxes_vec() {
            Ok(b) => b,
            Err(e) => {
                return Err(e);
            },
        };
        if last_body(&boxes, MVHD).is_none() {
            return Err(Mp4Error::MissingBox(MVHD));
        }
        let mut tracks: Vec<ParsedTrack> = Vec::new();
        let mut i: usize = 0;
        let ghost models = views(boxes@);
        proof {
            assert(models.take(0) =~= Seq::empty());
            assert(views(tracks@) =~= Seq::empty());
        }
        while i < boxes.len()
            invariant
                i <= boxes@.len(),
                models == views(boxes@),
                views(tracks@) == movie_tracks(models.take(i as int), data@),
            decreases boxes@.len() - i,
        {
            proof {
                assert(models.take(i + 1).drop_last() =~= models.take(i as int));
                assert(models.take(i + 1).last() == boxes@[i as int]@);
            }
            if boxes[i].kind == TRAK {
                if let Ok(Some(t)) = parse_trak(boxes[i].body, data) {
                    insert_track(&mut tracks, t);
                }
            }
            i = i + 1;
        }
        proof {
            assert(models.take(i as int) =~= models);
            lemma_movie_tracks_ascending(models, data@);
        }
        if tracks.len() == 0 {
            return Err(Mp4Error::NoTracks);
        }
        Ok(Mp4Demuxer { tracks })
    }

    /// Sets the display parameters of a track from what the codec parsers read
    /// out of its configuration.
    pub fn set_track_params(
        &mut self,
        track_id: u32,
        dimensions: Option<(u32, u32)>,
        sample_rate: Option<u32>,
    )
        ensures
            final(self)@ == with_params(old(self)@, track_id, dimensions, sample_rate),
    {
        let ghost all = self@;
        let mut i: usize = 0;
        while i < self.tracks.len()
            invariant
                i <= self.tracks@.len() == all.len(),
                forall|j: int|
                    0 <= j < i ==> (#[trigger] self.tracks@[j])@ == with_params(
                        all,
                        track_id,
                        dimensions,
                        sample_rate,
                    )[j],
                forall|j: int| i <= j < all.len() ==> (#[trigger] self.tracks@[j])@ == all[j],
            decreases self.tracks@.len() - i,
        {
            if self.tracks[i].track.track_id == track_id {
                let old_track = self.tracks[i].track.duplicate();
                let (width, height, fps, rate) = derive_track_params(
                    old_track.handler,
                    old_track.codec,
                    dimensions,
                    sample_rate,
                );
                self.tracks[i].track = DemuxedTrack {
                    width,
                    height,
                    fps,
                    sample_rate: rate,
                    ..old_track
                };
            }
            i = i + 1;
        }
        proof {
            assert(self@ =~= with_params(all, track_id, dimensions, sample_rate));
        }
    }

    /// Metadata of all tracks, in ascending order of their numbers.
    pub fn tracks(&self) -> (r: Vec<DemuxedTrack>)
        ensures
            views(r@) == Seq::new(self@.len(), |i: int| self@[i].track),
    {
        let mut out: Vec<DemuxedTrack> = Vec::new();
        let mut i: usize = 0;
        while i < self.tracks.len()
            invariant
                i <= self.tracks@.len(),
                views(out@) =~= Seq::new(i as nat, |j: int| self@[j].track),
            decreases self.tracks@.len() - i,
        {
            let ghost before = views(out@);
            let track = self.tracks[i].track.duplicate();
            out.push(track);
            proof {
                assert(self@[i as int] == self.tracks@[i as int]@);
                assert(track@ == self@[i as int].track);
                assert(views(out@) =~= before.push(track@));
            }
            i = i + 1;
        }
        out
    }

    /// The samples of the track with the given number, in decode order.
    pub fn samples_for(&self, track_id: u32) -> (r: Option<&[DemuxedSample]>)
        ensures
            match r {
                Some(s) => exists|i: int|
                    0 <= i < self@.len() && (#[trigger] self@[i]).track.track_id == track_id && views(
                        s@,
                    ) == self@[i].samples,
                None => forall|i: int|
                    0 <= i < self@.len() ==> (#[trigger] self@[i]).track.track_id != track_id,
            },
    {
        let mut i: usize = 0;
        while i < self.tracks.len()
            invariant
                i <= self.tracks@.len(),
                forall|j: int|
                    0 <= j < i ==> (#[trigger] self@[j]).track.track_id != track_id,
            decreases self.tracks@.len() - i,
        {
            assert(self@[i as int] == self.tracks@[i as int]@);
            if self.tracks[i].track.track_id == track_id {
                return Some(self.tracks[i].samples.as_slice());
            }
            i = i + 1;
        }
        None
    }

    /// All tracks with their samples, in ascending order of their numbers.
    pub fn all_samples(&self) -> (r: &Vec<ParsedTrack>)
        ensures
            views(r@) == self@,
    {
        &self.tracks
    }

    /// Every sample as a frame in FLV-style framing, track by track: of each
    /// track its configuration first, then its samples.
    pub fn to_media_frames(&self) -> (r: Vec<MediaFrame>)
        ensures
            views(r@) == grouped_frames(self@, self@.len() as int),
    {
        let mut frames: Vec<MediaFrame> = Vec::new();
        let mut i: usize = 0;
        assert(views(frames@) =~= Seq::empty());
        while i < self.tracks.len()
            invariant
                i <= self.tracks@.len(),
                views(frames@) == grouped_frames(self@, i as int),
            decreases self.tracks@.len() - i,
        {
            let t = &self.tracks[i];
            assert(self@[i as int] == t@);
            let ghost before = views(frames@);
            if let Some(frame) = make_config_frame(&t.track) {
                frames.push(frame);
                assert(views(frames@) =~= before.push(frame@));
            }
            let ghost head = views(frames@);
            assert(head == with_some(before, config_frame_of(t.track@)));
            let mut k: usize = 0;
            assert(head + data_frames(t@, 0) =~= head);
            while k < t.samples.len()
                invariant
                    k <= t.samples@.len(),
                    views(frames@) == head + data_frames(t@, k as int),
                decreases t.samples@.len() - k,
            {
                let ghost now = views(frames@);
                assert(t@.samples[k as int] == t.samples@[k as int]@);
                if let Some(frame) = make_data_frame(&t.track, &t.samples[k]) {
                    frames.push(frame);
                    assert(views(frames@) =~= now.push(frame@));
                    assert(now.push(frame@) =~= head + data_frames(t@, k as int).push(frame@));
                }
                k = k + 1;
            }
            i = i + 1;
        }
        frames
    }

    /// Every sample as a frame in FLV-style framing: the configurations of all
    /// tracks first, then the samples in ascending order of their presentation
    /// times, those of one time in order of their tracks.
    pub fn interleaved_media_frames(&self) -> (r: Vec<MediaFrame>)
        ensures
            exists|p: Seq<int>|
                #[trigger] playback_order(self@, p) && views(r@) == interleaved_frames(self@, p),
    {
        let mut frames: Vec<MediaFrame> = Vec::new();
        let mut at: Vec<(usize, usize)> = Vec::new();
        let mut keys: Vec<(u64, u32)> = Vec::new();
        let mut i: usize = 0;
        assert(views(frames@) =~= Seq::empty());
        while i < self.tracks.len()
            invariant
                i <= self.tracks@.len(),
                views(frames@) == config_frames(self@, i as int),
                at@.map_values(|a: (usize, usize)| (a.0 as int, a.1 as int)) == sample_indices(
                    self@,
                    i as int,
                ),
                forall|j: int|
                    0 <= j < at@.len() ==> (#[trigger] at@[j]).0 < self.tracks@.len() && at@[j].1
                        < self.tracks@[at@[j].0 as int].samples@.len(),
                keys@ == pts_keys(self@, sample_indices(self@, i as int)),
            decreases self.tracks@.len() - i,
        {
            let t = &self.tracks[i];
            assert(self@[i as int] == t@);
            let ghost before = views(frames@);
            if let Some(frame) = make_config_frame(&t.track) {
                frames.push(frame);
                assert(views(frames@) =~= before.push(frame@));
            }
            let ghost old_at = sample_indices(self@, i as int);
            let mut k: usize = 0;
            assert(old_at + Seq::new(0, |k: int| (i as int, k)) =~= old_at);
            while k < t.samples.len()
                invariant
                    i < self.tracks@.len(),
                    *t == self.tracks@[i as int],
                    k <= t.samples@.len(),
                    at@.map_values(|a: (usize, usize)| (a.0 as int, a.1 as int)) == old_at
                        + Seq::new(k as nat, |k: int| (i as int, k)),
                    forall|j: int|
                        0 <= j < at@.len() ==> (#[trigger] at@[j]).0 < self.tracks@.len()
                            && at@[j].1 < self.tracks@[at@[j].0 as int].samples@.len(),
                    keys@ == pts_keys(
                        self@,
                        old_at + Seq::new(k as nat, |k: int| (i as int, k)),
                    ),
                decreases t.samples@.len() - k,
            {
                at.push((i, k));
                keys.push((t.samples[k].pts_ms as u64, 0));
                proof {
                    let a = old_at + Seq::new(k as nat, |k: int| (i as int, k));
                    let b = old_at + Seq::new((k + 1) as nat, |k: int| (i as int, k));
                    assert(b =~= a.push((i as int, k as int)));
                    assert(at@.map_values(|a: (usize, usize)| (a.0 as int, a.1 as int)) =~= b);
                    assert(self@[i as int].samples[k as int] == t.samples@[k as int]@);
                    assert(keys@ =~= pts_keys(self@, b));
                }
                k = k + 1;
            }
            i = i + 1;
        }
        let ghost places = sample_indices(self@, self@.len() as int);
        let ghost configs = views(frames@);
        let order = stable_order(&keys);
        let ghost p = order@.map_values(|i: usize| i as int);
        let mut n: usize = 0;
        assert(configs + ordered_frames(self@, places, p, 0) =~= configs);
        while n < order.len()
            invariant
                n <= order@.len(),
                p == order@.map_values(|i: usize| i as int),
                places == at@.map_values(|a: (usize, usize)| (a.0 as int, a.1 as int)),
                is_stable_order(pts_keys(self@, places), p),
                forall|j: int|
                    0 <= j < at@.len() ==> (#[trigger] at@[j]).0 < self.tracks@.len() && at@[j].1
                        < self.tracks@[at@[j].0 as int].samples@.len(),
                views(frames@) == configs + ordered_frames(self@, places, p, n as int),
            decreases order@.len() - n,
        {
            assert(p[n as int] == order@[n as int]);
            let (t, k) = at[order[n]];
            assert(places[p[n as int]] == (t as int, k as int));
            assert(self@[t as int].samples[k as int] == self.tracks@[t as int].samples@[k as int]@);
            let ghost now = views(frames@);
            if let Some(frame) = make_data_frame(&self.tracks[t].track, &self.tracks[t].samples[k]) {
                frames.push(frame);
                assert(views(frames@) =~= now.push(frame@));
                assert(now.push(frame@) =~= configs + ordered_frames(
                    self@,
                    places,
                    p,
                    n as int,
                ).push(frame@));
            }
            n = n + 1;
        }
        proof {
            assert(playback_order(self@, p));
            assert(views(frames@) == interleaved_frames(self@, p));
        }
        frames
    }
}

} // verus!
