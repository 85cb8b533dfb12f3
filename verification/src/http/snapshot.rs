//! Pictures of live streams, and recordings played as FLV.
use vstd::prelude::*;
use vstd::string::*;
use crate::bytes::{
    be32, lemma_be32, lemma_u32_in, put_bytes, read_u32, slice, to_vec, u32_at, views,
};
use crate::http::reply::{Reply, ReplyModel, refused};
use crate::media::{CodecId, FrameModel, FrameType, MediaFrame};
use crate::mp4::demuxer::{DemuxedTrack, TrackModel};
use crate::mp4::entries::TrackKind;
use crate::text::{copy_text, decimal, push_decimal};

verus! {

broadcast use crate::bytes::group_be_len;

// ── pictures ────────────────────────────────────────────────────────────

/// The start code before an H.264 unit.
pub open spec fn start_code() -> Seq<u8> {
    seq![0, 0, 0, 1]
}

/// The units with a length before each, from byte `i` on, with start codes in
/// place of the lengths; a unit that is cut off ends them.
pub open spec fn units_from(data: Seq<u8>, i: int) -> Seq<u8>
    decreases data.len() - i,
{
    if i < 0 || i + 4 > data.len() || u32_at(data, i) < 0 || i + 4 + u32_at(data, i) > data.len() {
        Seq::empty()
    } else {
        let end = i + 4 + u32_at(data, i);
        start_code() + data.subrange(i + 4, end) + units_from(data, end)
    }
}

/// H.264 units with start codes. What begins with one is unchanged.
pub open spec fn annexb_of(data: Seq<u8>) -> Seq<u8> {
    if data.len() >= 4 && data.take(4) == start_code() {
        data
    } else {
        units_from(data, 0)
    }
}

/// H.264 units with start codes in place of lengths.
pub fn h264_to_annexb(data: &[u8]) -> (r: Vec<u8>)
    ensures
        r@ == annexb_of(data@),
{
    let len: usize = data.len();
    if len >= 4 && data[0] == 0 && data[1] == 0 && data[2] == 0 && data[3] == 1 {
        assert(data@.take(4) =~= start_code());
        return to_vec(data);
    }
    proof {
        if len >= 4 && data@.take(4) == start_code() {
            assert(data@.take(4)[0] == data@[0] && data@.take(4)[1] == data@[1] && data@.take(4)[2]
                == data@[2] && data@.take(4)[3] == data@[3]);
        }
    }
    let mut out: Vec<u8> = Vec::new();
    let mut i: usize = 0;
    assert(out@ + units_from(data@, 0) =~= units_from(data@, 0));
    while i <= len && len - i >= 4
        invariant
            len == data@.len(),
            i <= len,
            annexb_of(data@) == units_from(data@, 0),
            out@ + units_from(data@, i as int) == units_from(data@, 0),
        decreases len - i,
    {
        let n: usize = read_u32(data, i) as usize;
        if n > len - i - 4 {
            assert(units_from(data@, i as int) =~= Seq::empty());
            assert(out@ + Seq::<u8>::empty() =~= out@);
            return out;
        }
        let ghost before = out@;
        let ghost rest = units_from(data@, i + 4 + n);
        out.push(0);
        out.push(0);
        out.push(0);
        out.push(1);
        assert(out@ =~= before + start_code());
        let unit = slice(data, i + 4, i + 4 + n);
        put_bytes(&mut out, unit);
        assert(out@ + rest =~= before + (start_code() + unit@ + rest));
        i = i + 4 + n;
    }
    assert(units_from(data@, i as int) =~= Seq::empty());
    assert(out@ + Seq::<u8>::empty() =~= out@);
    out
}

/// Converting units with start codes again changes nothing.
pub proof fn law_annexb_is_stable(data: Seq<u8>)
    requires
        data.len() >= 4,
        data.take(4) == start_code(),
    ensures
        annexb_of(data) == data,
{
}

/// Units with a length before each.
pub open spec fn with_lengths(units: Seq<Seq<u8>>) -> Seq<u8>
    decreases units.len(),
{
    if units.len() == 0 {
        Seq::empty()
    } else {
        be32(units[0].len() as int) + units[0] + with_lengths(units.skip(1))
    }
}

/// Units with a start code before each.
pub open spec fn with_start_codes(units: Seq<Seq<u8>>) -> Seq<u8>
    decreases units.len(),
{
    if units.len() == 0 {
        Seq::empty()
    } else {
        start_code() + units[0] + with_start_codes(units.skip(1))
    }
}

proof fn lemma_units_from(before: Seq<u8>, units: Seq<Seq<u8>>)
    requires
        forall|i: int| 0 <= i < units.len() ==> (#[trigger] units[i]).len() <= u32::MAX,
    ensures
        units_from(before + with_lengths(units), before.len() as int) == with_start_codes(units),
    decreases units.len(),
{
    let data = before + with_lengths(units);
    let i = before.len() as int;
    if units.len() == 0 {
        assert(data =~= before);
    } else {
        let unit = units[0];
        let rest = units.skip(1);
        let head = be32(unit.len() as int);
        let next = before + head + unit;
        assert(data =~= next + with_lengths(rest));
        lemma_u32_in(before, unit.len() as int, unit + with_lengths(rest));
        assert(data =~= before + head + (unit + with_lengths(rest)));
        assert forall|j: int| 0 <= j < rest.len() implies (#[trigger] rest[j]).len() <= u32::MAX by {
            assert(units[j + 1].len() <= u32::MAX);
        }
        lemma_units_from(next, rest);
        assert(data.subrange(i + 4, i + 4 + unit.len()) =~= unit);
    }
}

/// Every unit is kept, with a start code in place of its length. A first unit
/// of one byte is left out: its length reads as a start code.
pub proof fn law_units_are_kept(units: Seq<Seq<u8>>)
    requires
        forall|i: int| 0 <= i < units.len() ==> (#[trigger] units[i]).len() <= u32::MAX,
        units.len() > 0 ==> units[0].len() != 1,
    ensures
        annexb_of(with_lengths(units)) == with_start_codes(units),
{
    let data = with_lengths(units);
    assert(Seq::<u8>::empty() + data =~= data);
    lemma_units_from(Seq::empty(), units);
    if data.len() >= 4 && data.take(4) == start_code() {
        let head = be32(units[0].len() as int);
        assert(data.take(4) =~= head);
        lemma_be32(units[0].len() as int);
        assert(u32_at(start_code(), 0) == 1);
    }
}

/// Whether a frame of the given kind serves for a picture.
pub open spec fn serves_picture(f: FrameModel, config: bool) -> bool {
    f.codec == CodecId::H264 && f.frame_type == FrameType::Video && (if config {
        f.config_frame
    } else {
        f.key_frame
    })
}

/// The first frame from `i` on that serves for a picture.
pub open spec fn first_serving(frames: Seq<FrameModel>, config: bool, i: int) -> Option<FrameModel>
    decreases frames.len() - i,
{
    if i < 0 || i >= frames.len() {
        None
    } else if serves_picture(frames[i], config) {
        Some(frames[i])
    } else {
        first_serving(frames, config, i + 1)
    }
}

/// The units of one picture: the first configuration and the first key frame.
pub open spec fn picture_units(configs: Seq<FrameModel>, gop: Seq<FrameModel>) -> Option<Seq<u8>> {
    match (first_serving(configs, true, 0), first_serving(gop, false, 0)) {
        (Some(c), Some(k)) => Some(annexb_of(c.data) + annexb_of(k.data)),
        _ => None,
    }
}

fn find_serving<'a>(frames: &'a Vec<MediaFrame>, config: bool) -> (r: Option<&'a MediaFrame>)
    ensures
        match (r, first_serving(views(frames@), config, 0)) {
            (Some(a), Some(b)) => a@ == b,
            (None, None) => true,
            _ => false,
        },
{
    let ghost models = views(frames@);
    let mut i: usize = 0;
    while i < frames.len()
        invariant
            i <= frames@.len(),
            models == views(frames@),
            first_serving(models, config, i as int) == first_serving(models, config, 0),
        decreases frames@.len() - i,
    {
        let f = &frames[i];
        assert(models[i as int] == f@);
        if f.codec == CodecId::H264 && f.frame_type == FrameType::Video && (if config {
            f.config_frame
        } else {
            f.key_frame
        }) {
            return Some(f);
        }
        i = i + 1;
    }
    None
}

/// The units of one picture of a stream; `None` before there is a
/// configuration and a key frame.
pub fn snapshot_units(configs: &Vec<MediaFrame>, gop: &Vec<MediaFrame>) -> (r: Option<Vec<u8>>)
    ensures
        match (r, picture_units(views(configs@), views(gop@))) {
            (Some(a), Some(b)) => a@ == b,
            (None, None) => true,
            _ => false,
        },
{
    match (find_serving(configs, true), find_serving(gop, false)) {
        (Some(c), Some(k)) => {
            let mut out = h264_to_annexb(c.data.as_slice());
            let key = h264_to_annexb(k.data.as_slice());
            put_bytes(&mut out, key.as_slice());
            Some(out)
        },
        _ => None,
    }
}

/// The name of the file that holds the units of a picture.
pub fn snapshot_file(vhost: &str, app: &str, stream: &str, process: u32) -> (r: String)
    ensures
        r@ == "zlm_snap_"@ + vhost@ + "_"@ + app@ + "_"@ + stream@ + "_"@ + decimal(process as int)
            + ".h264"@,
{
    let mut out = copy_text("zlm_snap_");
    out.append(vhost);
    out.append("_");
    out.append(app);
    out.append("_");
    out.append(stream);
    out.append("_");
    push_decimal(&mut out, process as u64);
    out.append(".h264");
    out
}

/// How far a request for a picture came.
#[derive(Debug, Clone, Copy, PartialEq, Eq, Structural)]
pub enum SnapProgress {
    /// There is no such stream.
    NoStream,
    /// The stream has no key frame yet.
    NoKeyFrame,
    /// The converter did not run.
    NotRun,
    /// The converter ran.
    Ran { success: bool, size: usize },
}

/// Why no picture is sent; nothing when one is.
pub open spec fn snap_failure(p: SnapProgress) -> Option<ReplyModel> {
    match p {
        SnapProgress::NoStream => Some(
            ReplyModel::Refused { code: -404, msg: "stream not found"@ },
        ),
        SnapProgress::NoKeyFrame => Some(
            ReplyModel::Refused { code: -404, msg: "no H.264 key frame available yet"@ },
        ),
        SnapProgress::NotRun => Some(
            ReplyModel::Refused { code: -500, msg: "ffmpeg not available"@ },
        ),
        SnapProgress::Ran { success, size } => if success && size > 0 {
            None
        } else {
            Some(ReplyModel::Refused { code: -500, msg: "ffmpeg failed"@ })
        },
    }
}

/// Why no picture is sent; `None` when one is.
pub fn refuse_snapshot(p: SnapProgress) -> (r: Option<Reply>)
    ensures
        match (r, snap_failure(p)) {
            (Some(a), Some(b)) => a@ == b,
            (None, None) => true,
            _ => false,
        },
{
    match p {
        SnapProgress::NoStream => Some(refused(-404, "stream not found")),
        SnapProgress::NoKeyFrame => Some(refused(-404, "no H.264 key frame available yet")),
        SnapProgress::NotRun => Some(refused(-500, "ffmpeg not available")),
        SnapProgress::Ran { success, size } => if success && size > 0 {
            None
        } else {
            Some(refused(-500, "ffmpeg failed"))
        },
    }
}

// ── recordings as FLV ───────────────────────────────────────────────────

/// The metadata of an FLV stream.
#[derive(Debug, Clone, Copy, PartialEq, Eq, Structural)]
pub struct FlvMetadata {
    pub width: u32,
    pub height: u32,
    pub fps: u32,
    pub audio_sample_rate: u32,
    pub video_codec: CodecId,
}

/// The first track of a kind from `i` on.
pub open spec fn first_track(tracks: Seq<TrackModel>, kind: TrackKind, i: int) -> Option<TrackModel>
    decreases tracks.len() - i,
{
    if i < 0 || i >= tracks.len() {
        None
    } else if tracks[i].handler == kind {
        Some(tracks[i])
    } else {
        first_track(tracks, kind, i + 1)
    }
}

/// The metadata of a recording; without video it is not played.
pub open spec fn metadata_of(tracks: Seq<TrackModel>) -> Option<FlvMetadata> {
    match first_track(tracks, TrackKind::Video, 0) {
        Some(v) => Some(
            FlvMetadata {
                width: v.width,
                height: v.height,
                fps: v.fps,
                audio_sample_rate: match first_track(tracks, TrackKind::Audio, 0) {
                    Some(a) => a.sample_rate,
                    None => 0,
                },
                video_codec: v.codec,
            },
        ),
        None => None,
    }
}

fn find_track<'a>(tracks: &'a [DemuxedTrack], kind: TrackKind) -> (r: Option<&'a DemuxedTrack>)
    ensures
        match (r, first_track(views(tracks@), kind, 0)) {
            (Some(a), Some(b)) => a@ == b,
            (None, None) => true,
            _ => false,
        },
{
    let ghost models = views(tracks@);
    let mut i: usize = 0;
    while i < tracks.len()
        invariant
            i <= tracks@.len(),
            models == views(tracks@),
            first_track(models, kind, i as int) == first_track(models, kind, 0),
        decreases tracks@.len() - i,
    {
        let t = &tracks[i];
        assert(models[i as int] == t@);
        if t.handler == kind {
            return Some(t);
        }
        i = i + 1;
    }
    None
}

/// The metadata of a recording; `None` when it has no video.
pub fn vod_metadata(tracks: &[DemuxedTrack]) -> (r: Option<FlvMetadata>)
    ensures
        r == metadata_of(views(tracks@)),
{
    let audio_sample_rate: u32 = match find_track(tracks, TrackKind::Audio) {
        Some(a) => a.sample_rate,
        None => 0,
    };
    match find_track(tracks, TrackKind::Video) {
        Some(v) => Some(
            FlvMetadata {
                width: v.width,
                height: v.height,
                fps: v.fps,
                audio_sample_rate,
                video_codec: v.codec,
            },
        ),
        None => None,
    }
}

/// What is done with the next frame of a recording.
#[derive(Debug, Clone, Copy, PartialEq, Eq, Structural)]
pub enum VodAction {
    /// It is sent at once.
    SendNow,
    /// It is sent at its time.
    SendInTime,
    /// The asked duration is over.
    Stop,
}

/// What is done with a frame of a recording: a configuration is sent at once;
/// another one ends playback when it is later than the asked duration.
pub open spec fn vod_action_for(f: FrameModel, limit: Option<u64>) -> VodAction {
    if f.config_frame {
        VodAction::SendNow
    } else {
        match limit {
            Some(l) => if f.timestamp > l {
                VodAction::Stop
            } else {
                VodAction::SendInTime
            },
            None => VodAction::SendInTime,
        }
    }
}

/// What is done with the next frame of a recording.
pub fn vod_action(frame: &MediaFrame, limit: Option<u64>) -> (r: VodAction)
    ensures
        r == vod_action_for(frame@, limit),
{
    if frame.config_frame {
        VodAction::SendNow
    } else {
        match limit {
            Some(l) => if frame.timestamp as u64 > l {
                VodAction::Stop
            } else {
                VodAction::SendInTime
            },
            None => VodAction::SendInTime,
        }
    }
}

} // verus!
