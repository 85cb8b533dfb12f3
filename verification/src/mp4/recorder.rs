//! Recorders: what is kept of a live stream, and when it is written.
use vstd::prelude::*;
use vstd::string::*;
use crate::media::{FrameModel, MediaFrame};
use crate::mp4::fmp4::{
    Fmp4Model, Fmp4Muxer, after_flush, empty_fmp4, flushable, flushed_segment, fmp4_pushed,
    init_bytes, samples_wait,
};
use crate::mp4::muxer::{
    Mp4Muxer, MuxerModel, empty_muxer, file_bytes, opt_bytes, pushed, with_durations, writable,
};
use crate::mp4::vod::{join_path, joined};
use crate::text::{chars_of, copy_text, decimal, push_decimal};

verus! {

/// How many seconds of a live stream become a segment.
pub const SEGMENT_SECONDS: u64 = 4;

/// The directory of the recordings of a stream.
pub open spec fn record_dir(base: Seq<char>, app: Seq<char>, stream: Seq<char>) -> Seq<char> {
    joined(joined(base, app), stream)
}

/// The directory of the recordings of a stream.
pub fn recording_directory(base: &str, app: &str, stream: &str) -> (r: String)
    ensures
        r@ == record_dir(base@, app@, stream@),
{
    let a = chars_of(app);
    let dir = join_path(base, a.as_slice());
    let s = chars_of(stream);
    join_path(dir.as_str(), s.as_slice())
}

/// Records a stream to one MP4 file: it keeps every frame, and writes the file
/// at the end.
pub struct Mp4Recorder {
    muxer: Mp4Muxer,
    min_dts: Option<u64>,
    max_dts: Option<u64>,
}

/// The model of a recorder: its muxer, and the range of the decode times of
/// the live frames.
#[verifier::ext_equal]
pub struct RecorderModel {
    pub muxer: MuxerModel,
    pub min_dts: Option<u64>,
    pub max_dts: Option<u64>,
}

impl View for Mp4Recorder {
    type V = RecorderModel;

    closed spec fn view(&self) -> RecorderModel {
        RecorderModel { muxer: self.muxer@, min_dts: self.min_dts, max_dts: self.max_dts }
    }
}

/// A recording that is done.
#[derive(Debug)]
pub struct RecordedFile {
    pub data: Vec<u8>,
    /// Milliseconds between the first and the last live frame.
    pub time_len_ms: u64,
}

/// The recorder after a live frame.
pub open spec fn recorded(
    m: RecorderModel,
    frame: FrameModel,
    is_config: bool,
    payload: Option<Seq<u8>>,
) -> RecorderModel {
    RecorderModel {
        muxer: pushed(m.muxer, frame, is_config, payload),
        min_dts: match m.min_dts {
            Some(d) => if d <= frame.dts {
                Some(d)
            } else {
                Some(frame.dts)
            },
            None => Some(frame.dts),
        },
        max_dts: match m.max_dts {
            Some(d) => if d >= frame.dts {
                Some(d)
            } else {
                Some(frame.dts)
            },
            None => Some(frame.dts),
        },
    }
}

/// The recorder after a frame that was published before the recording started:
/// it is kept, unless it is a configuration, which was taken already.
pub open spec fn cached(
    m: RecorderModel,
    frame: FrameModel,
    is_config: bool,
    payload: Option<Seq<u8>>,
) -> RecorderModel {
    if is_config {
        m
    } else {
        RecorderModel { muxer: pushed(m.muxer, frame, false, payload), ..m }
    }
}

/// Milliseconds between the first and the last live frame.
pub open spec fn recorded_ms(m: RecorderModel) -> int {
    match (m.min_dts, m.max_dts) {
        (Some(min), Some(max)) => if max > min {
            max - min
        } else {
            0
        },
        _ => 0,
    }
}

impl Mp4Recorder {
    pub fn new() -> (r: Self)
        ensures
            r@ == (RecorderModel { muxer: empty_muxer(), min_dts: None, max_dts: None }),
    {
        Self { muxer: Mp4Muxer::new(), min_dts: None, max_dts: None }
    }

    /// Takes a decoder configuration that was published before the recording
    /// started.
    pub fn push_config(&mut self, frame: &MediaFrame, is_config: bool, payload: Option<Vec<u8>>)
        ensures
            final(self)@ == (RecorderModel {
                muxer: pushed(old(self)@.muxer, frame@, is_config, opt_bytes(payload)),
                ..old(self)@
            }),
    {
        self.muxer.push_frame(frame, is_config, payload);
    }

    /// Takes a frame of the latest group of pictures; configurations among
    /// them were taken already.
    pub fn push_cached(&mut self, frame: &MediaFrame, is_config: bool, payload: Option<Vec<u8>>)
        ensures
            final(self)@ == cached(old(self)@, frame@, is_config, opt_bytes(payload)),
            is_config ==> final(self)@ == old(self)@,
            !is_config ==> final(self)@ == (RecorderModel {
                muxer: pushed(old(self)@.muxer, frame@, false, opt_bytes(payload)),
                ..old(self)@
            }),
    {
        if !is_config {
            self.muxer.push_frame(frame, false, payload);
        }
    }

    /// Takes a frame that is published while the recording runs.
    pub fn push_live(&mut self, frame: &MediaFrame, is_config: bool, payload: Option<Vec<u8>>)
        ensures
            final(self)@ == recorded(old(self)@, frame@, is_config, opt_bytes(payload)),
    {
        self.min_dts = match self.min_dts {
            Some(d) => if d <= frame.dts {
                Some(d)
            } else {
                Some(frame.dts)
            },
            None => Some(frame.dts),
        };
        self.max_dts = match self.max_dts {
            Some(d) => if d >= frame.dts {
                Some(d)
            } else {
                Some(frame.dts)
            },
            None => Some(frame.dts),
        };
        self.muxer.push_frame(frame, is_config, payload);
    }

    /// Whether the file can be written; sets the durations of the samples.
    pub fn can_finish(&mut self) -> (r: bool)
        ensures
            final(self)@ == (RecorderModel {
                muxer: with_durations(old(self)@.muxer),
                ..old(self)@
            }),
            r == writable(old(self)@.muxer),
            r == writable(final(self)@.muxer),
    {
        self.muxer.can_finalize()
    }

    /// Ends the recording: the file, or `None` when no sample was kept.
    pub fn finish(&mut self) -> (r: Option<RecordedFile>)
        requires
            writable(old(self)@.muxer),
        ensures
            old(self)@.muxer.samples.len() == 0 ==> r is None,
            old(self)@.muxer.samples.len() > 0 ==> r is Some && r->0.data@ == file_bytes(
                with_durations(old(self)@.muxer),
            ) && r->0.time_len_ms == recorded_ms(old(self)@),
    {
        let empty: bool = self.muxer.samples().len() == 0;
        let time_len_ms: u64 = match (self.min_dts, self.max_dts) {
            (Some(min), Some(max)) => if max > min {
                max - min
            } else {
                0
            },
            _ => 0,
        };
        let data = self.muxer.finalize();
        if empty {
            None
        } else {
            Some(RecordedFile { data, time_len_ms })
        }
    }
}

/// Records a stream as fragmented MP4: an initialization segment, then media
/// segments as time passes.
pub struct Fmp4Recorder {
    muxer: Fmp4Muxer,
    seg_index: u32,
}

/// The model of a recorder: its muxer, and how many segments were written.
#[verifier::ext_equal]
pub struct Fmp4RecorderModel {
    pub muxer: Fmp4Model,
    pub seg_index: u32,
}

impl View for Fmp4Recorder {
    type V = Fmp4RecorderModel;

    closed spec fn view(&self) -> Fmp4RecorderModel {
        Fmp4RecorderModel { muxer: self.muxer@, seg_index: self.seg_index }
    }
}

/// A file that a recorder wants written.
#[derive(Debug)]
pub struct SegmentFile {
    pub name: String,
    pub data: Vec<u8>,
}

/// The recorder after a media frame; configurations are left out.
pub open spec fn fragment_taken(
    m: Fmp4RecorderModel,
    frame: FrameModel,
    is_config: bool,
    payload: Option<Seq<u8>>,
) -> Fmp4RecorderModel {
    if is_config {
        m
    } else {
        Fmp4RecorderModel { muxer: fmp4_pushed(m.muxer, frame, payload), ..m }
    }
}

/// The file of the next segment, and the recorder behind it: the segment is
/// counted once it was written.
pub open spec fn next_file(m: Fmp4RecorderModel) -> Option<
    (Seq<char>, Seq<u8>, Fmp4RecorderModel),
> {
    if samples_wait(m.muxer) {
        Some(
            (
                segment_name(m.seg_index as int),
                flushed_segment(m.muxer).data,
                Fmp4RecorderModel { muxer: after_flush(m.muxer), ..m },
            ),
        )
    } else {
        None
    }
}

/// The recorder once a segment was written.
pub open spec fn counted(m: Fmp4RecorderModel) -> Fmp4RecorderModel {
    Fmp4RecorderModel { seg_index: (m.seg_index + 1) as u32, ..m }
}

/// The name of the file of a segment.
pub open spec fn segment_name(index: int) -> Seq<char> {
    "seg-"@ + decimal(index) + ".m4s"@
}

impl Fmp4Recorder {
    pub fn new() -> (r: Self)
        ensures
            r@ == (Fmp4RecorderModel { muxer: empty_fmp4(90000), seg_index: 0 }),
    {
        Self { muxer: Fmp4Muxer::new(90000), seg_index: 0 }
    }

    /// Takes a decoder configuration that was published before the recording
    /// started.
    pub fn push_config(&mut self, frame: &MediaFrame, payload: Option<Vec<u8>>)
        ensures
            final(self)@ == (Fmp4RecorderModel {
                muxer: fmp4_pushed(old(self)@.muxer, frame@, opt_bytes(payload)),
                ..old(self)@
            }),
    {
        self.muxer.push_frame(frame, payload);
    }

    /// The file of the initialization segment.
    pub fn init_file(&self) -> (r: SegmentFile)
        ensures
            r.name@ == "init.mp4"@,
            r.data@ == init_bytes(self@.muxer),
    {
        let segment = self.muxer.init_segment();
        SegmentFile { name: copy_text("init.mp4"), data: segment.data }
    }

    /// Takes a media frame; configurations are left out.
    pub fn push(&mut self, frame: &MediaFrame, is_config: bool, payload: Option<Vec<u8>>)
        ensures
            final(self)@ == fragment_taken(old(self)@, frame@, is_config, opt_bytes(payload)),
            is_config ==> final(self)@ == old(self)@,
            !is_config ==> final(self)@ == (Fmp4RecorderModel {
                muxer: fmp4_pushed(old(self)@.muxer, frame@, opt_bytes(payload)),
                ..old(self)@
            }),
    {
        if !is_config {
            self.muxer.push_frame(frame, payload);
        }
    }

    /// Whether the next segment can be written and counted.
    pub fn can_flush(&self) -> (r: bool)
        ensures
            r == (flushable(self@.muxer) && self@.seg_index < u32::MAX),
    {
        self.seg_index < u32::MAX && self.muxer.can_flush()
    }

    /// The file of the next segment, when time has passed or the recording
    /// ends; `None` when nothing waits.
    pub fn flush(&mut self) -> (r: Option<SegmentFile>)
        requires
            flushable(old(self)@.muxer),
        ensures
            match next_file(old(self)@) {
                Some((name, data, next)) => r is Some && r->0.name@ == name && r->0.data@ == data
                    && final(self)@ == next,
                None => r is None && final(self)@ == old(self)@,
            },
            !samples_wait(old(self)@.muxer) ==> r is None && final(self)@ == old(self)@,
            samples_wait(old(self)@.muxer) ==> r is Some && r->0.name@ == segment_name(
                old(self)@.seg_index as int,
            ) && r->0.data@ == flushed_segment(old(self)@.muxer).data && final(self)@ == (
            Fmp4RecorderModel { muxer: after_flush(old(self)@.muxer), ..old(self)@ }),
    {
        match self.muxer.flush_segment() {
            Some(segment) => {
                let mut name = copy_text("seg-");
                push_decimal(&mut name, self.seg_index as u64);
                name.append(".m4s");
                Some(SegmentFile { name, data: segment.data })
            },
            None => None,
        }
    }

    /// Counts a segment that was written.
    pub fn written(&mut self)
        requires
            old(self)@.seg_index < u32::MAX,
        ensures
            final(self)@ == counted(old(self)@),
            final(self)@ == (Fmp4RecorderModel {
                seg_index: (old(self)@.seg_index + 1) as u32,
                ..old(self)@
            }),
    {
        self.seg_index = self.seg_index + 1;
    }
}

} // verus!
