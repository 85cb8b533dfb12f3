//! The latest segments of a live DASH stream.
use vstd::prelude::*;
use crate::bytes::views;
use crate::media::{FrameModel, MediaFrame};
use crate::mp4::fmp4::{
    Fmp4Model, Fmp4Muxer, Fmp4Segment, SegmentModel, after_flush, empty_fmp4, flushable,
    flushed_segment, fmp4_pushed, samples_wait,
};
use crate::mp4::muxer::opt_bytes;

verus! {

/// How many segments are kept.
pub const WINDOW: usize = 10;

/// Segments after one more: the latest ones are kept.
pub open spec fn windowed(segments: Seq<SegmentModel>, segment: SegmentModel) -> Seq<SegmentModel> {
    let all = segments.push(segment);
    if all.len() > WINDOW {
        all.skip(all.len() - WINDOW)
    } else {
        all
    }
}

/// A live DASH stream: what waits for the next segment, and the latest ones.
pub struct DashWindow {
    muxer: Fmp4Muxer,
    segments: Vec<Fmp4Segment>,
}

/// The model of a live DASH stream.
#[verifier::ext_equal]
pub struct WindowModel {
    pub muxer: Fmp4Model,
    pub segments: Seq<SegmentModel>,
}

impl View for DashWindow {
    type V = WindowModel;

    closed spec fn view(&self) -> WindowModel {
        WindowModel { muxer: self.muxer@, segments: views(self.segments@) }
    }
}

/// A stream after a frame; configurations are left out.
pub open spec fn window_taken(
    m: WindowModel,
    frame: FrameModel,
    is_config: bool,
    payload: Option<Seq<u8>>,
) -> WindowModel {
    if is_config {
        m
    } else {
        WindowModel { muxer: fmp4_pushed(m.muxer, frame, payload), ..m }
    }
}

/// A stream after its waiting samples became a segment.
pub open spec fn window_flushed(m: WindowModel) -> WindowModel {
    if samples_wait(m.muxer) {
        WindowModel {
            muxer: after_flush(m.muxer),
            segments: windowed(m.segments, flushed_segment(m.muxer)),
        }
    } else {
        m
    }
}

impl DashWindow {
    pub fn new() -> (r: Self)
        ensures
            r@ == (WindowModel { muxer: empty_fmp4(90000), segments: Seq::empty() }),
    {
        let r = Self { muxer: Fmp4Muxer::new(90000), segments: Vec::new() };
        assert(r@ =~= WindowModel { muxer: empty_fmp4(90000), segments: Seq::empty() });
        r
    }

    /// Takes a decoder configuration.
    pub fn push_config(&mut self, frame: &MediaFrame, payload: Option<Vec<u8>>)
        ensures
            final(self)@ == (WindowModel {
                muxer: fmp4_pushed(old(self)@.muxer, frame@, opt_bytes(payload)),
                ..old(self)@
            }),
    {
        self.muxer.push_frame(frame, payload);
    }

    /// Takes a frame; configurations are left out.
    pub fn push(&mut self, frame: &MediaFrame, is_config: bool, payload: Option<Vec<u8>>)
        ensures
            final(self)@ == window_taken(old(self)@, frame@, is_config, opt_bytes(payload)),
            is_config ==> final(self)@ == old(self)@,
            !is_config ==> final(self)@ == (WindowModel {
                muxer: fmp4_pushed(old(self)@.muxer, frame@, opt_bytes(payload)),
                ..old(self)@
            }),
    {
        if !is_config {
            self.muxer.push_frame(frame, payload);
        }
    }

    /// Whether what waits can be made a segment.
    pub fn can_flush(&self) -> (r: bool)
        ensures
            r == flushable(self@.muxer),
    {
        self.muxer.can_flush()
    }

    /// Makes a segment of what waits, and forgets the oldest ones.
    pub fn flush(&mut self)
        requires
            flushable(old(self)@.muxer),
        ensures
            final(self)@ == window_flushed(old(self)@),
    {
        let ghost before = self@;
        let segment = match self.muxer.flush_segment() {
            Some(s) => s,
            None => {
                return;
            },
        };
        let ghost all = before.segments.push(segment@);
        let ghost muxer = self.muxer@;
        self.segments.push(segment);
        assert(views(self.segments@) =~= all);
        assert(all.skip(0) =~= all);
        let ghost mut dropped: int = 0;
        while self.segments.len() > WINDOW
            invariant
                self.muxer@ == muxer,
                views(self.segments@) == all.skip(dropped),
                0 <= dropped,
                dropped + self.segments@.len() == all.len(),
                dropped > 0 ==> dropped <= all.len() - WINDOW,
            decreases self.segments@.len(),
        {
            let ghost kept = self.segments@;
            self.segments.remove(0);
            assert(views(self.segments@) =~= views(kept).skip(1));
            assert(all.skip(dropped).skip(1) =~= all.skip(dropped + 1));
            proof {
                dropped = dropped + 1;
            }
        }
    }

    /// The latest segment.
    pub fn latest(&self) -> (r: Option<&Fmp4Segment>)
        ensures
            self@.segments.len() == 0 ==> r is None,
            self@.segments.len() > 0 ==> r is Some && r->0@ == self@.segments.last(),
    {
        if self.segments.len() == 0 {
            None
        } else {
            Some(&self.segments[self.segments.len() - 1])
        }
    }
}

/// A window never grows beyond its size, and its last segment is the latest.
pub proof fn law_window_keeps_latest(m: WindowModel)
    requires
        m.segments.len() <= WINDOW,
    ensures
        window_flushed(m).segments.len() <= WINDOW,
        samples_wait(m.muxer) ==> window_flushed(m).segments.last() == flushed_segment(m.muxer),
{
}

} // verus!
