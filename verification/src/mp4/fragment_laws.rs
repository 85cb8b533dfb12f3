//! What the boxes of a media segment mean: where its samples lie, when they
//! are decoded and presented, and at which of them decoding can start.
use vstd::prelude::*;
use crate::bytes::{be32, be64, lemma_be64, lemma_u32_in, u32_at, u64_at};
use crate::media::{CodecId, FrameModel, FrameType, PayloadFormat};
use crate::mp4::boxes::{TFDT, TFHD, TRUN};
use crate::mp4::fragmented_demuxer::{
    BoxView, FragmentDefaults, FragmentError, FragmentTrackModel, RunModel, base_decode_time,
    bit_set, child_span, clamp64, clamped_ms, first_span, fragment_frame, known_traf_frames,
    optional32, record_composition, record_duration, record_flags, record_len, record_size,
    run_frames, run_header, runs_frames, span_body, spans, tfhd_defaults, track_index, traf_frames,
};
use crate::mp4::layout_laws::whole_ms;

verus! {

broadcast use crate::bytes::group_be_len;

/// A 32-bit field that may be there.
pub open spec fn optional_word(present: bool, n: int) -> Seq<u8> {
    if present {
        be32(n)
    } else {
        Seq::empty()
    }
}

/// The weight of a bit that is set, none else.
pub open spec fn weight(set: bool, n: int) -> int {
    if set {
        n
    } else {
        0
    }
}

/// Which optional fields a run of samples has.
pub struct RunShape {
    pub offset: bool,
    pub first_flags: bool,
    pub durations: bool,
    pub sizes: bool,
    pub flags: bool,
    pub compositions: bool,
}

/// What a run may say of a sample.
pub struct RunRecord {
    pub duration: u32,
    pub size: u32,
    pub flags: u32,
    /// Distance from decoding to presentation, as written.
    pub composition: u32,
}

/// What a run of samples says, and which of it is written.
pub struct RunPlan {
    pub shape: RunShape,
    pub version: u8,
    /// Where the samples begin, from the base of the fragment, as written.
    pub offset: u32,
    pub first_flags: u32,
    pub records: Seq<RunRecord>,
}

/// The flags of a run box.
pub open spec fn shape_flags(s: RunShape) -> int {
    weight(s.offset, 1) + weight(s.first_flags, 4) + weight(s.durations, 0x100) + weight(
        s.sizes,
        0x200,
    ) + weight(s.flags, 0x400) + weight(s.compositions, 0x800)
}

/// The bytes of the record of a sample.
pub open spec fn record_bytes(s: RunShape, r: RunRecord) -> Seq<u8> {
    optional_word(s.durations, r.duration as int) + optional_word(s.sizes, r.size as int)
        + optional_word(s.flags, r.flags as int) + optional_word(
        s.compositions,
        r.composition as int,
    )
}

/// The bytes of the records of samples.
pub open spec fn records_bytes(s: RunShape, list: Seq<RunRecord>) -> Seq<u8>
    decreases list.len(),
{
    if list.len() == 0 {
        Seq::empty()
    } else {
        record_bytes(s, list[0]) + records_bytes(s, list.skip(1))
    }
}

/// The body of a run box.
pub open spec fn run_body(p: RunPlan) -> Seq<u8> {
    be32(p.version * 0x100_0000 + shape_flags(p.shape)) + be32(p.records.len() as int)
        + optional_word(p.shape.offset, p.offset as int) + optional_word(
        p.shape.first_flags,
        p.first_flags as int,
    ) + records_bytes(p.shape, p.records)
}

/// A 32-bit number in two's complement.
pub open spec fn two_complement(n: u32) -> int {
    if n < 0x8000_0000 {
        n as int
    } else {
        n - 0x1_0000_0000
    }
}

/// How long sample `i` of a run lasts.
pub open spec fn duration_of(p: RunPlan, d: FragmentDefaults, i: int) -> int {
    if p.shape.durations {
        p.records[i].duration as int
    } else {
        d.duration as int
    }
}

/// How many bytes sample `i` of a run has.
pub open spec fn size_of_sample(p: RunPlan, d: FragmentDefaults, i: int) -> int {
    if p.shape.sizes {
        p.records[i].size as int
    } else {
        d.size as int
    }
}

/// The flags of sample `i` of a run: its own, or those of the first sample, or
/// those of the fragment.
pub open spec fn flags_of_sample(p: RunPlan, d: FragmentDefaults, i: int) -> int {
    if p.shape.flags {
        p.records[i].flags as int
    } else if i == 0 && p.shape.first_flags {
        p.first_flags as int
    } else {
        d.flags as int
    }
}

/// How long after its decoding sample `i` of a run is presented: the field of
/// its record, which is signed in version 1.
pub open spec fn delay_of(p: RunPlan, i: int) -> int {
    if !p.shape.compositions {
        0
    } else if p.version == 1 {
        two_complement(p.records[i].composition)
    } else {
        p.records[i].composition as int
    }
}

/// Whether a frame carries the bytes of a sample of a track that is decoded
/// and presented at the given times, in ticks of the clock of the track.
pub open spec fn frame_shows(
    f: FrameModel,
    t: FragmentTrackModel,
    sample: Seq<u8>,
    decoded: int,
    presented: int,
    flags: int,
) -> bool {
    &&& f.track_id == t.id
    &&& f.codec == t.codec
    &&& f.data == sample
    &&& !f.config_frame
    &&& whole_ms(decoded, t.timescale as int, f.dts as int)
    &&& presented >= 0 ==> whole_ms(presented, t.timescale as int, f.pts as int)
    &&& presented < 0 ==> f.pts == 0
    &&& f.dts <= u32::MAX ==> f.timestamp == f.dts
    &&& t.codec == CodecId::H264 || t.codec == CodecId::H265 ==> f.frame_type == FrameType::Video
        && f.key_frame == ((flags / 0x1_0000) % 2 == 0)
    &&& t.codec == CodecId::AAC ==> f.frame_type == FrameType::Audio && f.payload_format
        == PayloadFormat::AacRaw
    &&& t.codec == CodecId::H264 ==> f.payload_format == PayloadFormat::Avcc
    &&& t.codec == CodecId::H265 ==> f.payload_format == PayloadFormat::Hvcc
}

/// Whether `times` are the decode times of the samples of a run: the first is
/// decoded at `times[0]`, and each other when the one before it has lasted;
/// `places` likewise where their bytes begin.
pub open spec fn run_goes(p: RunPlan, d: FragmentDefaults, times: Seq<int>, places: Seq<int>) -> bool {
    let n = p.records.len();
    &&& times.len() == n + 1
    &&& places.len() == n + 1
    &&& forall|i: int|
        0 <= i < n ==> #[trigger] times[i + 1] == times[i] + duration_of(p, d, i)
    &&& forall|i: int|
        0 <= i < n ==> #[trigger] places[i + 1] == places[i] + size_of_sample(p, d, i)
}

/// Whether the times of a run can be told in milliseconds of 64 bits.
pub open spec fn times_fit(p: RunPlan, times: Seq<int>) -> bool {
    forall|i: int|
        0 <= i < times.len() ==> 0 <= #[trigger] times[i] && times[i] * 1000 <= u64::MAX && (i
            < p.records.len() ==> (times[i] + delay_of(p, i)) * 1000 <= u64::MAX)
}

proof fn lemma_bits(s: RunShape)
    ensures
        ({
            let f = shape_flags(s);
            &&& 0 <= f < 0x1000
            &&& bit_set(f, 1) == s.offset
            &&& bit_set(f, 4) == s.first_flags
            &&& bit_set(f, 0x100) == s.durations
            &&& bit_set(f, 0x200) == s.sizes
            &&& bit_set(f, 0x400) == s.flags
            &&& bit_set(f, 0x800) == s.compositions
        }),
{
}

proof fn lemma_assoc(a: Seq<u8>, b: Seq<u8>, c: Seq<u8>)
    ensures
        a + b + c == a + (b + c),
{
    assert(a + b + c =~= a + (b + c));
}

/// The parts of a body, seen from one of them.
proof fn lemma_parts(head: Seq<u8>, a: Seq<u8>, b: Seq<u8>, c: Seq<u8>, e: Seq<u8>, rest: Seq<u8>)
    ensures
        head + (a + b + c + e) + rest == head + a + (b + (c + (e + rest))),
        head + (a + b + c + e) + rest == head + a + b + (c + (e + rest)),
        head + (a + b + c + e) + rest == head + a + b + c + (e + rest),
        head + (a + b + c + e) + rest == head + a + b + c + e + rest,
{
    lemma_assoc(head, a + b + c, e);
    lemma_assoc(head, a + b, c);
    lemma_assoc(head, a, b);
    lemma_assoc(head + a + b + c, e, rest);
    lemma_assoc(head + a + b, c, e + rest);
    lemma_assoc(head + a, b, c + (e + rest));
}

proof fn lemma_clamped(ticks: int, timescale: int)
    requires
        timescale > 0,
        0 <= ticks,
        ticks * 1000 <= u64::MAX,
    ensures
        whole_ms(ticks, timescale, clamped_ms(ticks, timescale)),
        0 <= clamped_ms(ticks, timescale) <= u64::MAX,
{
    let d = ticks * 1000;
    let q = d / timescale;
    assert(q * timescale <= d < (q + 1) * timescale && 0 <= q <= d) by (nonlinear_arith)
        requires
            timescale > 0,
            0 <= d,
            q == d / timescale,
    ;
}

/// The frame of a sample.
pub proof fn lemma_frame(
    t: FragmentTrackModel,
    time: int,
    delay: int,
    sample: Seq<u8>,
    flags: int,
)
    requires
        t.timescale > 0,
        0 <= time,
        time * 1000 <= u64::MAX,
        (time + delay) * 1000 <= u64::MAX,
    ensures
        frame_shows(
            fragment_frame(t, time, delay, sample, flags),
            t,
            sample,
            time,
            time + delay,
            flags,
        ),
{
    lemma_clamped(time, t.timescale as int);
    if time + delay >= 0 {
        lemma_clamped(time + delay, t.timescale as int);
    } else {
        assert(clamp64(time + delay) == 0);
        lemma_clamped(0, t.timescale as int);
        let s = t.timescale as int;
        assert(0int / s == 0) by (nonlinear_arith)
            requires
                s > 0,
        ;
    }
    assert(0 <= flags / 0x1_0000 || flags < 0);
}

/// What the record at the head of a list says, where it stands in a body.
proof fn lemma_record(s: RunShape, r: RunRecord, head: Seq<u8>, rest: Seq<u8>)
    ensures
        ({
            let body = head + record_bytes(s, r) + rest;
            let at = head.len() as int;
            let size_at = at + weight(s.durations, 4);
            let flags_at = size_at + weight(s.sizes, 4);
            let delay_at = flags_at + weight(s.flags, 4);
            &&& record_bytes(s, r).len() == weight(s.durations, 4) + weight(s.sizes, 4) + weight(
                s.flags,
                4,
            ) + weight(s.compositions, 4)
            &&& s.durations ==> u32_at(body, at) == r.duration
            &&& s.sizes ==> u32_at(body, size_at) == r.size
            &&& s.flags ==> u32_at(body, flags_at) == r.flags
            &&& s.compositions ==> u32_at(body, delay_at) == r.composition
        }),
{
    let a = optional_word(s.durations, r.duration as int);
    let b = optional_word(s.sizes, r.size as int);
    let c = optional_word(s.flags, r.flags as int);
    let e = optional_word(s.compositions, r.composition as int);
    lemma_parts(head, a, b, c, e, rest);
    if s.durations {
        lemma_u32_in(head, r.duration as int, b + (c + (e + rest)));
    }
    if s.sizes {
        lemma_u32_in(head + a, r.size as int, c + (e + rest));
    }
    if s.flags {
        lemma_u32_in(head + a + b, r.flags as int, e + rest);
    }
    if s.compositions {
        lemma_u32_in(head + a + b + c, r.composition as int, rest);
    }
}

/// What the records say together with what the run and its fragment say.
spec fn run_is(p: RunPlan, r: RunModel, d: FragmentDefaults) -> bool {
    &&& r.flags == shape_flags(p.shape)
    &&& r.version == p.version
    &&& r.count == p.records.len()
    &&& r.first_flags == if p.shape.first_flags {
        p.first_flags as int
    } else {
        d.flags as int
    }
}

/// What the record at `at` says.
proof fn lemma_record_read(
    p: RunPlan,
    r: RunModel,
    d: FragmentDefaults,
    head: Seq<u8>,
    rest: Seq<u8>,
    i: int,
)
    requires
        run_is(p, r, d),
        0 <= i < p.records.len(),
        r.body == head + record_bytes(p.shape, p.records[i]) + rest,
    ensures
        ({
            let at = head.len() as int;
            &&& record_len(r.flags) == record_bytes(p.shape, p.records[i]).len()
            &&& record_duration(r, d, at) == duration_of(p, d, i)
            &&& record_size(r, d, at) == size_of_sample(p, d, i)
            &&& record_flags(r, d, at, i == 0) == flags_of_sample(p, d, i)
            &&& record_composition(r, at) == delay_of(p, i)
        }),
{
    lemma_record(p.shape, p.records[i], head, rest);
    lemma_bits(p.shape);
}

/// Whether a frame shows sample `k` of a run.
#[verifier::opaque]
spec fn shown(
    f: FrameModel,
    data: Seq<u8>,
    t: FragmentTrackModel,
    p: RunPlan,
    d: FragmentDefaults,
    times: Seq<int>,
    places: Seq<int>,
    k: int,
) -> bool {
    frame_shows(
        f,
        t,
        data.subrange(places[k], places[k + 1]),
        times[k],
        times[k] + delay_of(p, k),
        flags_of_sample(p, d, k),
    )
}

/// The first sample of those that are left.
proof fn lemma_run_step(
    data: Seq<u8>,
    t: FragmentTrackModel,
    r: RunModel,
    d: FragmentDefaults,
    left: int,
    at: int,
    time: int,
    offset: int,
    rest: Seq<FrameModel>,
    after: int,
    end: int,
)
    requires
        left > 0,
        at + record_len(r.flags) <= r.body.len(),
        offset + record_size(r, d, at) <= data.len(),
        run_frames(
            data,
            t,
            r,
            d,
            left - 1,
            at + record_len(r.flags),
            clamp64(time + record_duration(r, d, at)),
            offset + record_size(r, d, at),
        ) == Ok::<(Seq<FrameModel>, int, int), FragmentError>((rest, after, end)),
    ensures
        run_frames(data, t, r, d, left, at, time, offset) == Ok::<
            (Seq<FrameModel>, int, int),
            FragmentError,
        >(
            (
                seq![
                    fragment_frame(
                        t,
                        time,
                        record_composition(r, at),
                        data.subrange(offset, offset + record_size(r, d, at)),
                        record_flags(r, d, at, left == r.count),
                    ),
                ] + rest,
                after,
                end,
            ),
        ),
{
}

proof fn lemma_run_from(
    data: Seq<u8>,
    t: FragmentTrackModel,
    p: RunPlan,
    r: RunModel,
    d: FragmentDefaults,
    times: Seq<int>,
    places: Seq<int>,
    head: Seq<u8>,
    i: int,
) -> (frames: Seq<FrameModel>)
    requires
        t.timescale > 0,
        run_is(p, r, d),
        run_goes(p, d, times, places),
        times_fit(p, times),
        0 <= i <= p.records.len(),
        r.body == head + records_bytes(p.shape, p.records.skip(i)),
        places[p.records.len() as int] <= data.len(),
    ensures
        run_frames(
            data,
            t,
            r,
            d,
            p.records.len() - i,
            head.len() as int,
            times[i],
            places[i],
        ) == Ok::<(Seq<FrameModel>, int, int), FragmentError>(
            (frames, times[p.records.len() as int], places[p.records.len() as int]),
        ),
        frames.len() == p.records.len() - i,
        forall|k: int|
            0 <= k < frames.len() ==> shown(
                #[trigger] frames[k],
                data,
                t,
                p,
                d,
                times,
                places,
                i + k,
            ),
    decreases p.records.len() - i,
{
    let n = p.records.len() as int;
    if i == n {
        Seq::empty()
    } else {
        let list = p.records.skip(i);
        let rest = records_bytes(p.shape, p.records.skip(i + 1));
        let here = record_bytes(p.shape, p.records[i]);
        assert(list[0] == p.records[i]);
        assert(list.skip(1) =~= p.records.skip(i + 1));
        assert(r.body =~= head + here + rest);
        lemma_record_read(p, r, d, head, rest, i);
        let at = head.len() as int;
        let tail = lemma_run_from(data, t, p, r, d, times, places, head + here, i + 1);
        assert(times[i + 1] == times[i] + duration_of(p, d, i));
        assert(places[i + 1] == places[i] + size_of_sample(p, d, i));
        lemma_places_ascend(p, d, times, places, i + 1, n);
        assert(clamp64(times[i + 1]) == times[i + 1]) by {
            assert(times[i + 1] * 1000 <= u64::MAX && times[i + 1] >= 0);
        }
        lemma_run_step(data, t, r, d, n - i, at, times[i], places[i], tail, times[n], places[n]);
        let sample = data.subrange(places[i], places[i + 1]);
        let frame = fragment_frame(t, times[i], delay_of(p, i), sample, flags_of_sample(p, d, i));
        assert(shown(frame, data, t, p, d, times, places, i)) by {
            assert(times[i] >= 0);
            lemma_frame(t, times[i], delay_of(p, i), sample, flags_of_sample(p, d, i));
            reveal(shown);
        }
        let frames = seq![frame] + tail;
        assert forall|k: int| 0 <= k < frames.len() implies shown(
            #[trigger] frames[k],
            data,
            t,
            p,
            d,
            times,
            places,
            i + k,
        ) by {
            if k > 0 {
                assert(frames[k] == tail[k - 1]);
            }
        }
        frames
    }
}

proof fn lemma_places_ascend(
    p: RunPlan,
    d: FragmentDefaults,
    times: Seq<int>,
    places: Seq<int>,
    i: int,
    j: int,
)
    requires
        run_goes(p, d, times, places),
        0 <= i <= j <= p.records.len(),
    ensures
        places[i] <= places[j],
    decreases j - i,
{
    if i < j {
        lemma_places_ascend(p, d, times, places, i, j - 1);
        assert(places[(j - 1) + 1] == places[j - 1] + size_of_sample(p, d, j - 1));
    }
}

/// Whether the samples of a run begin at `place`: where its own offset says,
/// from the base of the fragment, or else behind the samples before it.
pub open spec fn run_begins(p: RunPlan, d: FragmentDefaults, implicit: int, place: int) -> bool {
    if p.shape.offset {
        place == d.base + two_complement(p.offset)
    } else {
        place == implicit
    }
}

/// The header of a written run.
proof fn lemma_run_header(p: RunPlan, d: FragmentDefaults, implicit: int, place: int)
    requires
        p.records.len() <= u32::MAX,
        d.base < 0x8000_0000_0000_0000,
        run_begins(p, d, implicit, place),
        0 <= place,
    ensures
        ({
            let r = run_header(run_body(p), d, implicit);
            &&& r is Ok
            &&& run_is(p, r->Ok_0, d)
            &&& r->Ok_0.body == run_body(p)
            &&& r->Ok_0.samples_at == place
            &&& 0 <= r->Ok_0.records_at <= run_body(p).len()
            &&& run_body(p) == run_body(p).take(r->Ok_0.records_at) + records_bytes(
                p.shape,
                p.records,
            )
        }),
{
    let s = p.shape;
    let word = p.version * 0x100_0000 + shape_flags(s);
    let n = p.records.len() as int;
    let a = optional_word(s.offset, p.offset as int);
    let b = optional_word(s.first_flags, p.first_flags as int);
    let rest = records_bytes(s, p.records);
    let body = run_body(p);
    let none = Seq::<u8>::empty();
    lemma_bits(s);
    let z = be32(word) + be32(n);
    let y = z + a;
    assert(none + be32(word) =~= be32(word));
    lemma_assoc(y, b, rest);
    lemma_assoc(z, a, b + rest);
    lemma_assoc(be32(word), be32(n), a + (b + rest));
    assert(body == y + b + rest);
    assert(body == z + a + (b + rest));
    assert(body == be32(word) + be32(n) + (a + (b + rest)));
    assert(body == none + be32(word) + (be32(n) + (a + (b + rest))));
    lemma_u32_in(none, word, be32(n) + (a + (b + rest)));
    lemma_u32_in(be32(word), n, a + (b + rest));
    assert(word % 0x100_0000 == shape_flags(s));
    assert(body[0] == p.version) by {
        assert(body[0] == be32(word)[0]);
        reveal(be32);
        assert((word / 0x100_0000) % 0x100 == p.version);
    }
    if s.offset {
        lemma_u32_in(z, p.offset as int, b + rest);
    }
    if s.first_flags {
        lemma_u32_in(y, p.first_flags as int, rest);
    }
    let r = run_header(body, d, implicit)->Ok_0;
    assert(r.records_at == 8 + a.len() + b.len());
    let head = be32(word) + be32(n) + a + b;
    assert(body =~= head + rest);
    assert(body.take(r.records_at) =~= head);
}

/// The samples of a run, whatever fields its records have: they lie one behind
/// the other from where the run begins, each is decoded when the one before it
/// has lasted, and each is presented as long after that as the field of its
/// record says, which is signed in version 1 and unsigned in version 0.
pub proof fn law_run_is_read(
    data: Seq<u8>,
    t: FragmentTrackModel,
    p: RunPlan,
    d: FragmentDefaults,
    implicit: int,
    times: Seq<int>,
    places: Seq<int>,
)
    requires
        t.timescale > 0,
        p.records.len() <= u32::MAX,
        d.base < 0x8000_0000_0000_0000,
        run_goes(p, d, times, places),
        times_fit(p, times),
        run_begins(p, d, implicit, places[0]),
        0 <= places[0],
        places[p.records.len() as int] <= data.len(),
    ensures
        ({
            let n = p.records.len() as int;
            let r = run_header(run_body(p), d, implicit);
            let result = run_frames(
                data,
                t,
                r->Ok_0,
                d,
                r->Ok_0.count,
                r->Ok_0.records_at,
                times[0],
                r->Ok_0.samples_at,
            );
            &&& r is Ok
            &&& result is Ok
            &&& result->Ok_0.0.len() == n
            &&& result->Ok_0.1 == times[n]
            &&& result->Ok_0.2 == places[n]
            &&& forall|k: int|
                0 <= k < n ==> frame_shows(
                    #[trigger] result->Ok_0.0[k],
                    t,
                    data.subrange(places[k], places[k + 1]),
                    times[k],
                    times[k] + delay_of(p, k),
                    flags_of_sample(p, d, k),
                )
        }),
{
    lemma_run_header(p, d, implicit, places[0]);
    let r = run_header(run_body(p), d, implicit)->Ok_0;
    assert(p.records.skip(0) =~= p.records);
    let head = run_body(p).take(r.records_at);
    let frames = lemma_run_from(data, t, p, r, d, times, places, head, 0);
    assert forall|k: int| 0 <= k < p.records.len() implies frame_shows(
        #[trigger] frames[k],
        t,
        data.subrange(places[k], places[k + 1]),
        times[k],
        times[k] + delay_of(p, k),
        flags_of_sample(p, d, k),
    ) by {
        assert(shown(frames[k], data, t, p, d, times, places, 0 + k));
        reveal(shown);
    }
}

// ── track fragments ─────────────────────────────────────────────────────

/// A 64-bit field that may be there.
pub open spec fn optional_long(present: bool, n: int) -> Seq<u8> {
    if present {
        be64(n)
    } else {
        Seq::empty()
    }
}

/// What a track fragment header says, and which of it is written.
pub struct HeaderPlan {
    pub track_id: u32,
    /// Other flags, above those of the fields.
    pub other: u8,
    pub has_base: bool,
    pub base: u64,
    pub has_description: bool,
    pub description: u32,
    pub has_duration: bool,
    pub duration: u32,
    pub has_size: bool,
    pub size: u32,
    pub has_flags: bool,
    pub flags: u32,
}

/// The flags of a track fragment header.
pub open spec fn header_flags(h: HeaderPlan) -> int {
    h.other * 0x1_0000 + weight(h.has_base, 1) + weight(h.has_description, 2) + weight(
        h.has_duration,
        8,
    ) + weight(h.has_size, 0x10) + weight(h.has_flags, 0x20)
}

/// The body of a track fragment header.
pub open spec fn header_body(h: HeaderPlan) -> Seq<u8> {
    be32(header_flags(h)) + be32(h.track_id as int) + optional_long(h.has_base, h.base as int)
        + optional_word(h.has_description, h.description as int) + optional_word(
        h.has_duration,
        h.duration as int,
    ) + optional_word(h.has_size, h.size as int) + optional_word(h.has_flags, h.flags as int)
}

/// What a track fragment header gives: its fields, and zero for those that it
/// lacks; offsets count from the fragment where it gives no base.
pub open spec fn header_defaults(h: HeaderPlan, moof_start: int) -> FragmentDefaults {
    FragmentDefaults {
        base: if h.has_base {
            h.base
        } else {
            moof_start as u64
        },
        duration: if h.has_duration {
            h.duration
        } else {
            0
        },
        size: if h.has_size {
            h.size
        } else {
            0
        },
        flags: if h.has_flags {
            h.flags
        } else {
            0
        },
    }
}

pub proof fn lemma_u64_in(a: Seq<u8>, n: int, b: Seq<u8>)
    requires
        0 <= n < 0x1_0000_0000_0000_0000,
    ensures
        u64_at(a + be64(n) + b, a.len() as int) == n,
{
    lemma_be64(n);
    let s = a + be64(n) + b;
    let k = a.len() as int;
    assert forall|j: int| 0 <= j < 8 implies s[k + j] == #[trigger] be64(n)[j] by {}
    assert(u64_at(s, k) == u64_at(be64(n), 0));
}

/// Where the fields of a track fragment header stand.
proof fn lemma_header_fields(h: HeaderPlan)
    ensures
        ({
            let body = header_body(h);
            let at = 8 + weight(h.has_base, 8) + weight(h.has_description, 4);
            let size_at = at + weight(h.has_duration, 4);
            let flags_at = size_at + weight(h.has_size, 4);
            &&& body.len() == flags_at + weight(h.has_flags, 4)
            &&& u32_at(body, 0) == header_flags(h)
            &&& u32_at(body, 4) == h.track_id
            &&& h.has_base ==> u64_at(body, 8) == h.base
            &&& h.has_duration ==> u32_at(body, at) == h.duration
            &&& h.has_size ==> u32_at(body, size_at) == h.size
            &&& h.has_flags ==> u32_at(body, flags_at) == h.flags
        }),
{
    let word = header_flags(h);
    let id = be32(h.track_id as int);
    let a = optional_long(h.has_base, h.base as int);
    let b = optional_word(h.has_description, h.description as int);
    let c = optional_word(h.has_duration, h.duration as int);
    let e = optional_word(h.has_size, h.size as int);
    let f = optional_word(h.has_flags, h.flags as int);
    let body = header_body(h);
    let none = Seq::<u8>::empty();
    lemma_header_bits(h);
    let z = be32(word) + id;
    assert(z + none =~= z);
    assert(body + none =~= body);
    assert(none + be32(word) =~= be32(word));
    let y = z + a;
    lemma_assoc(be32(word), id, none);
    lemma_assoc(y, b, c + (e + f));
    assert(y + b + c + e + f == y + b + (c + (e + f))) by {
        lemma_assoc(y + b + c, e, f);
        lemma_assoc(y + b, c, e + f);
    }
    let tail = b + (c + (e + f));
    lemma_assoc(z, a, tail);
    lemma_assoc(be32(word), id, a + tail);
    lemma_assoc(y + b, c, e + f);
    lemma_assoc(y + b + c, e, f);
    assert(body == y + tail);
    assert(body == z + (a + tail));
    assert(body == be32(word) + (id + (a + tail)));
    lemma_u32_in(none, word, id + (a + tail));
    lemma_u32_in(be32(word), h.track_id as int, a + tail);
    if h.has_base {
        lemma_u64_in(z, h.base as int, tail);
    }
    if h.has_duration {
        lemma_u32_in(y + b, h.duration as int, e + f);
    }
    if h.has_size {
        lemma_u32_in(y + b + c, h.size as int, f);
    }
    if h.has_flags {
        lemma_u32_in(y + b + c + e, h.flags as int, none);
    }
}

/// What a header gives whose fields stand where they should.
proof fn lemma_header_gives(h: HeaderPlan, body: Seq<u8>, moof_start: int)
    requires
        0 <= moof_start <= u64::MAX,
        ({
            let at = 8 + weight(h.has_base, 8) + weight(h.has_description, 4);
            let size_at = at + weight(h.has_duration, 4);
            let flags_at = size_at + weight(h.has_size, 4);
            &&& body.len() == flags_at + weight(h.has_flags, 4)
            &&& u32_at(body, 0) == header_flags(h)
            &&& h.has_base ==> u64_at(body, 8) == h.base
            &&& h.has_duration ==> u32_at(body, at) == h.duration
            &&& h.has_size ==> u32_at(body, size_at) == h.size
            &&& h.has_flags ==> u32_at(body, flags_at) == h.flags
        }),
    ensures
        tfhd_defaults(body, moof_start) == Ok::<FragmentDefaults, FragmentError>(
            header_defaults(h, moof_start),
        ),
{
    let word = header_flags(h);
    let d = header_defaults(h, moof_start);
    let at = 8 + weight(h.has_base, 8) + weight(h.has_description, 4);
    let size_at = at + weight(h.has_duration, 4);
    let flags_at = size_at + weight(h.has_size, 4);
    lemma_header_bits(h);
    assert(optional32(body, word, 8, at) == Ok::<int, FragmentError>(d.duration as int));
    assert(optional32(body, word, 0x10, size_at) == Ok::<int, FragmentError>(d.size as int));
    assert(optional32(body, word, 0x20, flags_at) == Ok::<int, FragmentError>(d.flags as int));
}

/// A track fragment header is read, whatever fields it has.
pub proof fn law_fragment_header_is_read(h: HeaderPlan, moof_start: int)
    requires
        0 <= moof_start <= u64::MAX,
    ensures
        header_body(h).len() >= 8,
        u32_at(header_body(h), 4) == h.track_id,
        tfhd_defaults(header_body(h), moof_start) == Ok::<FragmentDefaults, FragmentError>(
            header_defaults(h, moof_start),
        ),
{
    lemma_header_fields(h);
    lemma_header_gives(h, header_body(h), moof_start);
}

proof fn lemma_header_bits(h: HeaderPlan)
    ensures
        ({
            let f = header_flags(h);
            &&& 0 <= f < 0x100_0000
            &&& f % 0x100_0000 == f
            &&& bit_set(f, 1) == h.has_base
            &&& bit_set(f, 2) == h.has_description
            &&& bit_set(f, 8) == h.has_duration
            &&& bit_set(f, 0x10) == h.has_size
            &&& bit_set(f, 0x20) == h.has_flags
        }),
{
}

/// The body of a decode time box, of 64 bits or of 32.
pub open spec fn decode_time_body(long: bool, time: int) -> Seq<u8> {
    if long {
        be32(0x100_0000) + be64(time)
    } else {
        be32(0) + be32(time)
    }
}

/// A track fragment begins at the time in its decode time box, of either
/// version, and at zero without one.
pub proof fn law_decode_time_is_read(data: Seq<u8>, traf: BoxView, b: BoxView, long: bool, time: int)
    requires
        0 <= time <= u64::MAX,
        !long ==> time <= u32::MAX,
    ensures
        child_span(data, traf, TFDT) == Ok::<Option<BoxView>, FragmentError>(Some(b)) && span_body(
            data,
            b,
        ) == decode_time_body(long, time) ==> base_decode_time(data, traf) == Ok::<
            int,
            FragmentError,
        >(time),
        child_span(data, traf, TFDT) == Ok::<Option<BoxView>, FragmentError>(None)
            ==> base_decode_time(data, traf) == Ok::<int, FragmentError>(0),
{
    let body = decode_time_body(long, time);
    if long {
        lemma_u64_in(be32(0x100_0000), time, Seq::empty());
        assert(body =~= be32(0x100_0000) + be64(time) + Seq::<u8>::empty());
        assert(body[0] == 1) by {
            reveal(be32);
            assert(body[0] == be32(0x100_0000)[0]);
        }
    } else {
        lemma_u32_in(be32(0), time, Seq::empty());
        assert(body =~= be32(0) + be32(time) + Seq::<u8>::empty());
        assert(body[0] == 0) by {
            reveal(be32);
            assert(body[0] == be32(0)[0]);
        }
    }
}

proof fn lemma_one_run(
    data: Seq<u8>,
    t: FragmentTrackModel,
    d: FragmentDefaults,
    list: Seq<BoxView>,
    i: int,
    j: int,
    time: int,
    offset: int,
    r: RunModel,
    frames: Seq<FrameModel>,
    after: int,
    end: int,
)
    requires
        0 <= i <= list.len(),
        0 <= j < list.len(),
        list[j].kind == TRUN,
        forall|k: int| 0 <= k < list.len() && k != j ==> (#[trigger] list[k]).kind != TRUN,
        run_header(span_body(data, list[j]), d, offset) == Ok::<RunModel, FragmentError>(r),
        run_frames(data, t, r, d, r.count, r.records_at, time, r.samples_at) == Ok::<
            (Seq<FrameModel>, int, int),
            FragmentError,
        >((frames, after, end)),
    ensures
        i <= j ==> runs_frames(data, t, d, list, i, time, offset) == Ok::<
            Seq<FrameModel>,
            FragmentError,
        >(frames),
    decreases list.len() - i,
{
    if i < j {
        assert(list[i].kind != TRUN);
        lemma_one_run(data, t, d, list, i + 1, j, time, offset, r, frames, after, end);
    } else if i == j {
        lemma_no_run(data, t, d, list, i + 1, j, after, end);
        assert(frames + Seq::<FrameModel>::empty() =~= frames);
    }
}

pub proof fn lemma_no_run(
    data: Seq<u8>,
    t: FragmentTrackModel,
    d: FragmentDefaults,
    list: Seq<BoxView>,
    i: int,
    j: int,
    time: int,
    offset: int,
)
    requires
        0 <= j < i <= list.len(),
        forall|k: int| 0 <= k < list.len() && k != j ==> (#[trigger] list[k]).kind != TRUN,
    ensures
        runs_frames(data, t, d, list, i, time, offset) == Ok::<Seq<FrameModel>, FragmentError>(
            Seq::empty(),
        ),
    decreases list.len() - i,
{
    if i < list.len() {
        assert(list[i].kind != TRUN);
        lemma_no_run(data, t, d, list, i + 1, j, time, offset);
    }
}

/// A track fragment with one run: its samples belong to the track that its
/// header names, the first is decoded at the time in its decode time box, and
/// what its run does not say of them, its header says.
pub proof fn law_track_fragment_is_read(
    data: Seq<u8>,
    tracks: Seq<FragmentTrackModel>,
    moof: BoxView,
    mdat: BoxView,
    traf: BoxView,
    list: Seq<BoxView>,
    header: BoxView,
    decode_time: BoxView,
    j: int,
    h: HeaderPlan,
    long: bool,
    p: RunPlan,
    track: int,
    times: Seq<int>,
    places: Seq<int>,
)
    requires
        spans(data, traf.data_start as int, traf.end as int) == Ok::<Seq<BoxView>, FragmentError>(
            list,
        ),
        first_span(list, TFHD) == Some(header),
        span_body(data, header) == header_body(h),
        first_span(list, TFDT) == Some(decode_time),
        span_body(data, decode_time) == decode_time_body(long, times[0]),
        0 <= j < list.len(),
        list[j].kind == TRUN,
        span_body(data, list[j]) == run_body(p),
        forall|k: int| 0 <= k < list.len() && k != j ==> (#[trigger] list[k]).kind != TRUN,
        0 <= track < tracks.len(),
        tracks[track].id == h.track_id,
        tracks[track].timescale > 0,
        forall|k: int| 0 <= k < track ==> (#[trigger] tracks[k]).id != h.track_id,
        p.records.len() <= u32::MAX,
        h.base < 0x8000_0000_0000_0000,
        moof.start < 0x8000_0000_0000_0000,
        !long ==> times[0] <= u32::MAX,
        run_goes(p, header_defaults(h, moof.start as int), times, places),
        times_fit(p, times),
        run_begins(p, header_defaults(h, moof.start as int), mdat.data_start as int, places[0]),
        0 <= places[0],
        places[p.records.len() as int] <= data.len(),
    ensures
        ({
            let n = p.records.len() as int;
            let d = header_defaults(h, moof.start as int);
            let result = traf_frames(data, tracks, moof, mdat, traf);
            &&& result is Ok
            &&& result->Ok_0.len() == n
            &&& forall|k: int|
                0 <= k < n ==> frame_shows(
                    #[trigger] result->Ok_0[k],
                    tracks[track],
                    data.subrange(places[k], places[k + 1]),
                    times[k],
                    times[k] + delay_of(p, k),
                    flags_of_sample(p, d, k),
                )
        }),
{
    let t = tracks[track];
    let d = header_defaults(h, moof.start as int);
    law_fragment_header_is_read(h, moof.start as int);
    assert(times[0] >= 0 && times[0] * 1000 <= u64::MAX);
    law_decode_time_is_read(data, traf, decode_time, long, times[0]);
    law_run_is_read(data, t, p, d, mdat.data_start as int, times, places);
    lemma_track_found(tracks, h.track_id, 0, track);
    let r = run_header(run_body(p), d, mdat.data_start as int)->Ok_0;
    let result = run_frames(data, t, r, d, r.count, r.records_at, times[0], r.samples_at)->Ok_0;
    lemma_one_run(
        data,
        t,
        d,
        list,
        0,
        j,
        times[0],
        mdat.data_start as int,
        r,
        result.0,
        result.1,
        result.2,
    );
    assert(known_traf_frames(data, t, d, traf, mdat) == Ok::<Seq<FrameModel>, FragmentError>(
        result.0,
    ));
}

proof fn lemma_track_found(tracks: Seq<FragmentTrackModel>, id: u32, i: int, k: int)
    requires
        0 <= i <= k < tracks.len(),
        tracks[k].id == id,
        forall|j: int| 0 <= j < k ==> (#[trigger] tracks[j]).id != id,
    ensures
        track_index(tracks, id, i) == Some(k),
    decreases k - i,
{
    if i < k {
        assert(tracks[i].id != id);
        lemma_track_found(tracks, id, i + 1, k);
    }
}

} // verus!
