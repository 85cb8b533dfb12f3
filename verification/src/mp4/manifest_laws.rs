//! What manifests and codec strings tell of a stream, how long a recording
//! is, and which file a name addresses.
use vstd::prelude::*;
use vstd::utf8::encode_utf8;
use crate::http::live::live_representations;
use crate::media::{CodecId, FrameModel, TrackInfo};
use crate::mp4::dash::{
    ManifestTemplates, RepresentationModel, adaptation_text, any_of_kind, buffer_text, codec_text,
    compatibility_flags, dotted, mpd_text, representation_text, representations_text, reversed_bits,
    sound_format, video_codec_number, without_zeros,
};
use crate::mp4::demuxer::TrackModel;
use crate::mp4::entries::TrackKind;
use crate::mp4::fmp4::flushed_segment;
use crate::mp4::recorder::{
    Fmp4RecorderModel, RecorderModel, cached, counted, fragment_taken, next_file, recorded,
    recorded_ms,
};
use crate::mp4::vod::{hex_value, percent_bytes, resolved_path, source_tracks};
use crate::text::{
    begins_with, decimal, finishes_with, hex_byte, hexadecimal, holds_text, lowered, pieces,
    stands_at, trim_front,
};
use crate::text_laws::law_holds_somewhere;

verus! {

// ── manifests ───────────────────────────────────────────────────────────

/// What a manifest says of the segments of a representation.
pub open spec fn segments_text(ticks: int, seconds: int, first: int) -> Seq<char> {
    "timescale=\""@ + decimal(ticks) + "\" duration=\""@ + decimal(ticks * seconds)
        + "\" startNumber=\""@ + decimal(first) + "\""@
}

proof fn lemma_holds(a: Seq<char>, p: Seq<char>, b: Seq<char>)
    ensures
        holds_text(a + p + b, p),
{
    let s = a + p + b;
    law_holds_somewhere(s, p);
    assert(s.subrange(a.len() as int, (a.len() + p.len()) as int) =~= p);
    assert(stands_at(s, p, a.len() as int));
}

proof fn lemma_held_inside(a: Seq<char>, s: Seq<char>, b: Seq<char>, p: Seq<char>)
    requires
        holds_text(s, p),
    ensures
        holds_text(a + s + b, p),
{
    law_holds_somewhere(s, p);
    let k = choose|k: int| #[trigger] stands_at(s, p, k);
    let all = a + s + b;
    law_holds_somewhere(all, p);
    assert(s.subrange(k, k + p.len()) == p);
    assert(all.subrange(a.len() + k, a.len() + k + p.len()) =~= s.subrange(k, k + p.len()));
    assert(stands_at(all, p, a.len() + k));
}

proof fn lemma_representation(r: RepresentationModel, t: ManifestTemplates)
    ensures
        holds_text(
            representation_text(r, t),
            segments_text(r.timescale as int, r.segment_duration_secs as int, t.start_number as int),
        ),
        begins_with(representation_text(r, t), "      <Representation id=\""@ + r.id),
{
    reveal_strlit("\" frameRate=\"30\" >\n        <SegmentTemplate timescale=\"");
    reveal_strlit("\" frameRate=\"30\" >\n        <SegmentTemplate ");
    reveal_strlit("timescale=\"");
    reveal_strlit("\" initialization=\"");
    reveal_strlit("\"");
    reveal_strlit(" initialization=\"");
    let text = representation_text(r, t);
    let p = segments_text(
        r.timescale as int,
        r.segment_duration_secs as int,
        t.start_number as int,
    );
    let head = Seq::<char>::empty() + "      <Representation id=\""@ + r.id + "\" mimeType=\""@
        + r.mime_type + "\" codecs=\""@ + r.codecs + "\" "@ + crate::mp4::dash::size_text(r)
        + "bandwidth=\""@ + decimal(r.bandwidth as int);
    let a = head + "\" frameRate=\"30\" >\n        <SegmentTemplate "@;
    let b = " initialization=\""@ + t.init_template + "\" media=\""@ + t.media_template
        + "\" />\n      </Representation>\n"@;
    assert("\" frameRate=\"30\" >\n        <SegmentTemplate timescale=\""@
        =~= "\" frameRate=\"30\" >\n        <SegmentTemplate "@ + "timescale=\""@);
    assert("\" initialization=\""@ =~= "\""@ + " initialization=\""@);
    assert(r.segment_duration_secs * r.timescale == r.timescale * r.segment_duration_secs)
        by (nonlinear_arith);
    assert(text =~= a + p + b);
    lemma_holds(a, p, b);
    let start = "      <Representation id=\""@ + r.id;
    assert(text.take(start.len() as int) =~= start);
}

proof fn lemma_representations(
    reprs: Seq<RepresentationModel>,
    kind: Seq<char>,
    t: ManifestTemplates,
    n: int,
    k: int,
    p: Seq<char>,
)
    requires
        0 <= k < n <= reprs.len(),
        begins_with(reprs[k].mime_type, kind),
        holds_text(representation_text(reprs[k], t), p),
    ensures
        holds_text(representations_text(reprs, kind, t, n), p),
    decreases n,
{
    let none = Seq::<char>::empty();
    let before = representations_text(reprs, kind, t, n - 1);
    if k == n - 1 {
        let rep = representation_text(reprs[k], t);
        lemma_held_inside(before, rep, none, p);
        assert(before + rep + none =~= before + rep);
    } else {
        lemma_representations(reprs, kind, t, n - 1, k, p);
        if begins_with(reprs[n - 1].mime_type, kind) {
            let rep = representation_text(reprs[n - 1], t);
            lemma_held_inside(none, before, rep, p);
            assert(none + before + rep =~= before + rep);
        }
    }
}

/// The manifest tells of every representation of pictures or sound how long
/// its segments are, in ticks of its own clock, and which is the first; players
/// are asked to keep two segments.
pub proof fn law_manifest_tells_durations(
    reprs: Seq<RepresentationModel>,
    t: ManifestTemplates,
    k: int,
)
    requires
        0 <= k < reprs.len(),
        begins_with(reprs[k].mime_type, "video"@) || begins_with(reprs[k].mime_type, "audio"@),
    ensures
        holds_text(
            mpd_text(reprs, t),
            segments_text(
                reprs[k].timescale as int,
                reprs[k].segment_duration_secs as int,
                t.start_number as int,
            ),
        ),
        holds_text(
            mpd_text(reprs, t),
            "minBufferTime=\"PT"@ + decimal(2 * reprs[0].segment_duration_secs) + "S\""@,
        ),
{
    let p = segments_text(
        reprs[k].timescale as int,
        reprs[k].segment_duration_secs as int,
        t.start_number as int,
    );
    let n = reprs.len() as int;
    lemma_representation(reprs[k], t);
    let none = Seq::<char>::empty();
    let head = Seq::<char>::empty() + "<?xml version=\"1.0\" encoding=\"utf-8\"?>\n"@
        + "<MPD xmlns=\"urn:mpeg:dash:schema:mpd:2011\" "@
        + "xmlns:xsi=\"http://www.w3.org/2001/XMLSchema-instance\" "@
        + "xsi:schemaLocation=\"urn:mpeg:dash:schema:mpd:2011 DASH-MPD.xsd\" "@
        + "profiles=\"urn:mpeg:dash:profile:isoff-live:2011\" "@ + "type=\"dynamic\" "@;
    let video = adaptation_text(reprs, "video"@, t);
    let audio = adaptation_text(reprs, "audio"@, t);
    let middle = "minimumUpdatePeriod=\"PT2S\">\n"@ + "  <Period id=\"0\" start=\"PT0S\">\n"@;
    let tail = "  </Period>\n"@ + "</MPD>\n"@;
    let buffer = buffer_text(reprs);
    let mpd = mpd_text(reprs, t);
    assert(mpd =~= (head + buffer + middle) + video + (audio + tail));
    assert(mpd =~= (head + buffer + middle + video) + audio + tail);
    assert(mpd =~= head + buffer + (middle + video + audio + tail));
    if begins_with(reprs[k].mime_type, "video"@) {
        lemma_representations(reprs, "video"@, t, n, k, p);
        lemma_adaptation(reprs, "video"@, t, k, p);
        lemma_held_inside(head + buffer + middle, video, audio + tail, p);
    } else {
        lemma_representations(reprs, "audio"@, t, n, k, p);
        lemma_adaptation(reprs, "audio"@, t, k, p);
        lemma_held_inside(head + buffer + middle + video, audio, tail, p);
    }
    reveal_strlit("S\" ");
    reveal_strlit("S\"");
    let asked = "minBufferTime=\"PT"@ + decimal(2 * reprs[0].segment_duration_secs) + "S\""@;
    assert(buffer =~= none + asked + seq![' ']);
    lemma_holds(none, asked, seq![' ']);
    lemma_held_inside(head, buffer, middle + video + audio + tail, asked);
}

proof fn lemma_adaptation(
    reprs: Seq<RepresentationModel>,
    kind: Seq<char>,
    t: ManifestTemplates,
    k: int,
    p: Seq<char>,
)
    requires
        0 <= k < reprs.len(),
        begins_with(reprs[k].mime_type, kind),
        holds_text(representations_text(reprs, kind, t, reprs.len() as int), p),
    ensures
        holds_text(adaptation_text(reprs, kind, t), p),
{
    let inner = representations_text(reprs, kind, t, reprs.len() as int);
    let a = Seq::<char>::empty() + "    <AdaptationSet contentType=\""@ + kind
        + "\" segmentAlignment=\"true\" bitstreamSwitching=\"true\">\n"@;
    let b = "    </AdaptationSet>\n"@;
    assert(any_of_kind(reprs, kind, reprs.len() as int));
    assert(adaptation_text(reprs, kind, t) =~= a + inner + b);
    lemma_held_inside(a, inner, b, p);
}

/// Whether a manifest describes a representation: its name, type and codecs,
/// its picture size where it has one, its bandwidth, and where its segments
/// are.
pub open spec fn describes_representation(
    text: Seq<char>,
    r: RepresentationModel,
    t: ManifestTemplates,
) -> bool {
    &&& holds_text(text, "<Representation id=\""@ + r.id + "\""@)
    &&& holds_text(text, "mimeType=\""@ + r.mime_type + "\""@)
    &&& holds_text(text, "codecs=\""@ + r.codecs + "\""@)
    &&& r.width > 0 ==> holds_text(
        text,
        "width=\""@ + decimal(r.width as int) + "\" height=\""@ + decimal(r.height as int) + "\""@,
    )
    &&& holds_text(text, "bandwidth=\""@ + decimal(r.bandwidth as int) + "\""@)
    &&& holds_text(text, "initialization=\""@ + t.init_template + "\""@)
    &&& holds_text(text, "media=\""@ + t.media_template + "\""@)
}

proof fn lemma_quoted(
    text: Seq<char>,
    front: Seq<char>,
    before: Seq<char>,
    name: Seq<char>,
    value: Seq<char>,
    after: Seq<char>,
    back: Seq<char>,
)
    requires
        text == front + (before + name) + value + (after + back),
        after.len() > 0,
        after[0] == '"',
    ensures
        holds_text(text, name + value + "\""@),
{
    reveal_strlit("\"");
    let p = name + value + "\""@;
    let a = front + before;
    let b = after.skip(1) + back;
    assert(text =~= a + p + b);
    lemma_holds(a, p, b);
}

proof fn lemma_id_told(r: RepresentationModel, t: ManifestTemplates)
    ensures
        holds_text(representation_text(r, t), "<Representation id=\""@ + r.id + "\""@),
{
    reveal_strlit("      <Representation id=\"");
    reveal_strlit("<Representation id=\"");
    reveal_strlit("\" mimeType=\"");
    let text = representation_text(r, t);
    let front = Seq::<char>::empty();
    let before = seq![' ', ' ', ' ', ' ', ' ', ' '];
    let name = "<Representation id=\""@;
    let back = r.mime_type + "\" codecs=\""@ + r.codecs + "\" "@ + crate::mp4::dash::size_text(r)
        + "bandwidth=\""@ + decimal(r.bandwidth as int)
        + "\" frameRate=\"30\" >\n        <SegmentTemplate timescale=\""@
        + decimal(r.timescale as int) + "\" duration=\""@
        + decimal(r.segment_duration_secs * r.timescale) + "\" startNumber=\""@
        + decimal(t.start_number as int) + "\" initialization=\""@ + t.init_template
        + "\" media=\""@ + t.media_template + "\" />\n      </Representation>\n"@;
    assert("      <Representation id=\""@ =~= before + name);
    assert(text =~= front + (before + name) + r.id + ("\" mimeType=\""@ + back));
    lemma_quoted(text, front, before, name, r.id, "\" mimeType=\""@, back);
}

proof fn lemma_type_told(r: RepresentationModel, t: ManifestTemplates)
    ensures
        holds_text(representation_text(r, t), "mimeType=\""@ + r.mime_type + "\""@),
{
    reveal_strlit("\" mimeType=\"");
    reveal_strlit("mimeType=\"");
    reveal_strlit("\" codecs=\"");
    let text = representation_text(r, t);
    let front = Seq::<char>::empty() + "      <Representation id=\""@ + r.id;
    let before = seq!['"', ' '];
    let name = "mimeType=\""@;
    let back = r.codecs + "\" "@ + crate::mp4::dash::size_text(r) + "bandwidth=\""@
        + decimal(r.bandwidth as int)
        + "\" frameRate=\"30\" >\n        <SegmentTemplate timescale=\""@
        + decimal(r.timescale as int) + "\" duration=\""@
        + decimal(r.segment_duration_secs * r.timescale) + "\" startNumber=\""@
        + decimal(t.start_number as int) + "\" initialization=\""@ + t.init_template
        + "\" media=\""@ + t.media_template + "\" />\n      </Representation>\n"@;
    assert("\" mimeType=\""@ =~= before + name);
    assert(text =~= front + (before + name) + r.mime_type + ("\" codecs=\""@ + back));
    lemma_quoted(text, front, before, name, r.mime_type, "\" codecs=\""@, back);
}

proof fn lemma_codecs_told(r: RepresentationModel, t: ManifestTemplates)
    ensures
        holds_text(representation_text(r, t), "codecs=\""@ + r.codecs + "\""@),
{
    reveal_strlit("\" codecs=\"");
    reveal_strlit("codecs=\"");
    reveal_strlit("\" ");
    let text = representation_text(r, t);
    let front = Seq::<char>::empty() + "      <Representation id=\""@ + r.id + "\" mimeType=\""@
        + r.mime_type;
    let before = seq!['"', ' '];
    let name = "codecs=\""@;
    let back = crate::mp4::dash::size_text(r) + "bandwidth=\""@ + decimal(r.bandwidth as int)
        + "\" frameRate=\"30\" >\n        <SegmentTemplate timescale=\""@
        + decimal(r.timescale as int) + "\" duration=\""@
        + decimal(r.segment_duration_secs * r.timescale) + "\" startNumber=\""@
        + decimal(t.start_number as int) + "\" initialization=\""@ + t.init_template
        + "\" media=\""@ + t.media_template + "\" />\n      </Representation>\n"@;
    assert("\" codecs=\""@ =~= before + name);
    assert(text =~= front + (before + name) + r.codecs + ("\" "@ + back));
    lemma_quoted(text, front, before, name, r.codecs, "\" "@, back);
}

proof fn lemma_bandwidth_told(r: RepresentationModel, t: ManifestTemplates)
    ensures
        holds_text(representation_text(r, t), "bandwidth=\""@ + decimal(r.bandwidth as int)
            + "\""@),
{
    reveal_strlit("\" frameRate=\"30\" >\n        <SegmentTemplate timescale=\"");
    let text = representation_text(r, t);
    let front = Seq::<char>::empty() + "      <Representation id=\""@ + r.id + "\" mimeType=\""@
        + r.mime_type + "\" codecs=\""@ + r.codecs + "\" "@ + crate::mp4::dash::size_text(r);
    let before = Seq::<char>::empty();
    let name = "bandwidth=\""@;
    let back = decimal(r.timescale as int) + "\" duration=\""@
        + decimal(r.segment_duration_secs * r.timescale) + "\" startNumber=\""@
        + decimal(t.start_number as int) + "\" initialization=\""@ + t.init_template
        + "\" media=\""@ + t.media_template + "\" />\n      </Representation>\n"@;
    assert("bandwidth=\""@ =~= before + name);
    assert(text =~= front + (before + name) + decimal(r.bandwidth as int)
        + ("\" frameRate=\"30\" >\n        <SegmentTemplate timescale=\""@ + back));
    lemma_quoted(text, front, before, name, decimal(r.bandwidth as int), "\" frameRate=\"30\" >\n        <SegmentTemplate timescale=\""@, back);
}

proof fn lemma_init_told(r: RepresentationModel, t: ManifestTemplates)
    ensures
        holds_text(representation_text(r, t), "initialization=\""@ + t.init_template + "\""@),
{
    reveal_strlit("\" initialization=\"");
    reveal_strlit("initialization=\"");
    reveal_strlit("\" media=\"");
    let text = representation_text(r, t);
    let front = Seq::<char>::empty() + "      <Representation id=\""@ + r.id + "\" mimeType=\""@
        + r.mime_type + "\" codecs=\""@ + r.codecs + "\" "@ + crate::mp4::dash::size_text(r)
        + "bandwidth=\""@ + decimal(r.bandwidth as int)
        + "\" frameRate=\"30\" >\n        <SegmentTemplate timescale=\""@
        + decimal(r.timescale as int) + "\" duration=\""@
        + decimal(r.segment_duration_secs * r.timescale) + "\" startNumber=\""@
        + decimal(t.start_number as int);
    let before = seq!['"', ' '];
    let name = "initialization=\""@;
    let back = t.media_template + "\" />\n      </Representation>\n"@;
    assert("\" initialization=\""@ =~= before + name);
    assert(text =~= front + (before + name) + t.init_template + ("\" media=\""@ + back));
    lemma_quoted(text, front, before, name, t.init_template, "\" media=\""@, back);
}

proof fn lemma_media_told(r: RepresentationModel, t: ManifestTemplates)
    ensures
        holds_text(representation_text(r, t), "media=\""@ + t.media_template + "\""@),
{
    reveal_strlit("\" media=\"");
    reveal_strlit("media=\"");
    reveal_strlit("\" />\n      </Representation>\n");
    let text = representation_text(r, t);
    let front = Seq::<char>::empty() + "      <Representation id=\""@ + r.id + "\" mimeType=\""@
        + r.mime_type + "\" codecs=\""@ + r.codecs + "\" "@ + crate::mp4::dash::size_text(r)
        + "bandwidth=\""@ + decimal(r.bandwidth as int)
        + "\" frameRate=\"30\" >\n        <SegmentTemplate timescale=\""@
        + decimal(r.timescale as int) + "\" duration=\""@
        + decimal(r.segment_duration_secs * r.timescale) + "\" startNumber=\""@
        + decimal(t.start_number as int) + "\" initialization=\""@ + t.init_template;
    let before = seq!['"', ' '];
    let name = "media=\""@;
    let back = Seq::<char>::empty();
    assert("\" media=\""@ =~= before + name);
    assert(text =~= front + (before + name) + t.media_template
        + ("\" />\n      </Representation>\n"@ + back));
    lemma_quoted(text, front, before, name, t.media_template, "\" />\n      </Representation>\n"@, back);
}

proof fn lemma_size_told(r: RepresentationModel, t: ManifestTemplates)
    requires
        r.width > 0,
    ensures
        holds_text(
            representation_text(r, t),
            "width=\""@ + decimal(r.width as int) + "\" height=\""@ + decimal(r.height as int)
                + "\""@,
        ),
{
    reveal_strlit("\" ");
    reveal_strlit("\"");
    let text = representation_text(r, t);
    let size = crate::mp4::dash::size_text(r);
    let p = "width=\""@ + decimal(r.width as int) + "\" height=\""@ + decimal(r.height as int)
        + "\""@;
    let front = Seq::<char>::empty() + "      <Representation id=\""@ + r.id + "\" mimeType=\""@
        + r.mime_type + "\" codecs=\""@ + r.codecs + "\" "@;
    let back = "bandwidth=\""@ + decimal(r.bandwidth as int)
        + "\" frameRate=\"30\" >\n        <SegmentTemplate timescale=\""@
        + decimal(r.timescale as int) + "\" duration=\""@
        + decimal(r.segment_duration_secs * r.timescale) + "\" startNumber=\""@
        + decimal(t.start_number as int) + "\" initialization=\""@ + t.init_template
        + "\" media=\""@ + t.media_template + "\" />\n      </Representation>\n"@;
    assert("\" "@ =~= "\""@ + seq![' ']);
    assert(size =~= Seq::<char>::empty() + p + seq![' ']);
    lemma_holds(Seq::empty(), p, seq![' ']);
    assert(text =~= front + size + back);
    lemma_held_inside(front, size, back, p);
}

proof fn lemma_described(r: RepresentationModel, t: ManifestTemplates)
    ensures
        describes_representation(representation_text(r, t), r, t),
{
    lemma_id_told(r, t);
    lemma_type_told(r, t);
    lemma_codecs_told(r, t);
    lemma_bandwidth_told(r, t);
    lemma_init_told(r, t);
    lemma_media_told(r, t);
    if r.width > 0 {
        lemma_size_told(r, t);
    }
}

/// The manifest describes every representation of pictures or sound.
pub proof fn law_manifest_describes_representations(
    reprs: Seq<RepresentationModel>,
    t: ManifestTemplates,
    k: int,
)
    requires
        0 <= k < reprs.len(),
        begins_with(reprs[k].mime_type, "video"@) || begins_with(reprs[k].mime_type, "audio"@),
    ensures
        describes_representation(mpd_text(reprs, t), reprs[k], t),
{
    let r = reprs[k];
    lemma_described(r, t);
    lemma_told(reprs, t, k, "<Representation id=\""@ + r.id + "\""@);
    lemma_told(reprs, t, k, "mimeType=\""@ + r.mime_type + "\""@);
    lemma_told(reprs, t, k, "codecs=\""@ + r.codecs + "\""@);
    if r.width > 0 {
        lemma_told(
            reprs,
            t,
            k,
            "width=\""@ + decimal(r.width as int) + "\" height=\""@ + decimal(r.height as int)
                + "\""@,
        );
    }
    lemma_told(reprs, t, k, "bandwidth=\""@ + decimal(r.bandwidth as int) + "\""@);
    lemma_told(reprs, t, k, "initialization=\""@ + t.init_template + "\""@);
    lemma_told(reprs, t, k, "media=\""@ + t.media_template + "\""@);
}

proof fn lemma_told(
    reprs: Seq<RepresentationModel>,
    t: ManifestTemplates,
    k: int,
    p: Seq<char>,
)
    requires
        0 <= k < reprs.len(),
        begins_with(reprs[k].mime_type, "video"@) || begins_with(reprs[k].mime_type, "audio"@),
        holds_text(representation_text(reprs[k], t), p),
    ensures
        holds_text(mpd_text(reprs, t), p),
{
    let n = reprs.len() as int;
    let head = Seq::<char>::empty() + "<?xml version=\"1.0\" encoding=\"utf-8\"?>\n"@
        + "<MPD xmlns=\"urn:mpeg:dash:schema:mpd:2011\" "@
        + "xmlns:xsi=\"http://www.w3.org/2001/XMLSchema-instance\" "@
        + "xsi:schemaLocation=\"urn:mpeg:dash:schema:mpd:2011 DASH-MPD.xsd\" "@
        + "profiles=\"urn:mpeg:dash:profile:isoff-live:2011\" "@ + "type=\"dynamic\" "@
        + buffer_text(reprs) + "minimumUpdatePeriod=\"PT2S\">\n"@
        + "  <Period id=\"0\" start=\"PT0S\">\n"@;
    let video = adaptation_text(reprs, "video"@, t);
    let audio = adaptation_text(reprs, "audio"@, t);
    let tail = "  </Period>\n"@ + "</MPD>\n"@;
    let mpd = mpd_text(reprs, t);
    assert(mpd =~= head + video + (audio + tail));
    assert(mpd =~= (head + video) + audio + tail);
    if begins_with(reprs[k].mime_type, "video"@) {
        lemma_representations(reprs, "video"@, t, n, k, p);
        lemma_adaptation(reprs, "video"@, t, k, p);
        lemma_held_inside(head, video, audio + tail, p);
    } else {
        lemma_representations(reprs, "audio"@, t, n, k, p);
        lemma_adaptation(reprs, "audio"@, t, k, p);
        lemma_held_inside(head + video, audio, tail, p);
    }
}

/// A live track is described on its own clock, with segments of four seconds:
/// pictures on a clock of 90 kHz with their size, sound at its sampling
/// frequency.
pub proof fn law_live_track_is_described(tracks: Seq<TrackInfo>, i: int)
    requires
        0 <= i < tracks.len(),
    ensures
        ({
            let r = live_representations(tracks)[i];
            &&& live_representations(tracks).len() == tracks.len()
            &&& r.segment_duration_secs == 4
            &&& match tracks[i] {
                TrackInfo::Video(v) => r.id == "v0"@ && r.mime_type == "video/mp4"@ && r.timescale
                    == 90000 && r.width == v.width && r.height == v.height && r.bandwidth == 2000000
                    && (v.codec == CodecId::H264 ==> r.codecs == "avc1.64001f"@) && (v.codec
                    == CodecId::H265 ==> r.codecs == "hev1.1.6.L93.B0"@),
                TrackInfo::Audio(a) => r.id == "a0"@ && r.mime_type == "audio/mp4"@ && r.timescale
                    == a.sample_rate && r.width == 0 && r.height == 0 && r.bandwidth == 128000 && (
                a.codec == CodecId::AAC ==> r.codecs == "mp4a.40.2"@) && (a.codec == CodecId::Opus
                    ==> r.codecs == "opus"@),
            }
        }),
{
}

// ── codec strings ───────────────────────────────────────────────────────

/// A byte with the given bits, the highest first.
pub open spec fn byte_of(bits: Seq<int>, i: int) -> int {
    bits[i] * 128 + bits[i + 1] * 64 + bits[i + 2] * 32 + bits[i + 3] * 16 + bits[i + 4] * 8
        + bits[i + 5] * 4 + bits[i + 6] * 2 + bits[i + 7]
}

/// A byte with the given bits, the lowest first.
pub open spec fn mirrored(bits: Seq<int>, i: int) -> int {
    bits[i] + bits[i + 1] * 2 + bits[i + 2] * 4 + bits[i + 3] * 8 + bits[i + 4] * 16 + bits[i + 5]
        * 32 + bits[i + 6] * 64 + bits[i + 7] * 128
}

proof fn lemma_mirrored(b: u8, bits: Seq<int>, i: int)
    requires
        0 <= i,
        i + 8 <= bits.len(),
        forall|j: int| 0 <= j < bits.len() ==> 0 <= #[trigger] bits[j] <= 1,
        b == byte_of(bits, i),
    ensures
        reversed_bits(b) == mirrored(bits, i),
{
    let v = b as int;
    assert(v / 128 == bits[i]);
    assert(v / 64 == 2 * bits[i] + bits[i + 1]);
    assert(v / 32 == 4 * bits[i] + 2 * bits[i + 1] + bits[i + 2]);
    assert(v / 16 == 8 * bits[i] + 4 * bits[i + 1] + 2 * bits[i + 2] + bits[i + 3]);
    assert(v / 8 == 16 * bits[i] + 8 * bits[i + 1] + 4 * bits[i + 2] + 2 * bits[i + 3] + bits[i
        + 4]);
    assert(v / 4 == 32 * bits[i] + 16 * bits[i + 1] + 8 * bits[i + 2] + 4 * bits[i + 3] + 2
        * bits[i + 4] + bits[i + 5]);
    assert(v / 2 == 64 * bits[i] + 32 * bits[i + 1] + 16 * bits[i + 2] + 8 * bits[i + 3] + 4
        * bits[i + 4] + 2 * bits[i + 5] + bits[i + 6]);
}

/// The compatibility flags in the string of an HEVC stream are those of its
/// record with the first one lowest. Here `bits` are the 32 flags as the record
/// has them, the highest of each byte first.
pub proof fn law_compatibility_flags_are_mirrored(hvcc: Seq<u8>, bits: Seq<int>)
    requires
        hvcc.len() >= 16,
        bits.len() == 32,
        forall|j: int| 0 <= j < 32 ==> 0 <= #[trigger] bits[j] <= 1,
        hvcc[2] == byte_of(bits, 0),
        hvcc[3] == byte_of(bits, 8),
        hvcc[4] == byte_of(bits, 16),
        hvcc[5] == byte_of(bits, 24),
    ensures
        compatibility_flags(hvcc) == mirrored(bits, 0) + 256 * mirrored(bits, 8) + 65536
            * mirrored(bits, 16) + 16777216 * mirrored(bits, 24),
{
    lemma_mirrored(hvcc[2], bits, 0);
    lemma_mirrored(hvcc[3], bits, 8);
    lemma_mirrored(hvcc[4], bits, 16);
    lemma_mirrored(hvcc[5], bits, 24);
}

/// The string of an HEVC stream names the profile space by a letter, the
/// profile, the flags, the tier by a letter, the level, and the constraint
/// bytes up to the last one that is not zero.
pub proof fn law_hevc_string_is_told(
    hvcc: Seq<u8>,
    space: int,
    tier: int,
    profile: int,
    constraints: Seq<u8>,
    zeros: nat,
)
    requires
        hvcc.len() >= 16,
        hvcc[0] == 1,
        0 <= space < 4,
        0 <= tier < 2,
        0 <= profile < 32,
        hvcc[1] == space * 64 + tier * 32 + profile,
        hvcc.subrange(6, 12) == constraints + Seq::new(zeros, |i: int| 0u8),
        constraints.len() > 0 ==> constraints.last() != 0,
    ensures
        codec_text(CodecId::H265, hvcc) == "hev1."@ + (if space == 0 {
            Seq::empty()
        } else {
            seq![(64 + space) as char]
        }) + decimal(profile) + "."@ + hexadecimal(compatibility_flags(hvcc)) + (if tier == 0 {
            ".L"@
        } else {
            ".H"@
        }) + decimal(hvcc[12] as int) + dotted(constraints),
{
    reveal_strlit("");
    reveal_strlit("A");
    reveal_strlit("B");
    reveal_strlit("C");
    lemma_zeros(constraints, zeros);
    let v = hvcc[1] as int;
    assert(v / 64 == space);
    assert(v % 32 == profile);
    assert(v / 32 == 2 * space + tier);
    let letter = if space == 0 {
        Seq::<char>::empty()
    } else {
        seq![(64 + space) as char]
    };
    assert(65 as char == 'A' && 66 as char == 'B' && 67 as char == 'C');
    assert(crate::mp4::dash::profile_space_text(space) =~= letter);
}

proof fn lemma_zeros(a: Seq<u8>, zeros: nat)
    requires
        a.len() > 0 ==> a.last() != 0,
    ensures
        without_zeros(a + Seq::new(zeros, |i: int| 0u8)) == a,
    decreases zeros,
{
    let s = a + Seq::new(zeros, |i: int| 0u8);
    if zeros == 0 {
        assert(s =~= a);
    } else {
        assert(s.drop_last() =~= a + Seq::new((zeros - 1) as nat, |i: int| 0u8));
        assert(s.last() == 0);
        lemma_zeros(a, (zeros - 1) as nat);
    }
}

/// A tag header of five bytes before an HEVC record does not count, and a
/// record that is too short says nothing of the stream.
pub proof fn law_hevc_header_does_not_count(hvcc: Seq<u8>, header: Seq<u8>)
    requires
        hvcc.len() >= 3,
        hvcc[0] == 1,
        header.len() == 5,
        header[0] != 1,
    ensures
        codec_text(CodecId::H265, header + hvcc) == codec_text(CodecId::H265, hvcc),
        hvcc.len() < 16 ==> codec_text(CodecId::H265, hvcc) == "hev1.1.6.L93.B0"@,
{
    assert((header + hvcc).skip(5) =~= hvcc);
}

/// Constraint bytes are written one by one, each in hexadecimal digits behind
/// a dot.
pub proof fn law_constraints_are_written(bytes: Seq<u8>, b: u8)
    ensures
        dotted(bytes.push(b)) == dotted(bytes) + seq!['.'] + hexadecimal(b as int),
        dotted(Seq::empty()) == Seq::<char>::empty(),
{
    reveal_strlit(".");
    assert(bytes.push(b).drop_last() =~= bytes);
    assert("."@ =~= seq!['.']);
}

/// The string of an AVC stream holds the profile, the compatibility and the
/// level of its record, in two hexadecimal digits each, whether or not a tag
/// header of five bytes precedes the record.
pub proof fn law_avc_string_is_told(record: Seq<u8>, header: Seq<u8>)
    requires
        record.len() >= 4,
        record[0] == 1,
        header.len() == 5,
        header[0] != 1,
    ensures
        codec_text(CodecId::H264, record) == "avc1."@ + hex_byte(record[1]) + hex_byte(record[2])
            + hex_byte(record[3]),
        codec_text(CodecId::H264, header + record) == codec_text(CodecId::H264, record),
{
    assert((header + record).skip(5) =~= record);
}

/// A byte in hexadecimal digits has two of them and reads back.
pub proof fn law_byte_in_digits_reads_back(b: u8)
    ensures
        hex_byte(b).len() == 2,
        crate::text::hex_digits_value(hex_byte(b)) == Some(b as int),
{
    let s = hex_byte(b);
    crate::text_laws::law_hexadecimal_digits(b as int / 16);
    crate::text_laws::law_hexadecimal_digits(b as int % 16);
    lemma_hex_char(s[0], b as int / 16);
    lemma_hex_char(s[1], b as int % 16);
    assert(s.drop_last() =~= seq![s[0]]);
    assert(seq![s[0]].drop_last() =~= Seq::<char>::empty());
    reveal_with_fuel(crate::text::hex_digits_value, 3);
}

proof fn lemma_hex_char(c: char, n: int)
    requires
        0 <= n < 16,
        (n < 10 ==> c == (0x30 + n) as char) && (n >= 10 ==> c == (0x61 + n - 10) as char || c == (
        0x41 + n - 10) as char),
    ensures
        crate::text::hex_char_value(c) == Some(n),
{
    crate::text_laws::law_hexadecimal_digits(n);
}

/// The string of an AAC stream names its object type: five bits, or, from 32
/// on, six bits behind five that are set.
pub proof fn law_aac_string_is_told(asc: Seq<u8>, kind: int, low: int)
    requires
        asc.len() >= 2,
        asc[0] != 0xaf,
        0 <= kind < 96,
        kind < 31 ==> 0 <= low < 8 && asc[0] == kind * 8 + low,
        kind >= 31 ==> kind >= 32 && 0 <= low < 32 && asc[0] == 31 * 8 + (kind - 32) / 8 && asc[1]
            == (kind - 32) % 8 * 32 + low,
    ensures
        codec_text(CodecId::AAC, asc) == "mp4a.40."@ + decimal(kind),
        forall|b: u8|
            codec_text(CodecId::AAC, #[trigger] (seq![0xafu8].push(b) + asc)) == "mp4a.40."@
                + decimal(kind),
{
    assert forall|b: u8| codec_text(CodecId::AAC, #[trigger] (seq![0xafu8].push(b) + asc))
        == codec_text(CodecId::AAC, asc) by {
        let tagged = seq![0xafu8].push(b) + asc;
        assert(tagged[0] == 0xaf);
        assert(tagged.skip(2) =~= asc);
    }
    let v = asc[0] as int;
    if kind < 31 {
        assert(v / 8 == kind);
    } else {
        let a = (kind - 32) / 8;
        let b = (kind - 32) % 8;
        assert(0 <= a < 8);
        assert(v / 8 == 31 && v % 8 == a);
        assert(asc[1] as int / 32 == b);
    }
}

/// The numbers of codecs in FLV tags.
pub proof fn law_codecs_have_numbers(codec: CodecId)
    ensures
        sound_format(codec) == 2 <==> codec == CodecId::Mp3,
        sound_format(codec) == 7 <==> codec == CodecId::G711A,
        sound_format(codec) == 8 <==> codec == CodecId::G711U,
        sound_format(codec) == 13 <==> codec == CodecId::Opus,
        sound_format(codec) == 14 <==> codec == CodecId::L16,
        codec == CodecId::AAC ==> sound_format(codec) == 10,
        video_codec_number(codec) == 12 <==> codec == CodecId::H265,
        video_codec_number(codec) == 8 <==> codec == CodecId::VP8,
        video_codec_number(codec) == 9 <==> codec == CodecId::VP9,
        video_codec_number(codec) == 13 <==> codec == CodecId::AV1,
        codec == CodecId::H264 ==> video_codec_number(codec) == 7,
{
}

// ── recordings ──────────────────────────────────────────────────────────

/// A recorder after live frames.
pub open spec fn recorded_all(
    m: RecorderModel,
    frames: Seq<(FrameModel, bool, Option<Seq<u8>>)>,
) -> RecorderModel
    decreases frames.len(),
{
    if frames.len() == 0 {
        m
    } else {
        let f = frames.last();
        recorded(recorded_all(m, frames.drop_last()), f.0, f.1, f.2)
    }
}

/// A recording lasts from the earliest to the latest of its live frames,
/// whatever their order. Here `first` and `last` are the places of those.
pub proof fn law_recording_lasts_as_its_frames(
    m: RecorderModel,
    frames: Seq<(FrameModel, bool, Option<Seq<u8>>)>,
    first: int,
    last: int,
)
    requires
        m.min_dts is None,
        m.max_dts is None,
        0 <= first < frames.len(),
        0 <= last < frames.len(),
        forall|i: int|
            0 <= i < frames.len() ==> frames[first].0.dts <= (#[trigger] frames[i]).0.dts
                <= frames[last].0.dts,
    ensures
        recorded_ms(recorded_all(m, frames)) == frames[last].0.dts - frames[first].0.dts,
        recorded_ms(m) == 0,
{
    lemma_recorded(m, frames);
    let r = recorded_all(m, frames);
    let a = choose|a: int|
        0 <= a < frames.len() && r.min_dts == Some((#[trigger] frames[a]).0.dts);
    let b = choose|b: int|
        0 <= b < frames.len() && r.max_dts == Some((#[trigger] frames[b]).0.dts);
    assert(r.min_dts->0 <= frames[first].0.dts <= r.max_dts->0);
    assert(r.min_dts->0 <= frames[last].0.dts <= r.max_dts->0);
    assert(frames[first].0.dts <= frames[a].0.dts);
    assert(frames[b].0.dts <= frames[last].0.dts);
}

proof fn lemma_recorded(m: RecorderModel, frames: Seq<(FrameModel, bool, Option<Seq<u8>>)>)
    requires
        m.min_dts is None,
        m.max_dts is None,
    ensures
        ({
            let r = recorded_all(m, frames);
            &&& frames.len() == 0 ==> r == m
            &&& frames.len() > 0 ==> {
                &&& r.min_dts is Some
                &&& r.max_dts is Some
                &&& exists|a: int|
                    0 <= a < frames.len() && r.min_dts == Some((#[trigger] frames[a]).0.dts)
                &&& exists|b: int|
                    0 <= b < frames.len() && r.max_dts == Some((#[trigger] frames[b]).0.dts)
                &&& forall|i: int|
                    0 <= i < frames.len() ==> r.min_dts->0 <= (#[trigger] frames[i]).0.dts
                        <= r.max_dts->0
            }
        }),
    decreases frames.len(),
{
    if frames.len() > 0 {
        let front = frames.drop_last();
        lemma_recorded(m, front);
        let before = recorded_all(m, front);
        let r = recorded_all(m, frames);
        let n = frames.len() - 1;
        assert(frames[n] == frames.last());
        if front.len() > 0 {
            let a = choose|a: int|
                0 <= a < front.len() && before.min_dts == Some((#[trigger] front[a]).0.dts);
            let b = choose|b: int|
                0 <= b < front.len() && before.max_dts == Some((#[trigger] front[b]).0.dts);
            assert(frames[a] == front[a] && frames[b] == front[b]);
        }
        assert forall|i: int| 0 <= i < frames.len() implies r.min_dts->0 <= (
        #[trigger] frames[i]).0.dts <= r.max_dts->0 by {
            if i < n {
                assert(front[i] == frames[i]);
            }
        }
    }
}

/// Frames that were published before the recording started are kept, and do
/// not count for how long it lasts; every live frame counts, configurations
/// too.
pub proof fn law_only_live_frames_count(
    m: RecorderModel,
    frame: FrameModel,
    is_config: bool,
    payload: Option<Seq<u8>>,
)
    ensures
        recorded_ms(cached(m, frame, is_config, payload)) == recorded_ms(m),
        is_config ==> cached(m, frame, is_config, payload).muxer == m.muxer,
        !is_config ==> cached(m, frame, is_config, payload).muxer == recorded(
            m,
            frame,
            is_config,
            payload,
        ).muxer,
        recorded(m, frame, is_config, payload).min_dts->0 <= frame.dts <= recorded(
            m,
            frame,
            is_config,
            payload,
        ).max_dts->0,
{
}

/// The files of a recording in fragments are numbered from zero on, without
/// gaps: a segment that was written gives the next one the next number, and one
/// that was not written gives it the same number.
pub proof fn law_segment_files_are_numbered(
    m: Fmp4RecorderModel,
    frame: FrameModel,
    payload: Option<Seq<u8>>,
)
    requires
        m.seg_index < u32::MAX,
        next_file(m) is Some,
        next_file(fragment_taken((next_file(m)->0).2, frame, false, payload)) is Some,
    ensures
        ({
            let (name, data, after) = next_file(m)->0;
            let unwritten = next_file(fragment_taken(after, frame, false, payload))->0;
            let written = next_file(fragment_taken(counted(after), frame, false, payload));
            &&& name == "seg-"@ + decimal(m.seg_index as int) + ".m4s"@
            &&& unwritten.0 == name
            &&& written is Some
            &&& (written->0).0 == "seg-"@ + decimal(m.seg_index + 1) + ".m4s"@
            &&& (written->0).1 == unwritten.1
            &&& data == flushed_segment(m.muxer).data
        }),
        next_file((next_file(m)->0).2) is None,
        fragment_taken(m, frame, true, payload) == m,
{
}

// ── names of files ──────────────────────────────────────────────────────

/// Bytes with a percent sign and two hexadecimal digits for each.
pub open spec fn escaped(data: Seq<u8>) -> Seq<u8>
    decreases data.len(),
{
    if data.len() == 0 {
        Seq::empty()
    } else {
        seq![0x25u8, encode_hex(data[0] as int / 16), encode_hex(data[0] as int % 16)] + escaped(
            data.skip(1),
        )
    }
}

/// A hexadecimal digit as a byte.
pub open spec fn encode_hex(n: int) -> u8 {
    if n < 10 {
        (48 + n) as u8
    } else {
        (55 + n) as u8
    }
}

/// Bytes that are escaped are read as they were.
pub proof fn law_escaped_bytes_are_read(data: Seq<u8>)
    ensures
        percent_bytes(escaped(data)) == Some(data),
    decreases data.len(),
{
    if data.len() > 0 {
        law_escaped_bytes_are_read(data.skip(1));
        let e = escaped(data);
        let high = data[0] as int / 16;
        let low = data[0] as int % 16;
        assert(e.skip(3) =~= escaped(data.skip(1)));
        assert(hex_value(encode_hex(high)) == Some(high));
        assert(hex_value(encode_hex(low)) == Some(low));
        assert(seq![(high * 16 + low) as u8] + data.skip(1) =~= data);
    } else {
        assert(data =~= Seq::<u8>::empty());
    }
}

/// Escaped and other bytes may follow one another; a percent sign without two
/// hexadecimal digits behind it is refused.
pub proof fn law_other_bytes_stay(b: u8, high: u8, low: u8, rest: Seq<u8>)
    requires
        percent_bytes(rest) is Some,
    ensures
        b != 0x25 ==> percent_bytes(seq![b] + rest) == Some(seq![b] + percent_bytes(rest)->0),
        percent_bytes(seq![0x25u8]) is None,
        percent_bytes(seq![0x25u8, b]) is None,
        hex_value(high) is None || hex_value(low) is None ==> percent_bytes(
            seq![0x25u8, high, low] + rest,
        ) is None,
        hex_value(high) is Some && hex_value(low) is Some ==> percent_bytes(
            seq![0x25u8, high, low] + rest,
        ) == Some(seq![(hex_value(high)->0 * 16 + hex_value(low)->0) as u8]
            + percent_bytes(rest)->0),
{
    assert((seq![b] + rest).skip(1) =~= rest);
    assert((seq![0x25u8, high, low] + rest).skip(3) =~= rest);
}

proof fn lemma_plain_bytes(b: Seq<u8>)
    requires
        forall|i: int| 0 <= i < b.len() ==> #[trigger] b[i] != 0x25,
    ensures
        percent_bytes(b) == Some(b),
    decreases b.len(),
{
    if b.len() > 0 {
        assert forall|i: int| 0 <= i < b.skip(1).len() implies #[trigger] b.skip(1)[i] != 0x25 by {
            assert(b.skip(1)[i] == b[i + 1]);
        }
        lemma_plain_bytes(b.skip(1));
        assert(seq![b[0]] + b.skip(1) =~= b);
    } else {
        assert(b =~= Seq::<u8>::empty());
    }
}

/// A recording is found below the root by the name of its file: what lies in a
/// directory and ends with `.mp4`, in any case of letters, and holds nothing
/// that leads elsewhere.
pub proof fn law_recording_is_found(root: Seq<char>, name: Seq<char>)
    requires
        root.len() > 0,
        root.last() != '/',
        name.len() > 0,
        vstd::utf8::is_ascii_chars(name),
        name[0] != '/',
        !name.contains('%'),
        !name.contains('\\'),
        !name.contains(':'),
        finishes_with(lowered(name), ".mp4"@),
        forall|i: int|
            0 <= i < pieces(name, '/').len() ==> #[trigger] pieces(name, '/')[i] != ".."@,
        pieces(name, '/')[0] != "."@,
    ensures
        resolved_path(root, "record"@, name) == Some(root.push('/') + name),
        forall|app: Seq<char>| app != "record"@ ==> resolved_path(root, app, name) is None,
{
    let bytes = encode_utf8(name);
    vstd::utf8::is_ascii_chars_encode_utf8(name);
    vstd::utf8::encode_utf8_valid_utf8(name);
    vstd::utf8::encode_utf8_decode_utf8(name);
    assert forall|i: int| 0 <= i < bytes.len() implies #[trigger] bytes[i] != 0x25 by {
        assert(bytes[i] == name[i] as u8);
        if bytes[i] == 0x25 {
            assert(name[i] as int == 0x25);
            assert(name[i] == '%');
        }
    }
    lemma_plain_bytes(bytes);
    assert(trim_front(name, '/') == name);
}

/// The tracks of a source are the media tracks of the file, in their order.
pub proof fn law_tracks_are_told(tracks: Seq<TrackModel>, n: int) -> (places: Seq<int>)
    requires
        0 <= n <= tracks.len(),
    ensures
        source_tracks(tracks, n).len() == places.len(),
        forall|k: int|
            0 <= k < places.len() ==> 0 <= #[trigger] places[k] < n && match source_tracks(
                tracks,
                n,
            )[k] {
                TrackInfo::Video(v) => {
                    let t = tracks[places[k]];
                    t.handler == TrackKind::Video && v.codec == t.codec && v.width == t.width
                        && v.height == t.height && v.fps == t.fps
                },
                TrackInfo::Audio(a) => {
                    let t = tracks[places[k]];
                    t.handler == TrackKind::Audio && a.codec == t.codec && a.channels == 2
                        && a.bits_per_sample == 16 && (t.sample_rate > 0 ==> a.sample_rate
                        == t.sample_rate) && a.sample_rate > 0
                },
            },
        forall|i: int, j: int|
            0 <= i < j < places.len() ==> #[trigger] places[i] < #[trigger] places[j],
        forall|i: int|
            0 <= i < n ==> (places.contains(i) <==> (#[trigger] tracks[i]).handler
                != TrackKind::Other),
    decreases n,
{
    if n == 0 {
        Seq::empty()
    } else {
        let before = law_tracks_are_told(tracks, n - 1);
        let taken = tracks[n - 1].handler != TrackKind::Other;
        let places = if taken {
            before.push(n - 1)
        } else {
            before
        };
        assert forall|i: int| 0 <= i < n implies (places.contains(i) <==> (
        #[trigger] tracks[i]).handler != TrackKind::Other) by {
            if before.contains(i) {
                let k = choose|k: int| 0 <= k < before.len() && before[k] == i;
                assert(places[k] == i);
            }
            if taken && i == n - 1 {
                assert(places[before.len() as int] == i);
            }
            if places.contains(i) && i < n - 1 {
                let k = choose|k: int| 0 <= k < places.len() && places[k] == i;
                assert(before[k] == i);
            }
        }
        places
    }
}

} // verus!
