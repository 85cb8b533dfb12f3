//! DASH manifests for live streams of fragmented MP4.
use vstd::prelude::*;
use vstd::string::*;
use crate::bytes::{slice, views};
use crate::media::CodecId;
use crate::text::{
    begins_with, chars_of, copy_text, decimal, hex_byte, hexadecimal, push_decimal,
    push_hex_byte, push_hexadecimal, starts_with,
};

verus! {

/// One track of a manifest.
#[derive(Debug)]
pub struct DashRepresentation {
    pub id: String,
    /// `video/mp4` or `audio/mp4`.
    pub mime_type: String,
    /// Codec string.
    pub codecs: String,
    /// Width in pixels, 0 for audio.
    pub width: u32,
    /// Height in pixels, 0 for audio.
    pub height: u32,
    /// Segment duration in seconds.
    pub segment_duration_secs: u32,
    /// Ticks per second.
    pub timescale: u32,
    /// Bits per second.
    pub bandwidth: u32,
}

/// The model of a representation.
pub struct RepresentationModel {
    pub id: Seq<char>,
    pub mime_type: Seq<char>,
    pub codecs: Seq<char>,
    pub width: u32,
    pub height: u32,
    pub segment_duration_secs: u32,
    pub timescale: u32,
    pub bandwidth: u32,
}

impl View for DashRepresentation {
    type V = RepresentationModel;

    open spec fn view(&self) -> RepresentationModel {
        RepresentationModel {
            id: self.id@,
            mime_type: self.mime_type@,
            codecs: self.codecs@,
            width: self.width,
            height: self.height,
            segment_duration_secs: self.segment_duration_secs,
            timescale: self.timescale,
            bandwidth: self.bandwidth,
        }
    }
}

/// What all representations of a manifest share.
pub struct ManifestTemplates {
    pub init_template: Seq<char>,
    pub media_template: Seq<char>,
    pub start_number: u64,
}

/// The picture size of a representation; nothing for audio.
pub open spec fn size_text(r: RepresentationModel) -> Seq<char> {
    if r.width > 0 {
        Seq::<char>::empty() + "width=\""@ + decimal(r.width as int) + "\" height=\""@ + decimal(
            r.height as int,
        ) + "\" "@
    } else {
        Seq::empty()
    }
}

/// The element of a representation.
pub open spec fn representation_text(r: RepresentationModel, t: ManifestTemplates) -> Seq<char> {
    Seq::<char>::empty() + "      <Representation id=\""@ + r.id + "\" mimeType=\""@ + r.mime_type
        + "\" codecs=\""@ + r.codecs + "\" "@ + size_text(r) + "bandwidth=\""@ + decimal(
        r.bandwidth as int,
    ) + "\" frameRate=\"30\" >\n        <SegmentTemplate timescale=\""@ + decimal(r.timescale as int)
        + "\" duration=\""@ + decimal(r.segment_duration_secs * r.timescale)
        + "\" startNumber=\""@ + decimal(t.start_number as int) + "\" initialization=\""@
        + t.init_template + "\" media=\""@ + t.media_template
        + "\" />\n      </Representation>\n"@
}

/// The elements of those of the first `n` representations whose type begins
/// with `kind`.
pub open spec fn representations_text(
    reprs: Seq<RepresentationModel>,
    kind: Seq<char>,
    t: ManifestTemplates,
    n: int,
) -> Seq<char>
    decreases n,
{
    if n <= 0 {
        Seq::empty()
    } else if begins_with(reprs[n - 1].mime_type, kind) {
        representations_text(reprs, kind, t, n - 1) + representation_text(reprs[n - 1], t)
    } else {
        representations_text(reprs, kind, t, n - 1)
    }
}

/// Whether one of the first `n` representations has a type that begins with
/// `kind`.
pub open spec fn any_of_kind(reprs: Seq<RepresentationModel>, kind: Seq<char>, n: int) -> bool {
    exists|i: int| 0 <= i < n && begins_with((#[trigger] reprs[i]).mime_type, kind)
}

/// The adaptation set of a kind; nothing when no representation has it.
pub open spec fn adaptation_text(
    reprs: Seq<RepresentationModel>,
    kind: Seq<char>,
    t: ManifestTemplates,
) -> Seq<char> {
    if any_of_kind(reprs, kind, reprs.len() as int) {
        Seq::<char>::empty() + "    <AdaptationSet contentType=\""@ + kind
            + "\" segmentAlignment=\"true\" bitstreamSwitching=\"true\">\n"@ + representations_text(
            reprs,
            kind,
            t,
            reprs.len() as int,
        ) + "    </AdaptationSet>\n"@
    } else {
        Seq::empty()
    }
}

/// The buffer that players are asked to keep: two segments.
pub open spec fn buffer_text(reprs: Seq<RepresentationModel>) -> Seq<char> {
    if reprs.len() > 0 {
        Seq::<char>::empty() + "minBufferTime=\"PT"@ + decimal(reprs[0].segment_duration_secs * 2)
            + "S\" "@
    } else {
        Seq::empty()
    }
}

/// The manifest.
pub open spec fn mpd_text(reprs: Seq<RepresentationModel>, t: ManifestTemplates) -> Seq<char> {
    Seq::<char>::empty() + "<?xml version=\"1.0\" encoding=\"utf-8\"?>\n"@
        + "<MPD xmlns=\"urn:mpeg:dash:schema:mpd:2011\" "@
        + "xmlns:xsi=\"http://www.w3.org/2001/XMLSchema-instance\" "@
        + "xsi:schemaLocation=\"urn:mpeg:dash:schema:mpd:2011 DASH-MPD.xsd\" "@
        + "profiles=\"urn:mpeg:dash:profile:isoff-live:2011\" "@ + "type=\"dynamic\" "@
        + buffer_text(reprs) + "minimumUpdatePeriod=\"PT2S\">\n"@
        + "  <Period id=\"0\" start=\"PT0S\">\n"@ + adaptation_text(reprs, "video"@, t)
        + adaptation_text(reprs, "audio"@, t) + "  </Period>\n"@ + "</MPD>\n"@
}

/// Whether the durations of a manifest can be written.
pub open spec fn durations_fit(reprs: Seq<RepresentationModel>) -> bool {
    &&& reprs.len() > 0 ==> reprs[0].segment_duration_secs * 2 <= u32::MAX
    &&& kind_durations_fit(reprs, "video"@)
    &&& kind_durations_fit(reprs, "audio"@)
}

/// Whether the segment durations of the representations of a kind can be
/// written.
pub open spec fn kind_durations_fit(reprs: Seq<RepresentationModel>, kind: Seq<char>) -> bool {
    forall|i: int|
        0 <= i < reprs.len() && begins_with((#[trigger] reprs[i]).mime_type, kind)
            ==> reprs[i].segment_duration_secs * reprs[i].timescale <= u32::MAX
}

/// Appends the element of a representation.
fn write_representation(
    xml: &mut String,
    r: &DashRepresentation,
    init_template: &str,
    media_template: &str,
    start_number: u64,
)
    requires
        r.segment_duration_secs * r.timescale <= u32::MAX,
    ensures
        final(xml)@ == old(xml)@ + representation_text(
            r@,
            ManifestTemplates {
                init_template: init_template@,
                media_template: media_template@,
                start_number,
            },
        ),
{
    let mut e = String::new();
    e.append("      <Representation id=\"");
    e.append(r.id.as_str());
    e.append("\" mimeType=\"");
    e.append(r.mime_type.as_str());
    e.append("\" codecs=\"");
    e.append(r.codecs.as_str());
    e.append("\" ");
    let mut size = String::new();
    if r.width > 0 {
        size.append("width=\"");
        push_decimal(&mut size, r.width as u64);
        size.append("\" height=\"");
        push_decimal(&mut size, r.height as u64);
        size.append("\" ");
    }
    assert(size@ == size_text(r@));
    e.append(size.as_str());
    e.append("bandwidth=\"");
    push_decimal(&mut e, r.bandwidth as u64);
    e.append("\" frameRate=\"30\" >\n        <SegmentTemplate timescale=\"");
    push_decimal(&mut e, r.timescale as u64);
    e.append("\" duration=\"");
    push_decimal(&mut e, (r.segment_duration_secs * r.timescale) as u64);
    e.append("\" startNumber=\"");
    push_decimal(&mut e, start_number);
    e.append("\" initialization=\"");
    e.append(init_template);
    e.append("\" media=\"");
    e.append(media_template);
    e.append("\" />\n      </Representation>\n");
    xml.append(e.as_str());
}

/// Appends the adaptation set of a kind.
fn write_adaptation(
    xml: &mut String,
    reprs: &[DashRepresentation],
    kind: &str,
    init_template: &str,
    media_template: &str,
    start_number: u64,
)
    requires
        kind_durations_fit(views(reprs@), kind@),
    ensures
        final(xml)@ == old(xml)@ + adaptation_text(
            views(reprs@),
            kind@,
            ManifestTemplates {
                init_template: init_template@,
                media_template: media_template@,
                start_number,
            },
        ),
{
    let ghost t = ManifestTemplates {
        init_template: init_template@,
        media_template: media_template@,
        start_number,
    };
    let ghost models = views(reprs@);
    let mut body = String::new();
    let mut any: bool = false;
    let mut i: usize = 0;
    while i < reprs.len()
        invariant
            i <= reprs@.len(),
            models == views(reprs@),
            kind_durations_fit(models, kind@),
            t == (ManifestTemplates {
                init_template: init_template@,
                media_template: media_template@,
                start_number,
            }),
            any == any_of_kind(models, kind@, i as int),
            body@ == representations_text(models, kind@, t, i as int),
        decreases reprs@.len() - i,
    {
        assert(models[i as int] == reprs@[i as int]@);
        let mime = chars_of(reprs[i].mime_type.as_str());
        if starts_with(mime.as_slice(), kind) {
            any = true;
            write_representation(
                &mut body,
                &reprs[i],
                init_template,
                media_template,
                start_number,
            );
        }
        i = i + 1;
    }
    if any {
        let mut e = String::new();
        e.append("    <AdaptationSet contentType=\"");
        e.append(kind);
        e.append("\" segmentAlignment=\"true\" bitstreamSwitching=\"true\">\n");
        e.append(body.as_str());
        e.append("    </AdaptationSet>\n");
        xml.append(e.as_str());
    } else {
        assert(xml@ + Seq::<char>::empty() =~= xml@);
    }
}

/// The manifest of a live stream, with one representation for each track.
pub fn build_mpd(
    representations: &[DashRepresentation],
    init_template: &str,
    media_template: &str,
    start_number: u64,
) -> (r: String)
    requires
        durations_fit(views(representations@)),
    ensures
        r@ == mpd_text(
            views(representations@),
            ManifestTemplates {
                init_template: init_template@,
                media_template: media_template@,
                start_number,
            },
        ),
{
    let ghost models = views(representations@);
    let mut buffer = String::new();
    if representations.len() > 0 {
        assert(models[0] == representations@[0]@);
        buffer.append("minBufferTime=\"PT");
        push_decimal(&mut buffer, (representations[0].segment_duration_secs * 2) as u64);
        buffer.append("S\" ");
    }
    assert(buffer@ == buffer_text(models));
    let mut xml = String::new();
    xml.append("<?xml version=\"1.0\" encoding=\"utf-8\"?>\n");
    xml.append("<MPD xmlns=\"urn:mpeg:dash:schema:mpd:2011\" ");
    xml.append("xmlns:xsi=\"http://www.w3.org/2001/XMLSchema-instance\" ");
    xml.append("xsi:schemaLocation=\"urn:mpeg:dash:schema:mpd:2011 DASH-MPD.xsd\" ");
    xml.append("profiles=\"urn:mpeg:dash:profile:isoff-live:2011\" ");
    xml.append("type=\"dynamic\" ");
    xml.append(buffer.as_str());
    xml.append("minimumUpdatePeriod=\"PT2S\">\n");
    xml.append("  <Period id=\"0\" start=\"PT0S\">\n");
    write_adaptation(
        &mut xml,
        representations,
        "video",
        init_template,
        media_template,
        start_number,
    );
    write_adaptation(
        &mut xml,
        representations,
        "audio",
        init_template,
        media_template,
        start_number,
    );
    xml.append("  </Period>\n");
    xml.append("</MPD>\n");
    xml
}

// ── codec strings ───────────────────────────────────────────────────────

/// The decoder configuration record in a configuration: the record itself, or
/// what follows a 5-byte FLV tag header.
pub open spec fn record_of(config: Seq<u8>) -> Option<Seq<u8>> {
    if config.len() >= 5 && config[0] != 1 {
        Some(config.skip(5))
    } else if config.len() >= 3 && config[0] == 1 {
        Some(config)
    } else {
        None
    }
}

/// The codec string of an AVC record.
pub open spec fn avc_string(config: Seq<u8>) -> Seq<char> {
    match record_of(config) {
        Some(avcc) => if avcc.len() >= 4 {
            "avc1."@ + hex_byte(avcc[1]) + hex_byte(avcc[2]) + hex_byte(avcc[3])
        } else {
            "avc1.64001f"@
        },
        None => "avc1.64001f"@,
    }
}

/// A byte with its bits in reverse order.
pub open spec fn reversed_bits(b: u8) -> int {
    b as int / 128 + b as int / 64 % 2 * 2 + b as int / 32 % 2 * 4 + b as int / 16 % 2 * 8
        + b as int / 8 % 2 * 16 + b as int / 4 % 2 * 32 + b as int / 2 % 2 * 64 + b as int % 2 * 128
}

/// The 32 compatibility flags of an HEVC record, the first one lowest.
pub open spec fn compatibility_flags(hvcc: Seq<u8>) -> int {
    reversed_bits(hvcc[2]) + reversed_bits(hvcc[3]) * 0x100 + reversed_bits(hvcc[4]) * 0x1_0000
        + reversed_bits(hvcc[5]) * 0x100_0000
}

/// The profile space of an HEVC record: nothing, or a letter.
pub open spec fn profile_space_text(space: int) -> Seq<char> {
    if space == 0 {
        ""@
    } else if space == 1 {
        "A"@
    } else if space == 2 {
        "B"@
    } else {
        "C"@
    }
}

/// The tier of an HEVC record, behind a dot.
pub open spec fn tier_text(tier: int) -> Seq<char> {
    if tier == 0 {
        ".L"@
    } else {
        ".H"@
    }
}

/// Bytes without the zeros at their end.
pub open spec fn without_zeros(bytes: Seq<u8>) -> Seq<u8>
    decreases bytes.len(),
{
    if bytes.len() > 0 && bytes.last() == 0 {
        without_zeros(bytes.drop_last())
    } else {
        bytes
    }
}

/// Bytes as hexadecimal numbers, each behind a dot.
pub open spec fn dotted(bytes: Seq<u8>) -> Seq<char>
    decreases bytes.len(),
{
    if bytes.len() == 0 {
        Seq::empty()
    } else {
        dotted(bytes.drop_last()) + "."@ + hexadecimal(bytes.last() as int)
    }
}

/// The codec string of an HEVC record, as RFC 6381 has it: profile space and
/// profile, the compatibility flags in reverse order, tier and level, and the
/// constraint bytes up to the last that is not zero.
pub open spec fn hevc_record_string(hvcc: Seq<u8>) -> Seq<char> {
    "hev1."@ + profile_space_text(hvcc[1] as int / 0x40) + decimal(hvcc[1] as int % 0x20) + "."@
        + hexadecimal(compatibility_flags(hvcc)) + tier_text(hvcc[1] as int / 0x20 % 2) + decimal(
        hvcc[12] as int,
    ) + dotted(without_zeros(hvcc.subrange(6, 12)))
}

/// The codec string of an HEVC configuration.
pub open spec fn hevc_string(config: Seq<u8>) -> Seq<char> {
    match record_of(config) {
        Some(hvcc) => if hvcc.len() >= 16 {
            hevc_record_string(hvcc)
        } else {
            "hev1.1.6.L93.B0"@
        },
        None => "hev1.1.6.L93.B0"@,
    }
}

/// The audio object type of an audio specific config; 31 stands for one from
/// 32 on that six more bits give.
pub open spec fn object_type(asc: Seq<u8>) -> int {
    let first = asc[0] as int / 8;
    if first == 31 {
        32 + asc[0] as int % 8 * 8 + asc[1] as int / 32
    } else {
        first
    }
}

/// The codec string of an audio specific config.
pub open spec fn aac_string(config: Seq<u8>) -> Seq<char> {
    let asc = if config.len() > 2 && config[0] == 0xaf {
        config.skip(2)
    } else {
        config
    };
    if asc.len() >= 2 {
        "mp4a.40."@ + decimal(object_type(asc))
    } else {
        "mp4a.40.2"@
    }
}

/// The codec string of a track, as RFC 6381 has it.
pub open spec fn codec_text(codec: CodecId, config: Seq<u8>) -> Seq<char> {
    match codec {
        CodecId::H264 => avc_string(config),
        CodecId::H265 => hevc_string(config),
        CodecId::AAC => aac_string(config),
        CodecId::VP8 => "vp8"@,
        CodecId::VP9 => "vp09.00.10.08"@,
        CodecId::AV1 => "av01.0.04M.08"@,
        _ => "mp4a.40.2"@,
    }
}

/// The decoder configuration record in a configuration.
fn find_record(config: &[u8]) -> (r: Option<&[u8]>)
    ensures
        match (r, record_of(config@)) {
            (Some(a), Some(b)) => a@ == b,
            (None, None) => true,
            _ => false,
        },
{
    if config.len() >= 5 && config[0] != 1 {
        let record = slice(config, 5, config.len());
        assert(record@ =~= config@.skip(5));
        Some(record)
    } else if config.len() >= 3 && config[0] == 1 {
        Some(config)
    } else {
        None
    }
}

fn reverse_bits(b: u8) -> (r: u32)
    ensures
        r == reversed_bits(b),
        r <= 255,
{
    let n: u32 = b as u32;
    n / 128 + n / 64 % 2 * 2 + n / 32 % 2 * 4 + n / 16 % 2 * 8 + n / 8 % 2 * 16 + n / 4 % 2 * 32 + n
        / 2 % 2 * 64 + n % 2 * 128
}

/// Appends bytes as hexadecimal numbers, each behind a dot, without the zeros
/// at their end.
fn push_dotted(out: &mut String, bytes: &[u8])
    ensures
        final(out)@ == old(out)@ + dotted(without_zeros(bytes@)),
{
    let ghost start = out@;
    let mut n: usize = bytes.len();
    assert(bytes@.take(n as int) =~= bytes@);
    while n > 0 && bytes[n - 1] == 0
        invariant
            n <= bytes@.len(),
            without_zeros(bytes@.take(n as int)) == without_zeros(bytes@),
        decreases n,
    {
        assert(bytes@.take(n as int).last() == bytes@[n - 1]);
        assert(bytes@.take(n as int).drop_last() =~= bytes@.take(n - 1));
        n = n - 1;
    }
    if n > 0 {
        assert(bytes@.take(n as int).last() == bytes@[n - 1]);
    }
    assert(without_zeros(bytes@) == bytes@.take(n as int));
    let mut i: usize = 0;
    assert(out@ =~= start + dotted(bytes@.take(0)));
    while i < n
        invariant
            i <= n <= bytes@.len(),
            out@ == start + dotted(bytes@.take(i as int)),
        decreases n - i,
    {
        let ghost sofar = dotted(bytes@.take(i as int));
        out.append(".");
        push_hexadecimal(out, bytes[i] as u32);
        proof {
            assert(bytes@.take(i + 1).last() == bytes@[i as int]);
            assert(bytes@.take(i + 1).drop_last() =~= bytes@.take(i as int));
            assert(out@ =~= start + (sofar + "."@ + hexadecimal(bytes@[i as int] as int)));
        }
        i = i + 1;
    }
}

/// The codec string of an HEVC record.
fn hevc_record_text(hvcc: &[u8]) -> (r: String)
    requires
        hvcc@.len() >= 16,
    ensures
        r@ == hevc_record_string(hvcc@),
{
    let mut out = copy_text("hev1.");
    let space: u8 = hvcc[1] / 0x40;
    out.append(
        if space == 0 {
            ""
        } else if space == 1 {
            "A"
        } else if space == 2 {
            "B"
        } else {
            "C"
        },
    );
    push_decimal(&mut out, (hvcc[1] % 0x20) as u64);
    out.append(".");
    let flags: u32 = reverse_bits(hvcc[2]) + reverse_bits(hvcc[3]) * 0x100 + reverse_bits(hvcc[4])
        * 0x1_0000 + reverse_bits(hvcc[5]) * 0x100_0000;
    push_hexadecimal(&mut out, flags);
    out.append(
        if hvcc[1] / 0x20 % 2 == 0 {
            ".L"
        } else {
            ".H"
        },
    );
    push_decimal(&mut out, hvcc[12] as u64);
    let constraints = slice(hvcc, 6, 12);
    push_dotted(&mut out, constraints);
    out
}

/// The codec string of a track, from its codec and its configuration.
pub fn codec_string(codec: CodecId, config: &[u8]) -> (r: String)
    ensures
        r@ == codec_text(codec, config@),
{
    match codec {
        CodecId::H264 => {
            if let Some(avcc) = find_record(config) {
                if avcc.len() >= 4 {
                    let mut out = copy_text("avc1.");
                    push_hex_byte(&mut out, avcc[1]);
                    push_hex_byte(&mut out, avcc[2]);
                    push_hex_byte(&mut out, avcc[3]);
                    return out;
                }
            }
            copy_text("avc1.64001f")
        },
        CodecId::H265 => {
            if let Some(hvcc) = find_record(config) {
                if hvcc.len() >= 16 {
                    return hevc_record_text(hvcc);
                }
            }
            copy_text("hev1.1.6.L93.B0")
        },
        CodecId::AAC => {
            let from: usize = if config.len() > 2 && config[0] == 0xaf {
                2
            } else {
                0
            };
            let asc = slice(config, from, config.len());
            assert(asc@ =~= if config@.len() > 2 && config@[0] == 0xaf {
                config@.skip(2)
            } else {
                config@
            });
            if asc.len() >= 2 {
                let mut out = copy_text("mp4a.40.");
                let first: u64 = asc[0] as u64 / 8;
                push_decimal(
                    &mut out,
                    if first == 31 {
                        32 + asc[0] as u64 % 8 * 8 + asc[1] as u64 / 32
                    } else {
                        first
                    },
                );
                out
            } else {
                copy_text("mp4a.40.2")
            }
        },
        CodecId::VP8 => copy_text("vp8"),
        CodecId::VP9 => copy_text("vp09.00.10.08"),
        CodecId::AV1 => copy_text("av01.0.04M.08"),
        _ => copy_text("mp4a.40.2"),
    }
}

/// The FLV sound format of a codec.
pub open spec fn sound_format(codec: CodecId) -> u8 {
    match codec {
        CodecId::Mp3 => 2,
        CodecId::G711A => 7,
        CodecId::G711U => 8,
        CodecId::Opus => 13,
        CodecId::L16 => 14,
        _ => 10,
    }
}

/// The FLV sound format of a codec.
pub fn codec_to_sound_format(codec: CodecId) -> (r: u8)
    ensures
        r == sound_format(codec),
{
    match codec {
        CodecId::AAC => 10,
        CodecId::Mp3 => 2,
        CodecId::G711A => 7,
        CodecId::G711U => 8,
        CodecId::Opus => 13,
        CodecId::L16 => 14,
        _ => 10,
    }
}

/// The FLV video codec number of a codec.
pub open spec fn video_codec_number(codec: CodecId) -> u8 {
    match codec {
        CodecId::H265 => 12,
        CodecId::VP8 => 8,
        CodecId::VP9 => 9,
        CodecId::AV1 => 13,
        _ => 7,
    }
}

/// The FLV video codec number of a codec.
pub fn codec_to_video_codec_id(codec: CodecId) -> (r: u8)
    ensures
        r == video_codec_number(codec),
{
    match codec {
        CodecId::H264 => 7,
        CodecId::H265 => 12,
        CodecId::VP8 => 8,
        CodecId::VP9 => 9,
        CodecId::AV1 => 13,
        _ => 7,
    }
}

} // verus!
