//! What a request asks to play, and what is sent for it.
use vstd::prelude::*;
use crate::http::dash_window::{WindowModel, window_taken, windowed};
use crate::http::live::{
    PlaylistSegment, cmaf_parts, cmaf_stream, dash_init_of, dash_segment_of, index_place,
    playlist_stream, playlist_text, segment_lines, ts_index,
};
use crate::http::pull::playlist_lines;
use crate::http::pull_laws::{announces, is_address, law_addresses_are_segments};
use crate::http::request::{
    Route, client_of, handler_for, header_among, is_header, request_path, route_of, websocket_kind,
};
use crate::http::router::first_match;
use crate::http::snapshot::{
    VodAction, annexb_of, first_serving, first_track, metadata_of, picture_units, serves_picture,
    vod_action_for,
};
use crate::http::ws::{binary_frame, encoded};
use crate::http::ws_session::{
    CachedFrame, PathParts, WsKind, carried, live_taken, parameter_in, path_parts, query_parameter,
    replayed, stream_of,
};
use crate::media::{CodecId, FrameModel, FrameType};
use crate::mp4::demuxer::TrackModel;
use crate::mp4::entries::TrackKind;
use crate::mp4::fmp4::{Fmp4Model, SegmentModel, flushed_segment, fmp4_pushed, samples_wait};
use crate::mp4::muxer::opt_bytes;
use crate::mp4::recorder::segment_name;
use crate::text::{
    begins_with, cut_at, decimal, finishes_with, first_at, is_white, lines_of, pieces, trim_front,
    trimmed, without_suffix,
};
use crate::text_laws::{
    law_cut_at_first, law_lines_are_read, law_number_reads_back, law_parts_are_found,
    law_pieces_between, law_prefix_agrees, law_white_space_is_trimmed, lemma_none_at,
};

verus! {

// ── requests ────────────────────────────────────────────────────────────

/// The path of a request is the second word of its first line; without its
/// query it is the route.
pub proof fn law_request_line_is_read(
    method: Seq<char>,
    route: Seq<char>,
    query: Seq<char>,
    version: Seq<char>,
    rest: Seq<char>,
)
    requires
        !method.contains(' '),
        !method.contains('\n'),
        !route.contains(' '),
        !route.contains('\n'),
        !route.contains('?'),
        !query.contains(' '),
        !query.contains('\n'),
        version.len() > 0,
        !version.contains('\n'),
        version.last() != '\r',
    ensures
        ({
            let path = route.push('?') + query;
            let line = method.push(' ') + (path.push(' ') + version);
            &&& request_path(line.push('\r').push('\n') + rest) == Some(path)
            &&& request_path(line.push('\n') + rest) == Some(path)
            &&& route_of(path) == route
            &&& route_of(route) == route
        }),
{
    let path = route.push('?') + query;
    let tail = path.push(' ') + version;
    let line = method.push(' ') + tail;
    assert(!path.contains(' ')) by {
        if path.contains(' ') {
            let i = choose|i: int| 0 <= i < path.len() && path[i] == ' ';
            if i < route.len() {
                assert(route[i] == ' ');
            } else {
                assert(query[i - route.len() - 1] == ' ');
            }
        }
    }
    assert(!line.contains('\n')) by {
        if line.contains('\n') {
            let i = choose|i: int| 0 <= i < line.len() && line[i] == '\n';
            if i < method.len() {
                assert(method[i] == '\n');
            } else if i > method.len() {
                let j = i - method.len() - 1;
                assert(tail[j] == '\n');
                if j < route.len() {
                    assert(route[j] == '\n');
                } else if j > route.len() && j < path.len() {
                    assert(query[j - route.len() - 1] == '\n');
                } else if j > path.len() {
                    assert(version[j - path.len() - 1] == '\n');
                }
            }
        }
    }
    assert(line.last() == version.last());
    law_lines_are_read(line, rest);
    law_cut_at_first(method, ' ', tail);
    law_cut_at_first(path, ' ', version);
    law_cut_at_first(route, '?', query);
    lemma_none_at(route, '?', 0);
}

/// A header has the value of the first line that gives it.
pub proof fn law_first_header_counts(
    all: Seq<Seq<char>>,
    name: Seq<char>,
    i: int,
    k: int,
    written: Seq<char>,
    value: Seq<char>,
)
    requires
        0 <= i <= k < all.len(),
        !written.contains(':'),
        all[k] == written.push(':') + value,
        is_header(all[k], name),
        forall|j: int| i <= j < k ==> !is_header(#[trigger] all[j], name),
    ensures
        header_among(all, name, i) == Some(trimmed(value)),
    decreases k - i,
{
    law_cut_at_first(written, ':', value);
    if i < k {
        assert(!is_header(all[i], name));
        law_first_header_counts(all, name, i + 1, k, written, value);
    }
}

/// A line is a header when it begins with the name of it, in any case of
/// letters.
pub proof fn law_header_is_known(line: Seq<char>, name: Seq<char>)
    requires
        name.len() <= line.len(),
        forall|i: int|
            0 <= i < name.len() ==> {
                let c = #[trigger] name[i];
                let is_letter = 'a' <= c <= 'z';
                let is_plain = c == '-' || c == ':';
                &&& is_letter || is_plain
                &&& line[i] == c || (is_letter && line[i] as int == c as int - 32)
            },
    ensures
        is_header(line, name),
{
    assert forall|i: int| 0 <= i < name.len() implies crate::http::request::folded_char(
        #[trigger] line[i],
    ) == name[i] by {
        let c = name[i];
        if line[i] != c {
            assert('A' <= line[i] <= 'Z');
            assert((line[i] as int + 32) as char == c);
        }
    }
}

// ── what is played ──────────────────────────────────────────────────────

/// A playback path holds the application, behind it the resource, and the
/// signature among its parameters; of several signatures the first counts.
pub proof fn law_playback_path_is_read(
    app: Seq<char>,
    resource: Seq<char>,
    pairs: Seq<char>,
)
    requires
        app.len() > 0,
        !app.contains('/'),
        !app.contains('?'),
        !resource.contains('?'),
    ensures
        ({
            let plain = app.push('/') + resource;
            let sign = query_parameter(pairs, "sign"@);
            &&& path_parts(seq!['/'] + plain) == (PathParts { app, resource, sign: Seq::empty() })
            &&& path_parts(seq!['/'] + (plain.push('?') + pairs)) == (PathParts {
                app,
                resource,
                sign: if sign is Some {
                    sign->0
                } else {
                    Seq::empty()
                },
            })
        }),
{
    let plain = app.push('/') + resource;
    let asked = plain.push('?') + pairs;
    assert(!plain.contains('?')) by {
        if plain.contains('?') {
            let i = choose|i: int| 0 <= i < plain.len() && plain[i] == '?';
            if i < app.len() {
                assert(app[i] == '?');
            } else {
                assert(resource[i - app.len() - 1] == '?');
            }
        }
    }
    assert(plain[0] == app[0] && asked[0] == app[0]);
    assert(app[0] != '/');
    assert((seq!['/'] + plain).skip(1) =~= plain);
    assert((seq!['/'] + asked).skip(1) =~= asked);
    assert(trim_front(plain, '/') == plain);
    assert(trim_front(asked, '/') == asked);
    assert(trim_front(seq!['/'] + plain, '/') == plain);
    assert(trim_front(seq!['/'] + asked, '/') == asked);
    lemma_none_at(plain, '?', 0);
    law_cut_at_first(plain, '?', pairs);
    law_cut_at_first(app, '/', resource);
}

/// Of several parameters of a name the first counts.
pub proof fn law_first_parameter_counts(
    pairs: Seq<Seq<char>>,
    i: int,
    k: int,
    name: Seq<char>,
    value: Seq<char>,
)
    requires
        0 <= i <= k < pairs.len(),
        !name.contains('='),
        pairs[k] == name.push('=') + value,
        forall|j: int|
            i <= j < k ==> {
                let cut = cut_at(#[trigger] pairs[j], '=');
                cut is None || (cut->0).0 != name
            },
    ensures
        parameter_in(pairs, name, i) == Some(value),
    decreases k - i,
{
    law_cut_at_first(name, '=', value);
    if i < k {
        let cut = cut_at(pairs[i], '=');
        assert(cut is None || (cut->0).0 != name);
        law_first_parameter_counts(pairs, i + 1, k, name, value);
    }
}

/// A parameter that no pair names has no value.
pub proof fn law_absent_parameter(pairs: Seq<Seq<char>>, i: int, name: Seq<char>)
    requires
        0 <= i <= pairs.len(),
        forall|j: int|
            i <= j < pairs.len() ==> {
                let cut = cut_at(#[trigger] pairs[j], '=');
                cut is None || (cut->0).0 != name
            },
    ensures
        parameter_in(pairs, name, i) is None,
    decreases pairs.len() - i,
{
    if i < pairs.len() {
        let cut = cut_at(pairs[i], '=');
        assert(cut is None || (cut->0).0 != name);
        law_absent_parameter(pairs, i + 1, name);
    }
}

/// What precedes its suffix names a stream.
pub proof fn law_stream_precedes_suffix(stream: Seq<char>, suffix: Seq<char>)
    ensures
        stream_of(stream + suffix, suffix) == stream,
        playlist_stream(stream + "/hls.m3u8"@) == stream,
        !finishes_with(stream + ".m3u8"@, "/hls.m3u8"@) ==> playlist_stream(
            stream + ".m3u8"@,
        ) == stream,
        cmaf_stream(stream + "/hls"@ + ".cmav.m3u8"@) == stream,
        !finishes_with(stream, "/hls"@) ==> cmaf_stream(stream + ".cmav.m3u8"@)
            == stream,
{
    law_parts_are_found(stream, suffix);
    law_parts_are_found(stream, "/hls.m3u8"@);
    law_parts_are_found(stream, ".m3u8"@);
    law_parts_are_found(stream + "/hls"@, ".cmav.m3u8"@);
    law_parts_are_found(stream, "/hls"@);
    law_parts_are_found(stream, ".cmav.m3u8"@);
}

/// The number in the name of a segment is its index.
pub proof fn law_segment_number_is_read(stream: Seq<char>, n: int)
    requires
        0 <= n <= u64::MAX,
        !stream.contains('/'),
    ensures
        ts_index(decimal(n) + ".ts"@) == if n < u32::MAX {
            Some(n)
        } else {
            None
        },
        n <= u32::MAX ==> cmaf_parts(stream.push('/') + ("seg-"@ + decimal(n)) + ".m4s"@) == Some(
            (stream, n),
        ),
{
    law_number_reads_back(n, u32::MAX - 1);
    law_number_reads_back(n, u64::MAX as int);
    law_parts_are_found(decimal(n), ".ts"@);
    let name = "seg-"@ + decimal(n);
    law_parts_are_found(stream.push('/') + name, ".m4s"@);
    law_parts_are_found("seg-"@, decimal(n));
    assert(!name.contains('/')) by {
        reveal_strlit("seg-");
        if name.contains('/') {
            let i = choose|i: int| 0 <= i < name.len() && name[i] == '/';
            assert(i >= 4);
            assert(decimal(n)[i - 4] == '/');
            assert(crate::text::is_digit(decimal(n)[i - 4]));
        }
    }
    law_pieces_between(stream, '/', name);
    law_pieces_between(name, '/', name);
    let parts = pieces(stream.push('/') + name, '/');
    assert(parts[0] == stream && parts[1] == name);
}

/// The initialization segment and the segments of a live stream name it.
pub proof fn law_manifest_names_stream(
    stream: Seq<char>,
    representation: Seq<char>,
    number: Seq<char>,
)
    requires
        stream.len() > 0,
        stream.last() != '/',
        !stream.contains('-'),
        !representation.contains('-'),
        !number.contains('-'),
    ensures
        dash_init_of(stream + "-v0"@ + "/"@ + "init.mp4"@) == stream,
        dash_init_of(stream + "-a0"@ + "/"@ + "init.mp4"@) == stream,
        dash_segment_of(stream.push('-') + (representation.push('-') + number) + ".m4s"@) == Some(
            stream,
        ),
{
    reveal_strlit("-v0");
    reveal_strlit("-a0");
    reveal_strlit("/");
    lemma_init_stream(stream, "-v0"@);
    lemma_init_stream(stream, "-a0"@);
    let a = stream + "-a0"@;
    assert(without_suffix(a, "-v0"@) is None) by {
        crate::text_laws::law_prefix_agrees(a, "-v0"@);
        if finishes_with(a, "-v0"@) {
            assert(a[a.len() - 3 + 1] == "-v0"@[1]);
        }
    }
    let rest = stream.push('-') + (representation.push('-') + number);
    law_parts_are_found(rest, ".m4s"@);
    law_pieces_between(stream, '-', representation.push('-') + number);
    law_pieces_between(representation, '-', number);
    law_pieces_between(number, '-', number);
    let parts = pieces(rest, '-');
    assert(parts.len() == 3 && parts[0] == stream);
}

proof fn lemma_init_stream(stream: Seq<char>, name: Seq<char>)
    requires
        name.len() > 0,
        name.last() != '/',
    ensures
        without_suffix(stream + name, name) == Some(stream),
        without_suffix(stream + name + "/"@ + "init.mp4"@, "init.mp4"@) == Some(
            stream + name + "/"@,
        ),
        crate::text::trim_back(stream + name + "/"@, '/') == stream + name,
{
    reveal_strlit("/");
    law_parts_are_found(stream, name);
    law_parts_are_found(stream + name + "/"@, "init.mp4"@);
    let a = stream + name;
    assert((a + "/"@).drop_last() =~= a);
    assert((a + "/"@).last() == '/');
    assert(a.last() == name.last());
    assert(crate::text::trim_back(a, '/') == a);
}

/// A segment is found at the first place of its index.
pub proof fn law_segment_is_found(indices: Seq<u32>, index: u32, i: int, k: int)
    requires
        0 <= i <= k <= indices.len(),
        forall|j: int| i <= j < k ==> #[trigger] indices[j] != index,
        k < indices.len() ==> indices[k] == index,
    ensures
        index_place(indices, index, i) == if k < indices.len() {
            Some(k)
        } else {
            None
        },
    decreases k - i,
{
    if i < k {
        law_segment_is_found(indices, index, i + 1, k);
    }
}

/// The handler of a path is that of the first route that begins it.
pub proof fn law_first_route_counts(
    routes: Seq<(Seq<char>, Seq<char>)>,
    path: Seq<char>,
    i: int,
    k: int,
)
    requires
        0 <= i <= k <= routes.len(),
        forall|j: int| i <= j < k ==> !begins_with(path, (#[trigger] routes[j]).0),
        k < routes.len() ==> begins_with(path, routes[k].0),
    ensures
        first_match(routes, path, i) == if k < routes.len() {
            Some(routes[k].1)
        } else {
            None
        },
    decreases k - i,
{
    if i < k {
        assert(!begins_with(path, routes[i].0));
        law_first_route_counts(routes, path, i + 1, k);
    }
}

// ── playlists ───────────────────────────────────────────────────────────

/// The address of a segment of a stream.
pub open spec fn segment_address(app: Seq<char>, stream: Seq<char>, index: int) -> Seq<char> {
    "/"@ + app + "/"@ + stream + "/"@ + decimal(index) + ".ts"@
}

proof fn lemma_line_behind(text: Seq<char>, line: Seq<char>)
    requires
        text.len() == 0 || text.last() == '\n',
        !line.contains('\n'),
        line.len() > 0 ==> line.last() != '\r',
    ensures
        lines_of(text + line.push('\n')) == lines_of(text).push(line),
        (text + line.push('\n')).last() == '\n',
    decreases text.len(),
{
    let none = Seq::<char>::empty();
    law_lines_are_read(line, none);
    assert(line.push('\n') + none =~= line.push('\n'));
    assert(lines_of(none) =~= Seq::<Seq<char>>::empty());
    if text.len() == 0 {
        assert(text + line.push('\n') =~= line.push('\n'));
        assert(lines_of(text) =~= Seq::<Seq<char>>::empty());
        assert(seq![line] + Seq::<Seq<char>>::empty() =~= Seq::<Seq<char>>::empty().push(line));
    } else {
        crate::text::lemma_first_at(text, '\n', 0);
        assert(text[text.len() - 1] == '\n');
        let k = first_at(text, '\n', 0)->0;
        let front = text.take(k);
        let rest = text.skip(k + 1);
        assert(rest.len() == 0 || rest.last() == '\n');
        lemma_line_behind(rest, line);
        let all = text + line.push('\n');
        assert(!front.contains('\n')) by {
            if front.contains('\n') {
                let i = choose|i: int| 0 <= i < front.len() && front[i] == '\n';
                assert(text[i] == '\n');
            }
        }
        crate::text_laws::lemma_found_at(front, '\n', rest + line.push('\n'), 0);
        assert(all =~= front.push('\n') + (rest + line.push('\n')));
        assert(all.take(k) =~= front);
        assert(all.skip(k + 1) =~= rest + line.push('\n'));
        let head = seq![crate::text::without_return(front)];
        assert(head + lines_of(rest).push(line) =~= (head + lines_of(rest)).push(line));
    }
}

/// The lines of a playlist of a stream: four about the whole, and two for each
/// segment.
pub open spec fn written_lines(
    app: Seq<char>,
    stream: Seq<char>,
    segments: Seq<PlaylistSegment>,
    first: int,
    n: int,
) -> Seq<Seq<char>> {
    Seq::new(
        (4 + 2 * n) as nat,
        |i: int|
            if i == 0 {
                "#EXTM3U"@
            } else if i == 1 {
                "#EXT-X-VERSION:3"@
            } else if i == 2 {
                "#EXT-X-TARGETDURATION:4"@
            } else if i == 3 {
                "#EXT-X-MEDIA-SEQUENCE:"@ + decimal(first)
            } else if i % 2 == 0 {
                "#EXTINF:"@ + segments[(i - 4) / 2].duration@ + ","@
            } else {
                segment_address(app, stream, segments[(i - 5) / 2].index as int)
            },
    )
}

/// Whether the names in a playlist hold no line breaks.
pub open spec fn one_line(app: Seq<char>, stream: Seq<char>, segments: Seq<PlaylistSegment>) -> bool {
    &&& !app.contains('\n')
    &&& !stream.contains('\n')
    &&& forall|i: int|
        0 <= i < segments.len() ==> !(#[trigger] segments[i]).duration@.contains('\n')
}

proof fn lemma_no_break(a: Seq<char>, b: Seq<char>)
    requires
        !a.contains('\n'),
        !b.contains('\n'),
    ensures
        !(a + b).contains('\n'),
{
    let s = a + b;
    if s.contains('\n') {
        let i = choose|i: int| 0 <= i < s.len() && s[i] == '\n';
        if i < a.len() {
            assert(a[i] == '\n');
        } else {
            assert(b[i - a.len()] == '\n');
        }
    }
}

proof fn lemma_number_has_no_break(n: int)
    requires
        0 <= n,
    ensures
        !decimal(n).contains('\n'),
        decimal(n).len() > 0,
        decimal(n).last() != '\r',
{
    law_number_reads_back(n, n);
    let d = decimal(n);
    assert(crate::text::is_digit(d[d.len() - 1]));
    if d.contains('\n') {
        let i = choose|i: int| 0 <= i < d.len() && d[i] == '\n';
        assert(crate::text::is_digit(d[i]));
    }
}

proof fn lemma_address_line(app: Seq<char>, stream: Seq<char>, index: int)
    requires
        0 <= index,
        !app.contains('\n'),
        !stream.contains('\n'),
    ensures
        ({
            let a = segment_address(app, stream, index);
            &&& !a.contains('\n')
            &&& a.len() > 0
            &&& a.last() == 's'
            &&& a[0] == '/'
            &&& trimmed(a) == a
        }),
{
    reveal_strlit("/");
    reveal_strlit(".ts");
    lemma_number_has_no_break(index);
    assert(!"/"@.contains('\n'));
    assert(!".ts"@.contains('\n'));
    lemma_no_break("/"@, app);
    lemma_no_break("/"@ + app, "/"@);
    lemma_no_break("/"@ + app + "/"@, stream);
    lemma_no_break("/"@ + app + "/"@ + stream, "/"@);
    lemma_no_break("/"@ + app + "/"@ + stream + "/"@, decimal(index));
    lemma_no_break("/"@ + app + "/"@ + stream + "/"@ + decimal(index), ".ts"@);
    let a = segment_address(app, stream, index);
    let none = Seq::<char>::empty();
    assert(a.last() == 's');
    law_white_space_is_trimmed(none, a, none);
    assert(none + a + none =~= a);
}

proof fn lemma_head_lines(first: int)
    requires
        0 <= first,
    ensures
        ({
            let head =
                "#EXTM3U\n#EXT-X-VERSION:3\n#EXT-X-TARGETDURATION:4\n#EXT-X-MEDIA-SEQUENCE:"@
                + decimal(first) + "\n"@;
            &&& lines_of(head) == seq![
                "#EXTM3U"@,
                "#EXT-X-VERSION:3"@,
                "#EXT-X-TARGETDURATION:4"@,
                "#EXT-X-MEDIA-SEQUENCE:"@ + decimal(first),
            ]
            &&& head.last() == '\n'
        }),
{
    reveal_strlit("#EXTM3U\n#EXT-X-VERSION:3\n#EXT-X-TARGETDURATION:4\n#EXT-X-MEDIA-SEQUENCE:");
    reveal_strlit("#EXTM3U");
    reveal_strlit("#EXT-X-VERSION:3");
    reveal_strlit("#EXT-X-TARGETDURATION:4");
    reveal_strlit("#EXT-X-MEDIA-SEQUENCE:");
    reveal_strlit("\n");
    let a = "#EXTM3U"@;
    let b = "#EXT-X-VERSION:3"@;
    let c = "#EXT-X-TARGETDURATION:4"@;
    let d = "#EXT-X-MEDIA-SEQUENCE:"@ + decimal(first);
    lemma_number_has_no_break(first);
    assert(!a.contains('\n'));
    assert(!b.contains('\n'));
    assert(!c.contains('\n'));
    lemma_no_break("#EXT-X-MEDIA-SEQUENCE:"@, decimal(first));
    let none = Seq::<char>::empty();
    let t1 = a.push('\n');
    let t2 = t1 + b.push('\n');
    let t3 = t2 + c.push('\n');
    let t4 = t3 + d.push('\n');
    assert(lines_of(none) =~= Seq::<Seq<char>>::empty());
    assert(none + a.push('\n') =~= t1);
    lemma_line_behind(none, a);
    lemma_line_behind(t1, b);
    lemma_line_behind(t2, c);
    assert(d.last() == decimal(first).last());
    lemma_line_behind(t3, d);
    assert(
        "#EXTM3U\n#EXT-X-VERSION:3\n#EXT-X-TARGETDURATION:4\n#EXT-X-MEDIA-SEQUENCE:"@ + decimal(
        first,
    ) + "\n"@ =~= t4);
    assert(lines_of(t4) =~= seq![a, b, c, d]);
}

proof fn lemma_segment_lines(
    head: Seq<char>,
    app: Seq<char>,
    stream: Seq<char>,
    segments: Seq<PlaylistSegment>,
    first: int,
    n: int,
)
    requires
        one_line(app, stream, segments),
        0 <= n <= segments.len(),
        0 <= first,
        lines_of(head) == written_lines(app, stream, segments, first, 0),
        head.len() > 0,
        head.last() == '\n',
    ensures
        ({
            let text = head + segment_lines(app, stream, segments, n);
            &&& lines_of(text) == written_lines(app, stream, segments, first, n)
            &&& text.len() > 0
            &&& text.last() == '\n'
        }),
    decreases n,
{
    if n == 0 {
        assert(head + segment_lines(app, stream, segments, n) =~= head);
    } else {
        lemma_segment_lines(head, app, stream, segments, first, n - 1);
        let s = segments[n - 1];
        let before = head + segment_lines(app, stream, segments, n - 1);
        let about = "#EXTINF:"@ + s.duration@ + ","@;
        let address = segment_address(app, stream, s.index as int);
        reveal_strlit("#EXTINF:");
        reveal_strlit(",");
        reveal_strlit(",\n/");
        reveal_strlit("/");
        reveal_strlit(".ts\n");
        reveal_strlit(".ts");
        assert(!"#EXTINF:"@.contains('\n'));
        assert(!","@.contains('\n'));
        lemma_no_break("#EXTINF:"@, s.duration@);
        lemma_no_break("#EXTINF:"@ + s.duration@, ","@);
        assert(about.last() == ',');
        lemma_line_behind(before, about);
        lemma_address_line(app, stream, s.index as int);
        let middle = before + about.push('\n');
        lemma_line_behind(middle, address);
        let text = head + segment_lines(app, stream, segments, n);
        assert(text =~= middle + address.push('\n'));
        let w = written_lines(app, stream, segments, first, n - 1);
        assert(w.push(about).push(address) =~= written_lines(app, stream, segments, first, n));
    }
}

/// A client that reads the playlist of a stream finds the addresses of its
/// segments, all and in their order, and reads it again later.
pub proof fn law_playlist_is_followed(
    app: Seq<char>,
    stream: Seq<char>,
    segments: Seq<PlaylistSegment>,
)
    requires
        one_line(app, stream, segments),
    ensures
        ({
            let lines = lines_of(playlist_text(app, stream, segments));
            let m = playlist_lines(lines, lines.len() as int);
            &&& m.segments == Seq::new(
                segments.len(),
                |i: int| segment_address(app, stream, segments[i].index as int),
            )
            &&& m.variant is None
            &&& lines.len() == 4 + 2 * segments.len()
            &&& lines[3] == "#EXT-X-MEDIA-SEQUENCE:"@ + decimal(
                if segments.len() > 0 {
                    segments[0].index as int
                } else {
                    0
                },
            )
            &&& forall|i: int|
                0 <= i < segments.len() ==> #[trigger] lines[4 + 2 * i] == "#EXTINF:"@
                    + segments[i].duration@ + ","@
        }),
{
    let first = if segments.len() > 0 {
        segments[0].index as int
    } else {
        0
    };
    let n = segments.len() as int;
    let head = "#EXTM3U\n#EXT-X-VERSION:3\n#EXT-X-TARGETDURATION:4\n#EXT-X-MEDIA-SEQUENCE:"@
        + decimal(first) + "\n"@;
    lemma_head_lines(first);
    assert(lines_of(head) =~= written_lines(app, stream, segments, first, 0));
    lemma_segment_lines(head, app, stream, segments, first, n);
    let lines = lines_of(playlist_text(app, stream, segments));
    assert(lines == written_lines(app, stream, segments, first, n));
    assert forall|i: int| 0 <= i < segments.len() implies #[trigger] lines[4 + 2 * i]
        == "#EXTINF:"@ + segments[i].duration@ + ","@ by {}
    assert forall|i: int| 0 <= i < lines.len() implies !announces(#[trigger] lines[i]) && (
    is_address(lines[i]) <==> i >= 4 && i % 2 == 1) by {
        lemma_line_kind(app, stream, segments, first, n, i);
    }
    let places = law_addresses_are_segments(lines, lines.len() as int);
    assert forall|i: int| 0 <= i < 4 + 2 * n implies (#[trigger] places.contains(i) <==> i >= 4
        && i % 2 == 1) by {
        assert(is_address(lines[i]) <==> i >= 4 && i % 2 == 1);
    }
    lemma_odd_places(places, n);
    let m = playlist_lines(lines, lines.len() as int);
    assert forall|k: int| 0 <= k < n implies m.segments[k] == #[trigger] segment_address(
        app,
        stream,
        segments[k].index as int,
    ) by {
        assert(places[k] == 5 + 2 * k);
        lemma_address_line(app, stream, segments[k].index as int);
    }
    assert(m.segments =~= Seq::new(
        segments.len(),
        |i: int| segment_address(app, stream, segments[i].index as int),
    ));
}

proof fn lemma_odd_places(places: Seq<int>, n: int)
    requires
        0 <= n,
        forall|k: int| 0 <= k < places.len() ==> 0 <= #[trigger] places[k] < 4 + 2 * n,
        forall|i: int, j: int|
            0 <= i < j < places.len() ==> #[trigger] places[i] < #[trigger] places[j],
        forall|i: int|
            0 <= i < 4 + 2 * n ==> (#[trigger] places.contains(i) <==> i >= 4 && i % 2 == 1),
    ensures
        places.len() == n,
        forall|k: int| 0 <= k < n ==> #[trigger] places[k] == 5 + 2 * k,
    decreases n,
{
    if n == 0 {
        if places.len() > 0 {
            assert(places.contains(places[0]));
        }
    } else {
        let top = 3 + 2 * n;
        assert(places.contains(top));
        let k = choose|k: int| 0 <= k < places.len() && places[k] == top;
        assert(k == places.len() - 1) by {
            if k < places.len() - 1 {
                assert(places[k] < places[places.len() - 1]);
            }
        }
        let front = places.drop_last();
        assert forall|i: int| 0 <= i < 4 + 2 * (n - 1) implies (#[trigger] front.contains(i) <==> i
            >= 4 && i % 2 == 1) by {
            if front.contains(i) {
                let j = choose|j: int| 0 <= j < front.len() && front[j] == i;
                assert(places[j] == i);
                assert(places.contains(i));
            }
            if i >= 4 && i % 2 == 1 {
                assert(places.contains(i));
                let j = choose|j: int| 0 <= j < places.len() && places[j] == i;
                assert(front[j] == i);
            }
        }
        assert forall|j: int| 0 <= j < front.len() implies 0 <= #[trigger] front[j] < 4 + 2 * (n
            - 1) by {
            assert(front[j] == places[j]);
            assert(places[j] < places[k]);
            assert(places.contains(places[j]));
        }
        lemma_odd_places(front, n - 1);
        assert forall|j: int| 0 <= j < n implies #[trigger] places[j] == 5 + 2 * j by {
            if j < n - 1 {
                assert(front[j] == places[j]);
            }
        }
    }
}

proof fn lemma_comment(line: Seq<char>)
    requires
        line.len() > 0,
        line[0] == '#',
        !is_white(line.last()),
        line.len() > 7 ==> line[7] != 'S',
    ensures
        !announces(line),
        !is_address(line),
{
    let none = Seq::<char>::empty();
    law_white_space_is_trimmed(none, line, none);
    assert(none + line + none =~= line);
    reveal_strlit("#EXT-X-STREAM-INF:");
    if announces(line) {
        assert(line.take("#EXT-X-STREAM-INF:"@.len() as int)[7] == 'S');
    }
}

proof fn lemma_line_kind(
    app: Seq<char>,
    stream: Seq<char>,
    segments: Seq<PlaylistSegment>,
    first: int,
    n: int,
    i: int,
)
    requires
        one_line(app, stream, segments),
        n == segments.len(),
        0 <= first,
        0 <= i < 4 + 2 * n,
    ensures
        ({
            let line = written_lines(app, stream, segments, first, n)[i];
            &&& !announces(line)
            &&& is_address(line) <==> i >= 4 && i % 2 == 1
        }),
{
    let line = written_lines(app, stream, segments, first, n)[i];
    reveal_strlit("#EXTM3U");
    reveal_strlit("#EXT-X-VERSION:3");
    reveal_strlit("#EXT-X-TARGETDURATION:4");
    reveal_strlit("#EXT-X-MEDIA-SEQUENCE:");
    reveal_strlit("#EXTINF:");
    reveal_strlit(",");
    reveal_strlit("#EXT-X-STREAM-INF:");
    law_number_reads_back(first, first);
    if i >= 4 && i % 2 == 1 {
        let k = (i - 5) / 2;
        assert(0 <= k < segments.len());
        lemma_address_line(app, stream, segments[k].index as int);
        if announces(line) {
            assert(line.take("#EXT-X-STREAM-INF:"@.len() as int)[0] == '#');
        }
    } else if i == 3 {
        let d = decimal(first);
        assert(line.last() == d[d.len() - 1]);
        assert(crate::text::is_digit(d[d.len() - 1]));
        lemma_comment(line);
    } else {
        lemma_comment(line);
    }
}

// ── what is sent ────────────────────────────────────────────────────────

/// The last ten of some segments.
pub open spec fn last_ten(all: Seq<SegmentModel>) -> Seq<SegmentModel> {
    if all.len() <= 10 {
        all
    } else {
        all.subrange(all.len() - 10, all.len() as int)
    }
}

/// A window holds the last ten of all segments that were made, in their order.
pub proof fn law_window_is_the_last_ten(all: Seq<SegmentModel>, segment: SegmentModel)
    ensures
        windowed(last_ten(all), segment) == last_ten(all.push(segment)),
{
    let now = all.push(segment);
    if all.len() >= 10 {
        assert(last_ten(all).push(segment).skip(last_ten(all).len() - 9) =~= now.subrange(
            now.len() - 10,
            now.len() as int,
        ));
    }
}

/// What a muxer made is sent in its order, each output once and in a binary
/// frame of its own; what is empty is not sent.
pub proof fn law_outputs_are_carried(outputs: Seq<Seq<u8>>, n: int) -> (places: Seq<int>)
    requires
        0 <= n <= outputs.len(),
    ensures
        carried(outputs, n).len() == places.len(),
        forall|k: int|
            0 <= k < places.len() ==> 0 <= #[trigger] places[k] < n && carried(outputs, n)[k]
                == encoded(binary_frame(outputs[places[k]])),
        forall|i: int, j: int|
            0 <= i < j < places.len() ==> #[trigger] places[i] < #[trigger] places[j],
        forall|i: int|
            0 <= i < n ==> (places.contains(i) <==> (#[trigger] outputs[i]).len() > 0),
        forall|data: Seq<u8>|
            (#[trigger] binary_frame(data)).fin && binary_frame(data).opcode == 2 && binary_frame(
                data,
            ).payload == data,
    decreases n,
{
    if n == 0 {
        Seq::empty()
    } else {
        let before = law_outputs_are_carried(outputs, n - 1);
        let sent = outputs[n - 1].len() > 0;
        let places = if sent {
            before.push(n - 1)
        } else {
            before
        };
        assert forall|i: int| 0 <= i < n implies (places.contains(i) <==> (
        #[trigger] outputs[i]).len() > 0) by {
            if before.contains(i) {
                let k = choose|k: int| 0 <= k < before.len() && before[k] == i;
                assert(places[k] == i);
            }
            if sent && i == n - 1 {
                assert(places[before.len() as int] == i);
            }
            if places.contains(i) && i < n - 1 {
                let k = choose|k: int| 0 <= k < places.len() && places[k] == i;
                assert(before[k] == i);
            }
        }
        places
    }
}

/// A picture is made of the first H.264 configuration and the first H.264 key
/// frame; without either there is none.
pub proof fn law_picture_is_the_first(
    configs: Seq<FrameModel>,
    gop: Seq<FrameModel>,
    c: int,
    k: int,
)
    requires
        0 <= c <= configs.len(),
        0 <= k <= gop.len(),
        forall|i: int|
            0 <= i < c ==> !((#[trigger] configs[i]).codec == CodecId::H264 && configs[i].frame_type
                == FrameType::Video && configs[i].config_frame),
        forall|i: int|
            0 <= i < k ==> !((#[trigger] gop[i]).codec == CodecId::H264 && gop[i].frame_type
                == FrameType::Video && gop[i].key_frame),
        c < configs.len() ==> configs[c].codec == CodecId::H264 && configs[c].frame_type
            == FrameType::Video && configs[c].config_frame,
        k < gop.len() ==> gop[k].codec == CodecId::H264 && gop[k].frame_type == FrameType::Video
            && gop[k].key_frame,
    ensures
        picture_units(configs, gop) == if c < configs.len() && k < gop.len() {
            Some(annexb_of(configs[c].data) + annexb_of(gop[k].data))
        } else {
            None
        },
{
    lemma_first_serving(configs, true, 0, c);
    lemma_first_serving(gop, false, 0, k);
}

proof fn lemma_first_serving(frames: Seq<FrameModel>, config: bool, i: int, k: int)
    requires
        0 <= i <= k <= frames.len(),
        forall|j: int| i <= j < k ==> !serves_picture(#[trigger] frames[j], config),
        k < frames.len() ==> serves_picture(frames[k], config),
    ensures
        first_serving(frames, config, i) == if k < frames.len() {
            Some(frames[k])
        } else {
            None
        },
    decreases k - i,
{
    if i < k {
        assert(!serves_picture(frames[i], config));
        lemma_first_serving(frames, config, i + 1, k);
    }
}

proof fn lemma_first_track(tracks: Seq<TrackModel>, kind: TrackKind, i: int, k: int)
    requires
        0 <= i <= k <= tracks.len(),
        forall|j: int| i <= j < k ==> (#[trigger] tracks[j]).handler != kind,
        k < tracks.len() ==> tracks[k].handler == kind,
    ensures
        first_track(tracks, kind, i) == if k < tracks.len() {
            Some(tracks[k])
        } else {
            None
        },
    decreases k - i,
{
    if i < k {
        assert(tracks[i].handler != kind);
        lemma_first_track(tracks, kind, i + 1, k);
    }
}

/// The metadata of a recording are those of its first video track, and of its
/// first audio track where it has one; without video there are none.
pub proof fn law_metadata_are_those_of_first_tracks(tracks: Seq<TrackModel>, v: int, a: int)
    requires
        0 <= v <= tracks.len(),
        0 <= a <= tracks.len(),
        forall|j: int| 0 <= j < v ==> (#[trigger] tracks[j]).handler != TrackKind::Video,
        forall|j: int| 0 <= j < a ==> (#[trigger] tracks[j]).handler != TrackKind::Audio,
        v < tracks.len() ==> tracks[v].handler == TrackKind::Video,
        a < tracks.len() ==> tracks[a].handler == TrackKind::Audio,
    ensures
        ({
            let m = metadata_of(tracks);
            &&& m is Some <==> v < tracks.len()
            &&& v < tracks.len() ==> m->0.width == tracks[v].width && m->0.height
                == tracks[v].height && m->0.fps == tracks[v].fps && m->0.video_codec
                == tracks[v].codec
            &&& v < tracks.len() && a < tracks.len() ==> m->0.audio_sample_rate
                == tracks[a].sample_rate
            &&& v < tracks.len() && a == tracks.len() ==> m->0.audio_sample_rate == 0
        }),
{
    lemma_first_track(tracks, TrackKind::Video, 0, v);
    lemma_first_track(tracks, TrackKind::Audio, 0, a);
}

/// Playback of a recording ends with the first frame behind the asked
/// duration, and at no other one.
pub proof fn law_duration_ends_playback(f: FrameModel, limit: u64)
    ensures
        vod_action_for(f, Some(limit)) == VodAction::Stop <==> !f.config_frame && f.timestamp
            > limit,
        vod_action_for(f, None) != VodAction::Stop,
        vod_action_for(f, None) == VodAction::SendNow <==> f.config_frame,
        vod_action_for(f, Some(limit)) == VodAction::SendNow <==> f.config_frame,
{
}

// ── cached frames ───────────────────────────────────────────────────────

/// With every cached key picture a segment is complete: nothing waits behind
/// it. No other frame completes one, configurations change nothing, and the
/// segments that were complete stay. As many segments are counted as are made.
pub proof fn law_key_pictures_complete_segments(m: Fmp4Model, gop: Seq<CachedFrame>, n: int)
    requires
        0 < n <= gop.len(),
        replayed(m, gop, n) is Some,
        m.segment_seq + n < u64::MAX,
    ensures
        replayed(m, gop, n - 1) is Some,
        ({
            let (before, made) = replayed(m, gop, n - 1)->0;
            let (after, all) = replayed(m, gop, n)->0;
            let c = gop[n - 1];
            let key = c.frame@.frame_type == FrameType::Video && c.frame@.key_frame;
            &&& c.is_config ==> after == before && all == made
            &&& !c.is_config && !key ==> all == made && after == fmp4_pushed(
                before,
                c.frame@,
                opt_bytes(c.payload),
            )
            &&& !c.is_config && key ==> !samples_wait(after)
            &&& !c.is_config && key && samples_wait(
                fmp4_pushed(before, c.frame@, opt_bytes(c.payload)),
            ) ==> all == made.push(
                flushed_segment(fmp4_pushed(before, c.frame@, opt_bytes(c.payload))).data,
            )
            &&& made.len() <= all.len() <= made.len() + 1
            &&& all.take(made.len() as int) == made
            &&& after.segment_seq == m.segment_seq + all.len()
            &&& all.len() <= n
        }),
{
    lemma_counted(m, gop, n);
    lemma_counted(m, gop, n - 1);
    let (before, made) = replayed(m, gop, n - 1)->0;
    let (after, all) = replayed(m, gop, n)->0;
    assert(made.take(made.len() as int) =~= made);
    assert(all.take(made.len() as int) =~= made);
}

proof fn lemma_counted(m: Fmp4Model, gop: Seq<CachedFrame>, n: int)
    requires
        0 <= n <= gop.len(),
        replayed(m, gop, n) is Some,
        m.segment_seq + n < u64::MAX,
    ensures
        ({
            let (after, all) = replayed(m, gop, n)->0;
            &&& after.segment_seq == m.segment_seq + all.len()
            &&& all.len() <= n
        }),
    decreases n,
{
    if n > 0 {
        lemma_counted(m, gop, n - 1);
    }
}

/// The access hook is told the address of a client without its port.
pub proof fn law_client_is_told_without_port(ip: Seq<char>, port: Seq<char>)
    requires
        !ip.contains(':'),
    ensures
        client_of(ip.push(':') + port) == ip,
        client_of(ip) == ip,
{
    law_pieces_between(ip, ':', port);
}

/// The files that a recorder names are those that are asked for: the name of a
/// segment gives its number back.
pub proof fn law_segment_file_is_asked_for(stream: Seq<char>, n: int)
    requires
        0 <= n <= u32::MAX,
        !stream.contains('/'),
    ensures
        cmaf_parts(stream.push('/') + segment_name(n)) == Some((stream, n)),
{
    law_segment_number_is_read(stream, n);
    let name = "seg-"@ + decimal(n);
    assert(stream.push('/') + segment_name(n) =~= stream.push('/') + name + ".m4s"@);
}

// ── handlers ────────────────────────────────────────────────────────────

proof fn lemma_differs(stem: Seq<char>, a: Seq<char>, b: Seq<char>, d: int)
    requires
        0 <= d < a.len(),
        d < b.len(),
        a[a.len() - 1 - d] != b[b.len() - 1 - d],
    ensures
        !finishes_with(stem + a, b),
{
    let s = stem + a;
    law_prefix_agrees(s, b);
    if finishes_with(s, b) {
        let i = b.len() - 1 - d;
        assert(s[s.len() - b.len() + i] == b[i]);
        assert(s[s.len() - 1 - d] == a[a.len() - 1 - d]);
    }
}

/// Whether a route belongs to the management interface or to recordings.
pub open spec fn is_reserved(route: Seq<char>) -> bool {
    begins_with(route, "/index/api/"@) || begins_with(route, "/record/"@)
}

/// What a route ends with decides which handler plays it, whether or not files
/// are served; over WebSocket too.
pub proof fn law_suffix_decides_handler(stem: Seq<char>, has_web_root: bool)
    requires
        !finishes_with(stem, ".live"@),
        !finishes_with(stem, ".cmav"@),
    ensures
        !is_reserved(stem + ".flv"@) ==> handler_for(stem + ".flv"@, has_web_root) == Route::Flv,
        !is_reserved(stem + ".live.ts"@) ==> handler_for(stem + ".live.ts"@, has_web_root)
            == Route::Ts,
        !is_reserved(stem + ".live.mp4"@) ==> handler_for(stem + ".live.mp4"@, has_web_root)
            == Route::Fmp4,
        !is_reserved(stem + ".mpd"@) ==> handler_for(stem + ".mpd"@, has_web_root)
            == Route::DashMpd,
        !is_reserved(stem + ".m4s"@) ==> handler_for(stem + ".m4s"@, has_web_root) == Route::M4s,
        !is_reserved(stem + ".cmav.m3u8"@) ==> handler_for(stem + ".cmav.m3u8"@, has_web_root)
            == Route::CmafPlaylist,
        !is_reserved(stem + ".m3u8"@) ==> handler_for(stem + ".m3u8"@, has_web_root)
            == Route::HlsPlaylist,
        !is_reserved(stem + ".ts"@) ==> handler_for(stem + ".ts"@, has_web_root)
            == Route::HlsSegment,
        websocket_kind(stem + ".flv"@) == WsKind::Flv,
        websocket_kind(stem + ".live.ts"@) == WsKind::Ts,
        websocket_kind(stem + ".live.mp4"@) == WsKind::Fmp4,
{
    lemma_literals();
    lemma_flv(stem);
    lemma_live(stem);
    lemma_dash(stem);
    lemma_hls(stem);
}

proof fn lemma_literals()
    ensures
        ".flv"@.len() == 4 && ".flv"@[3] == 'v',
        ".live.ts"@.len() == 8 && ".live.ts"@[7] == 's' && ".live.ts"@[6] == 't',
        ".live.mp4"@.len() == 9 && ".live.mp4"@[8] == '4',
        ".mpd"@.len() == 4 && ".mpd"@[3] == 'd',
        ".m4s"@.len() == 4 && ".m4s"@[3] == 's' && ".m4s"@[2] == '4',
        "init.mp4"@.len() == 8 && "init.mp4"@[7] == '4',
        ".cmav.m3u8"@.len() == 10 && ".cmav.m3u8"@[9] == '8',
        ".m3u8"@.len() == 5 && ".m3u8"@[4] == '8',
        ".ts"@.len() == 3 && ".ts"@[2] == 's' && ".ts"@[1] == 't',
        ".live.ts"@ == ".live"@ + ".ts"@,
        ".cmav.m3u8"@ == ".cmav"@ + ".m3u8"@,
{
    reveal_strlit(".flv");
    reveal_strlit(".live.ts");
    reveal_strlit(".live.mp4");
    reveal_strlit(".mpd");
    reveal_strlit(".m4s");
    reveal_strlit("init.mp4");
    reveal_strlit(".cmav.m3u8");
    reveal_strlit(".m3u8");
    reveal_strlit(".ts");
    reveal_strlit(".live");
    reveal_strlit(".cmav");
    assert(".live.ts"@ =~= ".live"@ + ".ts"@);
    assert(".cmav.m3u8"@ =~= ".cmav"@ + ".m3u8"@);
}

proof fn lemma_flv(stem: Seq<char>)
    ensures
        finishes_with(stem + ".flv"@, ".flv"@),
        !finishes_with(stem + ".flv"@, ".live.ts"@),
        !finishes_with(stem + ".flv"@, ".live.mp4"@),
{
    lemma_literals();
    law_parts_are_found(stem, ".flv"@);
    lemma_differs(stem, ".flv"@, ".live.ts"@, 0);
    lemma_differs(stem, ".flv"@, ".live.mp4"@, 0);
}

proof fn lemma_live(stem: Seq<char>)
    ensures
        finishes_with(stem + ".live.ts"@, ".live.ts"@),
        !finishes_with(stem + ".live.ts"@, ".flv"@),
        finishes_with(stem + ".live.mp4"@, ".live.mp4"@),
        !finishes_with(stem + ".live.mp4"@, ".flv"@),
        !finishes_with(stem + ".live.mp4"@, ".live.ts"@),
{
    lemma_literals();
    law_parts_are_found(stem, ".live.ts"@);
    law_parts_are_found(stem, ".live.mp4"@);
    lemma_differs(stem, ".live.ts"@, ".flv"@, 0);
    lemma_differs(stem, ".live.mp4"@, ".flv"@, 0);
    lemma_differs(stem, ".live.mp4"@, ".live.ts"@, 0);
}

proof fn lemma_dash(stem: Seq<char>)
    ensures
        finishes_with(stem + ".mpd"@, ".mpd"@),
        !finishes_with(stem + ".mpd"@, ".flv"@),
        !finishes_with(stem + ".mpd"@, ".live.ts"@),
        !finishes_with(stem + ".mpd"@, ".live.mp4"@),
        finishes_with(stem + ".m4s"@, ".m4s"@),
        !finishes_with(stem + ".m4s"@, ".flv"@),
        !finishes_with(stem + ".m4s"@, ".live.ts"@),
        !finishes_with(stem + ".m4s"@, ".live.mp4"@),
        !finishes_with(stem + ".m4s"@, ".mpd"@),
{
    lemma_literals();
    law_parts_are_found(stem, ".mpd"@);
    law_parts_are_found(stem, ".m4s"@);
    lemma_differs(stem, ".mpd"@, ".flv"@, 0);
    lemma_differs(stem, ".mpd"@, ".live.ts"@, 0);
    lemma_differs(stem, ".mpd"@, ".live.mp4"@, 0);
    lemma_differs(stem, ".m4s"@, ".flv"@, 0);
    lemma_differs(stem, ".m4s"@, ".live.ts"@, 1);
    lemma_differs(stem, ".m4s"@, ".live.mp4"@, 0);
    lemma_differs(stem, ".m4s"@, ".mpd"@, 0);
}

proof fn lemma_playlist_suffix(stem: Seq<char>, a: Seq<char>)
    requires
        a == ".cmav.m3u8"@ || a == ".m3u8"@,
    ensures
        !finishes_with(stem + a, ".flv"@),
        !finishes_with(stem + a, ".live.ts"@),
        !finishes_with(stem + a, ".live.mp4"@),
        !finishes_with(stem + a, ".mpd"@),
        !finishes_with(stem + a, ".m4s"@),
        !finishes_with(stem + a, "init.mp4"@),
{
    lemma_literals();
    lemma_differs(stem, a, ".flv"@, 0);
    lemma_differs(stem, a, ".live.ts"@, 0);
    lemma_differs(stem, a, ".live.mp4"@, 0);
    lemma_differs(stem, a, ".mpd"@, 0);
    lemma_differs(stem, a, ".m4s"@, 0);
    lemma_differs(stem, a, "init.mp4"@, 0);
}

proof fn lemma_inner_suffix(stem: Seq<char>, a: Seq<char>, b: Seq<char>)
    requires
        !finishes_with(stem, a),
    ensures
        !finishes_with(stem + b, a + b),
{
    let s = stem + b;
    let c = a + b;
    if finishes_with(s, c) {
        law_prefix_agrees(s, c);
        law_prefix_agrees(stem, a);
        assert forall|i: int| 0 <= i < a.len() implies stem[stem.len() - a.len() + i]
            == #[trigger] a[i] by {
            assert(s[s.len() - c.len() + i] == c[i]);
        }
    }
}

proof fn lemma_hls(stem: Seq<char>)
    requires
        !finishes_with(stem, ".live"@),
        !finishes_with(stem, ".cmav"@),
    ensures
        ({
            let c = stem + ".cmav.m3u8"@;
            let m = stem + ".m3u8"@;
            let t = stem + ".ts"@;
            &&& finishes_with(c, ".cmav.m3u8"@)
            &&& finishes_with(m, ".m3u8"@) && !finishes_with(m, ".cmav.m3u8"@)
            &&& finishes_with(t, ".ts"@) && !finishes_with(t, ".live.ts"@)
            &&& !finishes_with(t, ".flv"@) && !finishes_with(t, ".live.mp4"@)
            &&& !finishes_with(t, ".mpd"@) && !finishes_with(t, ".m4s"@)
            &&& !finishes_with(t, "init.mp4"@) && !finishes_with(t, ".cmav.m3u8"@)
            &&& !finishes_with(t, ".m3u8"@)
            &&& !finishes_with(c, ".flv"@) && !finishes_with(c, ".live.ts"@) && !finishes_with(
                c,
                ".live.mp4"@,
            )
            &&& !finishes_with(c, ".mpd"@) && !finishes_with(c, ".m4s"@) && !finishes_with(
                c,
                "init.mp4"@,
            )
            &&& !finishes_with(m, ".flv"@) && !finishes_with(m, ".live.ts"@) && !finishes_with(
                m,
                ".live.mp4"@,
            )
            &&& !finishes_with(m, ".mpd"@) && !finishes_with(m, ".m4s"@) && !finishes_with(
                m,
                "init.mp4"@,
            )
        }),
{
    lemma_literals();
    law_parts_are_found(stem, ".cmav.m3u8"@);
    law_parts_are_found(stem, ".m3u8"@);
    law_parts_are_found(stem, ".ts"@);
    lemma_inner_suffix(stem, ".cmav"@, ".m3u8"@);
    lemma_inner_suffix(stem, ".live"@, ".ts"@);
    lemma_playlist_suffix(stem, ".cmav.m3u8"@);
    lemma_playlist_suffix(stem, ".m3u8"@);
    lemma_differs(stem, ".ts"@, ".flv"@, 0);
    lemma_differs(stem, ".ts"@, ".live.mp4"@, 0);
    lemma_differs(stem, ".ts"@, ".mpd"@, 0);
    lemma_differs(stem, ".ts"@, ".m4s"@, 1);
    lemma_differs(stem, ".ts"@, "init.mp4"@, 0);
    lemma_differs(stem, ".ts"@, ".cmav.m3u8"@, 0);
    lemma_differs(stem, ".ts"@, ".m3u8"@, 0);
}

/// Live frames go into the stream one by one; configurations among them change
/// nothing, and no frame changes the segments that a window holds.
pub proof fn law_live_frames_are_taken(
    m: WindowModel,
    frame: FrameModel,
    payload: Option<Seq<u8>>,
)
    ensures
        window_taken(m, frame, true, payload) == m,
        window_taken(m, frame, false, payload).segments == m.segments,
        window_taken(m, frame, false, payload).muxer == fmp4_pushed(m.muxer, frame, payload),
        live_taken(m.muxer, frame, true, payload) == m.muxer,
        live_taken(m.muxer, frame, false, payload) == fmp4_pushed(m.muxer, frame, payload),
{
}

} // verus!
