//! What is read of a playlist and fetched after it, and how bodies arrive.
use vstd::prelude::*;
use vstd::utf8::encode_utf8;
use crate::http::body::{BodyModel, StepModel, body_step, chunk_size, ended, line_end};
use crate::http::pull::{
    PlanModel, PlaylistModel, PullKind, PullModel, any_carries, hls_planned, new_segments,
    playlist_line, playlist_lines, pull_kind_of, registered, uri_among,
};
use crate::http::upstream::{
    ActionModel, HeadProgress, UpstreamError, blank_line, follows_redirect, head_state, headers_of,
    response_action, second_word, up_to_white,
};
use crate::http::url::{UrlModel, resolved};
use crate::media::{FrameModel, FrameType, TrackInfo};
use crate::text::{
    begins_with, cut_at, decimal, finishes_with, first_place, hexadecimal, holds_text, is_white,
    lowered, parsed_number, pieces, stands_at, trim_white_front, trimmed, without_prefix,
};
use crate::text_laws::{
    law_cut_at_first, law_hexadecimal_reads_back, law_number_reads_back, law_parts_are_found,
    law_pieces_between, law_white_space_is_trimmed,
};

verus! {

// ── playlists ───────────────────────────────────────────────────────────

/// Whether a line of a playlist is an address: neither empty nor a comment.
pub open spec fn is_address(line: Seq<char>) -> bool {
    trimmed(line).len() > 0 && trimmed(line)[0] != '#'
}

/// Whether a line announces another playlist.
pub open spec fn announces(line: Seq<char>) -> bool {
    begins_with(trimmed(line), "#EXT-X-STREAM-INF:"@)
}

/// The segments of a playlist that names no other are its addresses, each one
/// and in their order; it is at its end when a line says so.
pub proof fn law_addresses_are_segments(all: Seq<Seq<char>>, n: int) -> (places: Seq<int>)
    requires
        0 <= n <= all.len(),
        forall|i: int| 0 <= i < n ==> !announces(#[trigger] all[i]),
    ensures
        ({
            let m = playlist_lines(all, n);
            &&& m.variant is None
            &&& !m.expect_variant
            &&& m.segments.len() == places.len()
            &&& forall|k: int|
                0 <= k < places.len() ==> 0 <= #[trigger] places[k] < n && m.segments[k] == trimmed(
                    all[places[k]],
                )
            &&& forall|i: int, j: int|
                0 <= i < j < places.len() ==> #[trigger] places[i] < #[trigger] places[j]
            &&& forall|i: int|
                0 <= i < n ==> (places.contains(i) <==> is_address(#[trigger] all[i]))
            &&& m.end_list <==> exists|i: int|
                0 <= i < n && trimmed(#[trigger] all[i]) == "#EXT-X-ENDLIST"@
        }),
    decreases n,
{
    reveal_strlit("#EXT-X-STREAM-INF:");
    reveal_strlit("#EXT-X-MAP:");
    reveal_strlit("#EXT-X-ENDLIST");
    if n == 0 {
        Seq::empty()
    } else {
        let before = law_addresses_are_segments(all, n - 1);
        assert(!announces(all[n - 1]));
        let line = trimmed(all[n - 1]);
        let m = playlist_lines(all, n - 1);
        if begins_with(line, "#EXT-X-MAP:"@) {
            assert(line[0] == line.take("#EXT-X-MAP:"@.len() as int)[0]);
            assert(line[0] == '#');
        }
        let places = if is_address(all[n - 1]) {
            before.push(n - 1)
        } else {
            before
        };
        assert forall|i: int| 0 <= i < n implies (places.contains(i) <==> is_address(
            #[trigger] all[i],
        )) by {
            if before.contains(i) {
                let k = choose|k: int| 0 <= k < before.len() && before[k] == i;
                assert(places[k] == i);
            }
            if is_address(all[n - 1]) && i == n - 1 {
                assert(places[before.len() as int] == i);
            }
            if places.contains(i) && i < n - 1 {
                let k = choose|k: int| 0 <= k < places.len() && places[k] == i;
                assert(before[k] == i);
            }
        }
        assert(playlist_lines(all, n).end_list <==> m.end_list || line == "#EXT-X-ENDLIST"@);
        if playlist_lines(all, n).end_list {
            if line == "#EXT-X-ENDLIST"@ {
                assert(trimmed(all[n - 1]) == "#EXT-X-ENDLIST"@);
            }
        }
        places
    }
}

/// The first address behind the line that announces another playlist is the
/// address of that playlist, and no segment.
pub proof fn law_announced_playlist_is_found(all: Seq<Seq<char>>, a: int, b: int)
    requires
        0 <= a < b < all.len(),
        forall|i: int| 0 <= i < a ==> !announces(#[trigger] all[i]) && !is_address(all[i]),
        announces(all[a]),
        forall|i: int| a < i < b ==> !is_address(#[trigger] all[i]),
        is_address(all[b]),
    ensures
        playlist_lines(all, b + 1).variant == Some(trimmed(all[b])),
        playlist_lines(all, b + 1).segments.len() == 0,
        forall|n: int|
            b < n <= all.len() ==> (#[trigger] playlist_lines(all, n)).variant == Some(
                trimmed(all[b]),
            ),
{
    reveal_strlit("#EXT-X-STREAM-INF:");
    reveal_strlit("#EXT-X-MAP:");
    let places = law_addresses_are_segments(all, a);
    assert(places.len() == 0) by {
        if places.len() > 0 {
            assert(0 <= places[0] < a);
            assert(places.contains(places[0]));
            assert(is_address(all[places[0]]));
        }
    }
    lemma_waits_for_address(all, a, b);
    let line = trimmed(all[b]);
    if begins_with(line, "#EXT-X-MAP:"@) {
        assert(line[0] == line.take("#EXT-X-MAP:"@.len() as int)[0]);
        assert(line[0] == '#');
    }
    if announces(all[b]) {
        assert(line[0] == line.take("#EXT-X-STREAM-INF:"@.len() as int)[0]);
        assert(line[0] == '#');
    }
    assert forall|n: int| b < n <= all.len() implies (#[trigger] playlist_lines(all, n)).variant
        == Some(trimmed(all[b])) by {
        lemma_variant_stays(all, b, n);
    }
}

proof fn lemma_waits_for_address(all: Seq<Seq<char>>, a: int, b: int)
    requires
        0 <= a < b < all.len(),
        playlist_lines(all, a).segments.len() == 0,
        playlist_lines(all, a).variant is None,
        announces(all[a]),
        forall|i: int| a < i < b ==> !is_address(#[trigger] all[i]),
    ensures
        playlist_lines(all, b).expect_variant,
        playlist_lines(all, b).variant is None,
        playlist_lines(all, b).segments.len() == 0,
    decreases b,
{
    if b > a + 1 {
        lemma_waits_for_address(all, a, b - 1);
        assert(!is_address(all[b - 1]));
    }
}

proof fn lemma_variant_stays(all: Seq<Seq<char>>, b: int, n: int)
    requires
        0 <= b < n <= all.len(),
        playlist_lines(all, b + 1).variant is Some,
    ensures
        playlist_lines(all, n).variant == playlist_lines(all, b + 1).variant,
    decreases n,
{
    if n > b + 1 {
        lemma_variant_stays(all, b, n - 1);
    }
}

/// A line that names an initialization segment gives its address, whatever
/// attribute precedes it, and changes nothing else.
pub proof fn law_initialization_is_named(m: PlaylistModel, other: Seq<char>, address: Seq<char>)
    requires
        !other.contains(','),
        other.len() > 0,
        !is_white(other[0]),
        !begins_with(trimmed(other), "URI="@),
        !address.contains(','),
        address.len() > 0,
        address[0] != '"',
        address.last() != '"',
    ensures
        ({
            let named = "URI="@ + seq!['"'] + address + seq!['"'];
            &&& playlist_line(m, "#EXT-X-MAP:"@ + named) == (PlaylistModel {
                init_map: Some(address),
                ..m
            })
            &&& playlist_line(m, "#EXT-X-MAP:"@ + (other.push(',') + named)) == (PlaylistModel {
                init_map: Some(address),
                ..m
            })
        }),
{
    reveal_strlit("#EXT-X-MAP:");
    reveal_strlit("#EXT-X-STREAM-INF:");
    reveal_strlit("#EXT-X-ENDLIST");
    reveal_strlit("URI=");
    let quote = seq!['"'];
    let named = "URI="@ + quote + address + quote;
    let none = Seq::<char>::empty();
    assert(!named.contains(',')) by {
        if named.contains(',') {
            let i = choose|i: int| 0 <= i < named.len() && named[i] == ',';
            if i >= 5 && i < 5 + address.len() {
                assert(address[i - 5] == ',');
            }
        }
    }
    law_white_space_is_trimmed(none, named, none);
    assert(none + named + none =~= named);
    let inner = quote + address + quote;
    assert(named =~= "URI="@ + inner);
    law_parts_are_found("URI="@, inner);
    lemma_quotes(address);
    law_pieces_between(named, ',', named);
    law_pieces_between(other, ',', named);
    let alone = pieces(named, ',');
    let both = pieces(other.push(',') + named, ',');
    assert(alone[0] == named);
    assert(both[0] == other && both[1] == named);
    assert(uri_among(alone, 0) == Some(address));
    assert(without_prefix(trimmed(other), "URI="@) is None);
    assert(uri_among(both, 1) == Some(address));
    assert(uri_among(both, 0) == Some(address));
    lemma_map_line(m, named);
    lemma_map_line(m, other.push(',') + named);
}

proof fn lemma_map_line(m: PlaylistModel, attributes: Seq<char>)
    requires
        attributes.len() > 0,
        attributes.last() == '"',
    ensures
        playlist_line(m, "#EXT-X-MAP:"@ + attributes) == (PlaylistModel {
            init_map: uri_among(pieces(attributes, ','), 0),
            ..m
        }),
{
    reveal_strlit("#EXT-X-MAP:");
    reveal_strlit("#EXT-X-STREAM-INF:");
    reveal_strlit("#EXT-X-ENDLIST");
    let none = Seq::<char>::empty();
    let line = "#EXT-X-MAP:"@ + attributes;
    assert(line[0] == '#');
    assert(line.last() == '"');
    law_white_space_is_trimmed(none, line, none);
    assert(none + line + none =~= line);
    law_parts_are_found("#EXT-X-MAP:"@, attributes);
    assert(line[7] == 'M');
    assert("#EXT-X-ENDLIST"@[7] == 'E');
    assert(!begins_with(line, "#EXT-X-STREAM-INF:"@)) by {
        if begins_with(line, "#EXT-X-STREAM-INF:"@) {
            assert(line.take("#EXT-X-STREAM-INF:"@.len() as int)[7] == 'S');
        }
    }
}

proof fn lemma_quotes(address: Seq<char>)
    requires
        address.len() > 0,
        address[0] != '"',
        address.last() != '"',
    ensures
        crate::text::trim_back(
            crate::text::trim_front(seq!['"'] + address + seq!['"'], '"'),
            '"',
        ) == address,
{
    let quote = seq!['"'];
    let all = quote + address + quote;
    let front = address + quote;
    assert(all.skip(1) =~= front);
    assert(crate::text::trim_front(front, '"') == front);
    assert(crate::text::trim_front(all, '"') == front);
    assert(front.drop_last() =~= address);
    assert(front.last() == '"');
    assert(crate::text::trim_back(address, '"') == address);
    assert(crate::text::trim_back(front, '"') == address);
}

// ── what is fetched ─────────────────────────────────────────────────────

/// Whatever a playlist names is fetched, unless it was seen: the addresses
/// that are fetched are those of its segments, in the order in which they
/// first occur, and afterwards all are remembered.
pub proof fn law_segments_are_fetched_in_order(
    seen: Seq<Seq<char>>,
    base: UrlModel,
    segments: Seq<Seq<char>>,
    n: int,
) -> (places: Seq<int>)
    requires
        0 <= n <= segments.len(),
    ensures
        ({
            let (fresh, known) = new_segments(seen, base, segments, n);
            &&& fresh.len() == places.len()
            &&& forall|k: int|
                0 <= k < places.len() ==> 0 <= #[trigger] places[k] < n && fresh[k] == resolved(
                    base,
                    segments[places[k]],
                )
            &&& forall|i: int, j: int|
                0 <= i < j < places.len() ==> #[trigger] places[i] < #[trigger] places[j]
            &&& forall|i: int|
                0 <= i < n ==> seen.contains(resolved(base, #[trigger] segments[i]))
                    || fresh.contains(resolved(base, segments[i]))
            &&& known == seen + fresh
        }),
    decreases n,
{
    if n == 0 {
        assert(seen + Seq::<Seq<char>>::empty() =~= seen);
        Seq::empty()
    } else {
        let before = law_segments_are_fetched_in_order(seen, base, segments, n - 1);
        let (fresh, known) = new_segments(seen, base, segments, n - 1);
        let url = resolved(base, segments[n - 1]);
        let (fresh_now, known_now) = new_segments(seen, base, segments, n);
        let places = if known.contains(url) {
            before
        } else {
            before.push(n - 1)
        };
        assert(known_now =~= seen + fresh_now);
        assert forall|i: int| 0 <= i < n implies seen.contains(
            resolved(base, #[trigger] segments[i]),
        ) || fresh_now.contains(resolved(base, segments[i])) by {
            let u = resolved(base, segments[i]);
            if i < n - 1 {
                if fresh.contains(u) {
                    let k = choose|k: int| 0 <= k < fresh.len() && fresh[k] == u;
                    assert(fresh_now[k] == u);
                }
            } else if known.contains(url) {
                let k = choose|k: int| 0 <= k < known.len() && known[k] == url;
                if k < seen.len() {
                    assert(seen[k] == url);
                } else {
                    assert(fresh[k - seen.len()] == url);
                }
            } else {
                assert(fresh_now[fresh.len() as int] == url);
            }
        }
        places
    }
}

/// After a playlist with segments they are fetched: whatever was not seen,
/// and the initialization segment when it is another one than before. The
/// stream ends with the playlist that says so.
pub proof fn law_plan_covers_playlist(m: PullModel, base: UrlModel, e: PlaylistModel, i: int)
    requires
        e.variant is None,
        0 <= i < e.segments.len(),
    ensures
        ({
            let (plan, next) = hls_planned(m, base, e);
            let url = resolved(base, e.segments[i]);
            &&& plan.variant is None
            &&& plan.segments.contains(url) <==> !m.seen.contains(url)
            &&& plan.last == e.end_list
            &&& e.init_map is None ==> plan.init is None && next.map_url == m.map_url
            &&& e.init_map is Some ==> next.map_url == Some(resolved(base, e.init_map->0))
            &&& e.init_map is Some && m.map_url != Some(resolved(base, e.init_map->0)) ==> plan.init
                == Some(resolved(base, e.init_map->0))
            &&& e.init_map is Some && m.map_url == Some(resolved(base, e.init_map->0)) ==> plan.init
                is None
            &&& m.seen.len() + e.segments.len() <= 4096 ==> next.seen.contains(url)
        }),
{
    let n = e.segments.len() as int;
    let places = law_segments_are_fetched_in_order(m.seen, base, e.segments, n);
    let (fresh, known) = new_segments(m.seen, base, e.segments, n);
    crate::http::pull::law_segments_are_fetched_once(m, base, e);
    let url = resolved(base, e.segments[i]);
    assert(m.seen.contains(url) || fresh.contains(url));
    if fresh.contains(url) {
        let k = choose|k: int| 0 <= k < fresh.len() && fresh[k] == url;
        assert(hls_planned(m, base, e).0.segments[k] == url);
        assert(known[m.seen.len() + k] == url);
    }
    if m.seen.contains(url) {
        let k = choose|k: int| 0 <= k < m.seen.len() && m.seen[k] == url;
        assert(known[k] == url);
    }
    lemma_no_more(m.seen, base, e.segments, n);
}

proof fn lemma_no_more(seen: Seq<Seq<char>>, base: UrlModel, segments: Seq<Seq<char>>, n: int)
    requires
        0 <= n <= segments.len(),
    ensures
        new_segments(seen, base, segments, n).1.len() <= seen.len() + n,
    decreases n,
{
    if n > 0 {
        lemma_no_more(seen, base, segments, n - 1);
    }
}

/// What was seen stays remembered, so that it is not fetched again, until more
/// than 4096 segments are; of a stream that is over everything stays.
pub proof fn law_seen_segments_are_remembered(
    m: PullModel,
    base: UrlModel,
    e: PlaylistModel,
    url: Seq<char>,
)
    requires
        e.variant is None,
        m.seen.contains(url),
    ensures
        ({
            let next = hls_planned(m, base, e).1;
            &&& m.seen.len() + e.segments.len() <= 4096 ==> next.seen.contains(url)
            &&& e.end_list ==> next.seen.contains(url)
            &&& !e.end_list ==> next.seen.len() <= 4096
        }),
{
    let n = e.segments.len() as int;
    let places = law_segments_are_fetched_in_order(m.seen, base, e.segments, n);
    let (fresh, known) = new_segments(m.seen, base, e.segments, n);
    let k = choose|k: int| 0 <= k < m.seen.len() && m.seen[k] == url;
    assert(known[k] == url);
    lemma_no_more(m.seen, base, e.segments, n);
}

/// Another playlist is read in place of one that names it, and nothing is
/// forgotten.
pub proof fn law_variant_is_read_instead(m: PullModel, base: UrlModel, e: PlaylistModel)
    requires
        e.variant is Some,
    ensures
        hls_planned(m, base, e) == (
            PlanModel {
                variant: Some(resolved(base, e.variant->0)),
                init: None,
                segments: Seq::empty(),
                last: false,
            },
            m,
        ),
{
}

/// What a path ends with before its query decides what a response holds, in
/// any case of letters.
pub proof fn law_suffix_tells_kind(stem: Seq<char>, query: Seq<char>)
    requires
        !lowered(stem).contains('?'),
    ensures
        pull_kind_of(stem + ".m3u8?"@ + query, ""@) == PullKind::Hls,
        pull_kind_of(stem + ".flv?"@ + query, ""@) == PullKind::Flv,
        pull_kind_of(stem + ".ts?"@ + query, ""@) == PullKind::Ts,
{
    reveal_strlit(".m3u8?");
    reveal_strlit(".flv?");
    reveal_strlit(".ts?");
    reveal_strlit(".m3u8");
    reveal_strlit(".flv");
    reveal_strlit(".ts");
    lemma_suffix(stem, ".m3u8"@, query);
    lemma_suffix(stem, ".flv"@, query);
    lemma_suffix(stem, ".ts"@, query);
    assert(stem + ".m3u8?"@ + query =~= stem + ".m3u8"@ + "?"@ + query) by {
        reveal_strlit("?");
    }
    assert(stem + ".flv?"@ + query =~= stem + ".flv"@ + "?"@ + query) by {
        reveal_strlit("?");
    }
    assert(stem + ".ts?"@ + query =~= stem + ".ts"@ + "?"@ + query) by {
        reveal_strlit("?");
    }
    let l = lowered(stem);
    assert(lowered(".m3u8"@) =~= ".m3u8"@);
    assert(lowered(".flv"@) =~= ".flv"@);
    assert(lowered(".ts"@) =~= ".ts"@);
    reveal_strlit("");
    reveal_strlit("mpegurl");
    reveal_strlit("flv");
    assert(lowered(""@) =~= ""@);
    lemma_empty_holds_none("mpegurl"@);
    lemma_empty_holds_none("flv"@);
    lemma_other_suffix(l, ".m3u8"@, ".flv"@);
    lemma_other_suffix(l, ".flv"@, ".m3u8"@);
    lemma_other_suffix(l, ".ts"@, ".m3u8"@);
    lemma_other_suffix(l, ".ts"@, ".flv"@);
}

proof fn lemma_empty_holds_none(p: Seq<char>)
    requires
        p.len() > 0,
    ensures
        !holds_text(""@, p),
{
    reveal_strlit("");
    crate::text_laws::law_holds_somewhere(""@, p);
}

proof fn lemma_other_suffix(l: Seq<char>, a: Seq<char>, b: Seq<char>)
    requires
        a.len() > 0,
        b.len() > 0,
        a.last() != b.last(),
    ensures
        !finishes_with(l + a, b),
        finishes_with(l + a, a),
{
    let s = l + a;
    assert(s.skip(s.len() - a.len()) =~= a);
    if finishes_with(s, b) {
        assert(s.skip(s.len() - b.len())[b.len() - 1] == s.last());
    }
}

proof fn lemma_suffix(stem: Seq<char>, suffix: Seq<char>, query: Seq<char>)
    requires
        !lowered(stem).contains('?'),
        !suffix.contains('?'),
        forall|i: int| 0 <= i < suffix.len() ==> lowered(suffix)[i] == #[trigger] suffix[i],
    ensures
        pieces(lowered(stem + suffix + "?"@ + query), '?')[0] == lowered(stem) + suffix,
{
    reveal_strlit("?");
    let a = lowered(stem) + suffix;
    let b = lowered(query);
    assert(lowered(suffix) =~= suffix);
    assert(lowered(stem + suffix + "?"@ + query) =~= a.push('?') + b);
    assert(!a.contains('?')) by {
        if a.contains('?') {
            let i = choose|i: int| 0 <= i < a.len() && a[i] == '?';
            if i < stem.len() {
                assert(lowered(stem)[i] == '?');
            } else {
                assert(suffix[i - stem.len()] == '?');
            }
        }
    }
    law_pieces_between(a, '?', b);
}

// ── bodies ──────────────────────────────────────────────────────────────

proof fn lemma_hexadecimal_bytes(n: int)
    requires
        0 <= n,
    ensures
        hexadecimal(n).len() > 0,
        vstd::utf8::is_ascii_chars(hexadecimal(n)),
        forall|i: int|
            0 <= i < hexadecimal(n).len() ==> {
                let c = #[trigger] hexadecimal(n)[i];
                '0' <= c <= '9' || 'A' <= c <= 'F'
            },
    decreases n,
{
    if n >= 16 {
        lemma_hexadecimal_bytes(n / 16);
    }
    crate::text_laws::law_hexadecimal_digits(n % 16);
}

proof fn lemma_line_place(line: Seq<u8>, rest: Seq<u8>, i: int)
    requires
        forall|k: int| 0 <= k < line.len() ==> #[trigger] line[k] != 13,
        0 <= i <= line.len(),
    ensures
        first_place(line + line_end() + rest, line_end(), i) == Some(line.len() as int),
    decreases line.len() - i,
{
    let s = line + line_end() + rest;
    if i < line.len() {
        assert(s[i] == line[i]);
        if crate::text::stands_at(s, line_end(), i) {
            assert(s.subrange(i, i + 2)[0] == 13);
        }
        lemma_line_place(line, rest, i + 1);
    } else {
        assert(s.subrange(i, i + 2) =~= line_end());
    }
}

proof fn lemma_size_line(n: int)
    requires
        0 <= n <= u64::MAX,
    ensures
        ({
            let line = encode_utf8(hexadecimal(n));
            &&& chunk_size(line) == Ok::<int, UpstreamError>(n)
            &&& forall|k: int| 0 <= k < line.len() ==> #[trigger] line[k] != 13
        }),
{
    let text = hexadecimal(n);
    lemma_hexadecimal_bytes(n);
    vstd::utf8::is_ascii_chars_encode_utf8(text);
    vstd::utf8::encode_utf8_valid_utf8(text);
    vstd::utf8::encode_utf8_decode_utf8(text);
    let line = encode_utf8(text);
    assert forall|k: int| 0 <= k < line.len() implies #[trigger] line[k] != 13 by {
        assert(line[k] == text[k] as u8);
    }
    assert(!text.contains(';')) by {
        if text.contains(';') {
            let i = choose|i: int| 0 <= i < text.len() && text[i] == ';';
            assert(text[i] == ';');
        }
    }
    law_pieces_between(text, ';', text);
    let none = Seq::<char>::empty();
    assert(text.last() == text[text.len() - 1]);
    law_white_space_is_trimmed(none, text, none);
    assert(none + text + none =~= text);
    law_hexadecimal_reads_back(n, u64::MAX as int);
}

/// A chunk is its size in hexadecimal digits, an end of line, so many bytes and
/// another end of line: it gives these bytes, and what follows it is left. A
/// chunk of size zero ends the body.
pub proof fn law_chunk_is_read(m: BodyModel, data: Seq<u8>, rest: Seq<u8>)
    requires
        m.chunked,
        !m.finished,
        data.len() <= u64::MAX,
    ensures
        data.len() > 0 && m.buffer == encode_utf8(hexadecimal(data.len() as int)) + line_end()
            + data + line_end() + rest ==> body_step(m) == Ok::<
            (StepModel, BodyModel),
            UpstreamError,
        >((StepModel::Data(data), BodyModel { buffer: rest, ..m })),
        m.buffer == encode_utf8(hexadecimal(0)) + line_end() + rest ==> body_step(m) == Ok::<
            (StepModel, BodyModel),
            UpstreamError,
        >((StepModel::Finished, BodyModel { buffer: rest, finished: true, ..m })),
        line_end() == seq![0x0du8, 0x0a],
{
    let n = data.len() as int;
    lemma_size_line(n);
    lemma_size_line(0);
    let line = encode_utf8(hexadecimal(n));
    if n > 0 && m.buffer == line + line_end() + data + line_end() + rest {
        let tail = data + line_end() + rest;
        assert(m.buffer =~= line + line_end() + tail);
        lemma_line_place(line, tail, 0);
        let k = line.len() as int;
        assert(m.buffer.take(k) =~= line);
        assert(m.buffer.skip(k + 2) =~= tail);
        assert(tail.subrange(n, n + 2) =~= line_end());
        assert(tail.take(n) =~= data);
        assert(tail.skip(n + 2) =~= rest);
    }
    let last = encode_utf8(hexadecimal(0));
    if m.buffer == last + line_end() + rest {
        lemma_line_place(last, rest, 0);
        let k = last.len() as int;
        assert(m.buffer.take(k) =~= last);
        assert(m.buffer.skip(k + 2) =~= rest);
    }
}

/// A body of known length hands out all that was read up to its length at
/// once, and then ends; one of unknown length all that was read.
pub proof fn law_body_gives_what_was_read(m: BodyModel, n: int)
    requires
        !m.chunked,
        !m.finished,
        m.buffer.len() > 0,
        m.remaining is Some ==> m.remaining == Some(n) && n >= 0,
    ensures
        m.remaining is None ==> body_step(m) == Ok::<(StepModel, BodyModel), UpstreamError>(
            (StepModel::Data(m.buffer), BodyModel { buffer: Seq::empty(), ..m }),
        ),
        m.remaining is Some && 0 < n <= m.buffer.len() ==> body_step(m) == Ok::<
            (StepModel, BodyModel),
            UpstreamError,
        >(
            (
                StepModel::Data(m.buffer.take(n)),
                BodyModel { buffer: m.buffer.skip(n), remaining: Some(0), ..m },
            ),
        ),
        m.remaining is Some && n > m.buffer.len() ==> body_step(m) == Ok::<
            (StepModel, BodyModel),
            UpstreamError,
        >(
            (
                StepModel::Data(m.buffer),
                BodyModel {
                    buffer: Seq::empty(),
                    remaining: Some(n - m.buffer.len()),
                    ..m
                },
            ),
        ),
        m.remaining == Some(0int) ==> body_step(m) is Ok && (body_step(m)->Ok_0).0
            == StepModel::Finished && (body_step(m)->Ok_0).1.finished,
{
    if m.remaining == Some(n) && n == m.buffer.len() {
        assert(m.buffer.take(n) =~= m.buffer);
        assert(m.buffer.skip(n) =~= Seq::<u8>::empty());
    }
}

// ── heads of responses ──────────────────────────────────────────────────

proof fn lemma_word(word: Seq<char>, rest: Seq<char>)
    requires
        forall|i: int| 0 <= i < word.len() ==> !is_white(#[trigger] word[i]),
        rest.len() == 0 || is_white(rest[0]),
    ensures
        up_to_white(word + rest) == word,
    decreases word.len(),
{
    let s = word + rest;
    if word.len() > 0 {
        assert(s[0] == word[0]);
        assert(s.skip(1) =~= word.skip(1) + rest);
        assert forall|i: int| 0 <= i < word.skip(1).len() implies !is_white(
            #[trigger] word.skip(1)[i],
        ) by {
            assert(word.skip(1)[i] == word[i + 1]);
        }
        lemma_word(word.skip(1), rest);
        assert(seq![word[0]] + word.skip(1) =~= word);
    } else {
        assert(s =~= rest);
        assert(word =~= Seq::<char>::empty());
    }
}

/// The status of a response is the number behind the first word of its first
/// line.
pub proof fn law_status_is_read(version: Seq<char>, status: int, reason: Seq<char>)
    requires
        version.len() > 0,
        forall|i: int| 0 <= i < version.len() ==> !is_white(#[trigger] version[i]),
        0 <= status <= 65535,
    ensures
        parsed_number(second_word(version.push(' ') + (decimal(status).push(' ') + reason)), 65535)
            == Some(status),
        parsed_number(second_word(version.push(' ') + decimal(status)), 65535) == Some(status),
{
    law_number_reads_back(status, 65535);
    lemma_second_word(version, decimal(status), seq![' '] + reason);
    lemma_second_word(version, decimal(status), Seq::empty());
    assert(decimal(status) + (seq![' '] + reason) =~= decimal(status).push(' ') + reason);
    assert(decimal(status) + Seq::<char>::empty() =~= decimal(status));
}

proof fn lemma_second_word(a: Seq<char>, b: Seq<char>, rest: Seq<char>)
    requires
        a.len() > 0,
        b.len() > 0,
        forall|i: int| 0 <= i < a.len() ==> !is_white(#[trigger] a[i]),
        forall|i: int| 0 <= i < b.len() ==> crate::text::is_digit(#[trigger] b[i]),
        rest.len() == 0 || is_white(rest[0]),
    ensures
        second_word(a.push(' ') + (b + rest)) == b,
{
    let tail = b + rest;
    let s = a.push(' ') + tail;
    assert(s[0] == a[0]);
    assert(trim_white_front(s) == s);
    assert(s =~= a + (seq![' '] + tail));
    lemma_word(a, seq![' '] + tail);
    let t = seq![' '] + tail;
    assert(s.skip(a.len() as int) =~= t);
    assert(t.skip(1) =~= tail);
    assert(tail[0] == b[0]);
    assert(crate::text::is_digit(b[0]));
    assert(trim_white_front(tail) == tail);
    assert(trim_white_front(t) == tail);
    assert forall|i: int| 0 <= i < b.len() implies !is_white(#[trigger] b[i]) by {
        assert(crate::text::is_digit(b[i]));
    }
    lemma_word(b, rest);
}

/// A header of a response has the value of the last line that gives it, in
/// any case of letters; a name that no line gives has none.
pub proof fn law_last_header_counts(
    all: Seq<Seq<char>>,
    n: int,
    i: int,
    name: Seq<char>,
    value: Seq<char>,
)
    requires
        1 <= i < n <= all.len(),
        !name.contains(':'),
        all[i] == name.push(':') + value,
        forall|j: int|
            i < j < n ==> {
                let cut = cut_at(#[trigger] all[j], ':');
                cut is None || lowered(trimmed((cut->0).0)) != lowered(trimmed(name))
            },
    ensures
        headers_of(all, n).dom().contains(lowered(trimmed(name))),
        headers_of(all, n)[lowered(trimmed(name))] == trimmed(value),
    decreases n,
{
    law_cut_at_first(name, ':', value);
    if n > i + 1 {
        law_last_header_counts(all, n - 1, i, name, value);
        assert(cut_at(all[n - 1], ':') is None || lowered(trimmed((cut_at(all[n - 1], ':')->0).0))
            != lowered(trimmed(name)));
    }
}

/// A response that is somewhere else is sought where it says, seen from where
/// it came; one in the two hundreds is read, in chunks or up to its length, as
/// it says; any other is refused with its status.
pub proof fn law_status_decides(
    base: UrlModel,
    status: int,
    headers: Map<Seq<char>, Seq<char>>,
    length: int,
)
    requires
        0 <= status <= 65535,
        0 <= length <= u64::MAX,
    ensures
        ({
            let r = response_action(base, status, headers);
            let moved = status == 301 || status == 302 || status == 303 || status == 307 || status
                == 308;
            let to = headers.dom().contains("location"@);
            let sized = headers.dom().contains("content-length"@);
            let coded = headers.dom().contains("transfer-encoding"@);
            &&& moved && to ==> r == Ok::<ActionModel, UpstreamError>(
                ActionModel::Redirect(resolved(base, headers["location"@])),
            )
            &&& moved && !to ==> r == Err::<ActionModel, UpstreamError>(
                UpstreamError::MissingLocation,
            )
            &&& !moved && !(200 <= status <= 299) ==> r == Err::<ActionModel, UpstreamError>(
                UpstreamError::Status(status as u16),
            )
            &&& 200 <= status <= 299 && !sized && !coded ==> r == Ok::<ActionModel, UpstreamError>(
                ActionModel::Accept { chunked: false, length: None },
            )
            &&& 200 <= status <= 299 && sized && headers["content-length"@] == decimal(length)
                && !coded ==> r == Ok::<ActionModel, UpstreamError>(
                ActionModel::Accept { chunked: false, length: Some(length) },
            )
            &&& 200 <= status <= 299 && !sized && coded && lowered(headers["transfer-encoding"@])
                == "chunked"@ ==> r == Ok::<ActionModel, UpstreamError>(
                ActionModel::Accept { chunked: true, length: None },
            )
        }),
{
    law_number_reads_back(length, u64::MAX as int);
    assert(holds_text("chunked"@, "chunked"@)) by {
        crate::text_laws::law_holds_somewhere("chunked"@, "chunked"@);
        assert("chunked"@.subrange(0, "chunked"@.len() as int) =~= "chunked"@);
        assert(crate::text::stands_at("chunked"@, "chunked"@, 0));
    }
}

/// The head of a response ends at the first empty line; what is not complete
/// after 65536 bytes is too large.
pub proof fn law_head_ends_at_empty_line(head: Seq<u8>, end: Seq<u8>, rest: Seq<u8>)
    requires
        end == seq![13u8, 10, 13, 10],
        forall|k: int|
            0 <= k < head.len() ==> !#[trigger] stands_at(head + end + rest, end, k),
        forall|k: int| 0 <= k ==> !#[trigger] stands_at(head, end, k),
        head.len() <= usize::MAX,
    ensures
        head_state(head + end + rest) == HeadProgress::Complete(head.len() as usize),
        head.len() < 65536 ==> head_state(head) == HeadProgress::NeedMore,
        head.len() >= 65536 ==> head_state(head) == HeadProgress::TooLarge,
{
    assert(blank_line() =~= end);
    lemma_place(head, end, rest, 0);
    lemma_no_place(head, end, 0);
}

proof fn lemma_place(a: Seq<u8>, p: Seq<u8>, b: Seq<u8>, i: int)
    requires
        0 <= i <= a.len(),
        p.len() > 0,
        forall|k: int| 0 <= k < a.len() ==> !#[trigger] stands_at(a + p + b, p, k),
    ensures
        first_place(a + p + b, p, i) == Some(a.len() as int),
    decreases a.len() - i,
{
    let s = a + p + b;
    if i < a.len() {
        assert(!stands_at(s, p, i));
        lemma_place(a, p, b, i + 1);
    } else {
        assert(s.subrange(i, i + p.len()) =~= p);
    }
}

proof fn lemma_no_place(s: Seq<u8>, p: Seq<u8>, i: int)
    requires
        0 <= i,
        p.len() > 0,
        forall|k: int| 0 <= k ==> !#[trigger] stands_at(s, p, k),
    ensures
        first_place(s, p, i) is None,
    decreases s.len() - i,
{
    assert(!stands_at(s, p, i));
    if i < s.len() {
        lemma_no_place(s, p, i + 1);
    }
}

/// Five redirects are followed, and no more.
pub proof fn law_redirects_are_bounded(followed: u32)
    ensures
        follows_redirect(followed) <==> followed < 5,
{
}

/// While a chunk is not complete nothing is given and nothing is lost. A chunk
/// without an end of line behind it, or with a size that is no number, is
/// refused.
pub proof fn law_incomplete_chunk_waits(m: BodyModel, data: Seq<u8>, n: int, a: u8, b: u8)
    requires
        m.chunked,
        !m.finished,
        0 < data.len() <= u64::MAX,
    ensures
        ({
            let front = encode_utf8(hexadecimal(data.len() as int)) + line_end();
            &&& 0 <= n < data.len() + 2 && m.buffer == front + (data + line_end()).take(n)
                ==> body_step(m) == Ok::<(StepModel, BodyModel), UpstreamError>(
                (StepModel::NeedMore, m),
            )
            &&& (a != 13 || b != 10) && m.buffer == front + (data + seq![a, b]) ==> body_step(m)
                == Err::<(StepModel, BodyModel), UpstreamError>(UpstreamError::ChunkTerminator)
            &&& m.buffer == encode_utf8(hexadecimal(data.len() as int)) ==> body_step(m) == Ok::<(StepModel, BodyModel), UpstreamError>(
                (StepModel::NeedMore, m),
            )
        }),
{
    let size = data.len() as int;
    lemma_size_line(size);
    let line = encode_utf8(hexadecimal(size));
    let k = line.len() as int;
    let tail = (data + line_end()).take(n);
    if 0 <= n < data.len() + 2 && m.buffer == line + line_end() + tail {
        lemma_line_place(line, tail, 0);
        assert(m.buffer.take(k) =~= line);
        assert(m.buffer.skip(k + 2) =~= tail);
    }
    let bad = data + seq![a, b];
    if (a != 13 || b != 10) && m.buffer == line + line_end() + bad {
        lemma_line_place(line, bad, 0);
        assert(m.buffer.take(k) =~= line);
        assert(m.buffer.skip(k + 2) =~= bad);
        let end = bad.subrange(size, size + 2);
        assert(end[0] == a && end[1] == b);
    }
    if m.buffer == line {
        assert forall|i: int| 0 <= i implies !#[trigger] stands_at(line, line_end(), i) by {
            if stands_at(line, line_end(), i) {
                assert(line.subrange(i, i + 2)[0] == 13);
                assert(line[i] == 13);
            }
        }
        lemma_no_place(line, line_end(), 0);
    }
}

/// A length that is no number is refused.
pub proof fn law_wrong_length_is_refused(
    base: UrlModel,
    status: int,
    headers: Map<Seq<char>, Seq<char>>,
)
    requires
        200 <= status <= 299,
        headers.dom().contains("content-length"@),
        headers["content-length"@].len() > 0,
        !crate::text::is_digit(headers["content-length"@][0]),
        headers["content-length"@][0] != '+',
    ensures
        response_action(base, status, headers) == Err::<ActionModel, UpstreamError>(
            UpstreamError::ContentLength,
        ),
{
    crate::text_laws::law_other_characters_make_no_number(
        headers["content-length"@],
        u64::MAX as int,
        0,
    );
}

/// A frame of a kind and codec that no track carries adds one track for it,
/// behind the others: pictures of unknown size, or sound in stereo at 44.1 kHz
/// and 16 bits. Metadata adds none.
pub proof fn law_new_track_is_registered(tracks: Seq<TrackInfo>, f: FrameModel)
    requires
        !any_carries(tracks, f.frame_type, f.codec),
    ensures
        ({
            let r = registered(tracks, f);
            &&& f.frame_type == FrameType::Metadata ==> r == tracks
            &&& f.frame_type != FrameType::Metadata ==> r.len() == tracks.len() + 1 && r.drop_last()
                == tracks
            &&& f.frame_type == FrameType::Video ==> (r.last() matches TrackInfo::Video(v)
                && v.codec == f.codec && v.width == 0 && v.height == 0 && v.fps == 0 && v.key_frame
                == f.key_frame)
            &&& f.frame_type == FrameType::Audio ==> (r.last() matches TrackInfo::Audio(a)
                && a.codec == f.codec && a.sample_rate == 44100 && a.channels == 2
                && a.bits_per_sample == 16)
        }),
{
    let r = registered(tracks, f);
    if f.frame_type != FrameType::Metadata {
        assert(r.drop_last() =~= tracks);
    }
}

/// A body in chunks that ends inside a chunk is cut off, and one that ends
/// before the size of a chunk is complete lacks it; any other body is over, and
/// hands out nothing more.
pub proof fn law_body_ends(m: BodyModel, data: Seq<u8>, n: int)
    requires
        0 < data.len() <= u64::MAX,
        0 <= n < data.len() + 2,
    ensures
        ({
            let size = encode_utf8(hexadecimal(data.len() as int));
            &&& m.chunked && !m.finished && m.buffer == size + line_end() + (data
                + line_end()).take(n) ==> ended(m) == Err::<BodyModel, UpstreamError>(
                UpstreamError::ChunkBodyTruncated,
            )
            &&& m.chunked && !m.finished && m.buffer == size ==> ended(m) == Err::<
                BodyModel,
                UpstreamError,
            >(UpstreamError::ChunkHeaderTruncated)
            &&& !m.chunked || m.finished ==> ended(m) is Ok && body_step(ended(m)->Ok_0) is Ok && (
            body_step(ended(m)->Ok_0)->Ok_0).0 == StepModel::Finished
        }),
{
    let size = encode_utf8(hexadecimal(data.len() as int));
    lemma_size_line(data.len() as int);
    lemma_line_place(size, (data + line_end()).take(n), 0);
    assert forall|i: int| 0 <= i implies !#[trigger] stands_at(size, line_end(), i) by {
        if stands_at(size, line_end(), i) {
            assert(size.subrange(i, i + 2)[0] == 13);
            assert(size[i] == 13);
        }
    }
    lemma_no_place(size, line_end(), 0);
}

} // verus!
