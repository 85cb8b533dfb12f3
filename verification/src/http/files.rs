//! Files below a root: paths, types, ranges and directory listings.
use vstd::prelude::*;
use vstd::string::*;
use crate::bytes::views;
use crate::http::responses::{CachePolicy, content_response, text_response};
use crate::mp4::vod::{join_path, joined};
use crate::text::{
    begins_with, chars_of, copy_text, cut_at, cut_at_last, decimal, is_text, lines, lines_of,
    lowered, parse_number, parsed_number, pieces, push_chars, push_decimal, same_text, split,
    split_once, split_once_last, starts_with, strip_prefix, text_of, to_lower, trim, trim_back,
    trim_end_char, trim_front, trim_start_char, trimmed, without_prefix,
};

verus! {

// ── paths ───────────────────────────────────────────────────────────────

/// Whether a part of a path names something: the empty part and `.` stay
/// where they are.
pub open spec fn names_entry(part: Seq<char>) -> bool {
    part.len() > 0 && part != "."@
}

/// A path with the first `n` parts behind it that name something.
pub open spec fn extended(root: Seq<char>, parts: Seq<Seq<char>>, n: int) -> Seq<char>
    decreases n,
{
    if n <= 0 {
        root
    } else if names_entry(parts[n - 1]) {
        joined(extended(root, parts, n - 1), parts[n - 1])
    } else {
        extended(root, parts, n - 1)
    }
}

/// A path below a root; nothing when it steps upwards.
pub open spec fn safe_joined(root: Seq<char>, rel: Seq<char>) -> Option<Seq<char>> {
    let parts = pieces(trim_front(rel, '/'), '/');
    if parts.contains(".."@) {
        None
    } else {
        Some(extended(root, parts, parts.len() as int))
    }
}

/// A path below a root; `None` when it steps upwards.
pub fn safe_join(root: &str, rel: &str) -> (r: Option<String>)
    ensures
        same_text(r, safe_joined(root@, rel@)),
{
    let chars = chars_of(rel);
    let parts = split(trim_start_char(chars.as_slice(), '/'), '/');
    let ghost models = views(parts@);
    let mut out = copy_text(root);
    let mut i: usize = 0;
    while i < parts.len()
        invariant
            i <= parts@.len(),
            models == views(parts@),
            models == pieces(trim_front(rel@, '/'), '/'),
            forall|j: int| 0 <= j < i ==> #[trigger] models[j] != ".."@,
            out@ == extended(root@, models, i as int),
        decreases parts@.len() - i,
    {
        assert(models[i as int] == parts@[i as int]@);
        if is_text(parts[i], "..") {
            assert(models.contains(".."@));
            return None;
        }
        if parts[i].len() > 0 && !is_text(parts[i], ".") {
            out = join_path(out.as_str(), parts[i]);
        }
        i = i + 1;
    }
    Some(out)
}

/// A part of a path holds no separator.
proof fn lemma_pieces_hold_none(s: Seq<char>, c: char, i: int)
    requires
        0 <= i < pieces(s, c).len(),
    ensures
        !pieces(s, c)[i].contains(c),
    decreases s.len(),
{
    crate::text::lemma_first_at(s, c, 0);
    if let Some(k) = crate::text::first_at(s, c, 0) {
        assert(pieces(s, c) == seq![s.take(k)] + pieces(s.skip(k + 1), c));
        if i > 0 {
            lemma_pieces_hold_none(s.skip(k + 1), c, i - 1);
            assert(pieces(s, c)[i] == pieces(s.skip(k + 1), c)[i - 1]);
        }
    }
}

proof fn lemma_extended_below(root: Seq<char>, parts: Seq<Seq<char>>, n: int)
    requires
        0 <= n <= parts.len(),
        forall|i: int| 0 <= i < parts.len() ==> !(#[trigger] parts[i]).contains('/'),
    ensures
        begins_with(extended(root, parts, n), root),
    decreases n,
{
    if n <= 0 {
        assert(root.take(root.len() as int) =~= root);
    } else {
        lemma_extended_below(root, parts, n - 1);
        let before = extended(root, parts, n - 1);
        let part = parts[n - 1];
        if names_entry(part) {
            assert(part[0] != '/') by {
                assert(part.contains(part[0]));
            }
            let after = joined(before, part);
            assert(after.take(root.len() as int) =~= before.take(root.len() as int));
        }
    }
}

/// A joined path begins with the root, and no part behind it steps upwards or
/// starts anew at the top.
pub proof fn law_safe_join_stays_below_root(root: Seq<char>, rel: Seq<char>, path: Seq<char>)
    requires
        safe_joined(root, rel) == Some(path),
    ensures
        begins_with(path, root),
        forall|i: int|
            0 <= i < pieces(trim_front(rel, '/'), '/').len() ==> {
                let part = #[trigger] pieces(trim_front(rel, '/'), '/')[i];
                part != ".."@ && !part.contains('/')
            },
{
    let parts = pieces(trim_front(rel, '/'), '/');
    assert forall|i: int| 0 <= i < parts.len() implies !(#[trigger] parts[i]).contains('/')
        && parts[i] != ".."@ by {
        lemma_pieces_hold_none(trim_front(rel, '/'), '/', i);
        assert(parts.contains(parts[i]));
    }
    lemma_extended_below(root, parts, parts.len() as int);
}

// ── types ───────────────────────────────────────────────────────────────

/// The last of the first `n` parts that names something.
pub open spec fn last_name(parts: Seq<Seq<char>>, n: int) -> Seq<char>
    decreases n,
{
    if n <= 0 {
        Seq::empty()
    } else if names_entry(parts[n - 1]) {
        parts[n - 1]
    } else {
        last_name(parts, n - 1)
    }
}

/// The extension of a path: what follows the last dot of its last name,
/// unless that dot begins the name; nothing for `..`.
pub open spec fn extension_of(path: Seq<char>) -> Option<Seq<char>> {
    let parts = pieces(path, '/');
    let name = last_name(parts, parts.len() as int);
    if name == ".."@ {
        None
    } else {
        match cut_at_last(name, '.') {
            Some((stem, ext)) => if stem.len() > 0 {
                Some(ext)
            } else {
                None
            },
            None => None,
        }
    }
}

fn find_last_name<'a>(parts: &Vec<&'a [char]>) -> (r: Option<&'a [char]>)
    ensures
        match r {
            Some(name) => name@ == last_name(views(parts@), parts@.len() as int),
            None => last_name(views(parts@), parts@.len() as int).len() == 0,
        },
{
    let ghost models = views(parts@);
    let mut n: usize = parts.len();
    while n > 0
        invariant
            n <= parts@.len(),
            models == views(parts@),
            last_name(models, n as int) == last_name(models, parts@.len() as int),
        decreases n,
    {
        assert(models[n - 1] == parts@[n - 1]@);
        if parts[n - 1].len() > 0 && !is_text(parts[n - 1], ".") {
            return Some(parts[n - 1]);
        }
        n = n - 1;
    }
    None
}

/// The extension of a path.
pub fn extension(path: &str) -> (r: Option<String>)
    ensures
        same_text(r, extension_of(path@)),
{
    let chars = chars_of(path);
    let parts = split(chars.as_slice(), '/');
    let name = match find_last_name(&parts) {
        Some(n) => n,
        None => {
            proof {
                reveal_strlit("..");
            }
            return None;
        },
    };
    if is_text(name, "..") {
        return None;
    }
    match split_once_last(name, '.') {
        Some((stem, ext)) => if stem.len() > 0 {
            Some(text_of(ext))
        } else {
            None
        },
        None => None,
    }
}

/// The type of a file with the given extension, which is in lower case.
pub open spec fn mime_of(ext: Seq<char>) -> Seq<char> {
    if ext == "flv"@ {
        "video/x-flv"@
    } else if ext == "mp4"@ || ext == "m4v"@ || ext == "mov"@ {
        "video/mp4"@
    } else if ext == "ts"@ {
        "video/mp2t"@
    } else if ext == "m4s"@ {
        "video/iso.segment"@
    } else if ext == "webm"@ {
        "video/webm"@
    } else if ext == "m3u8"@ {
        "application/vnd.apple.mpegurl"@
    } else if ext == "m3u"@ {
        "audio/mpegurl"@
    } else if ext == "mp3"@ {
        "audio/mpeg"@
    } else if ext == "aac"@ {
        "audio/aac"@
    } else if ext == "ogg"@ || ext == "oga"@ {
        "audio/ogg"@
    } else if ext == "wav"@ {
        "audio/wav"@
    } else if ext == "opus"@ {
        "audio/opus"@
    } else if ext == "html"@ || ext == "htm"@ {
        "text/html; charset=utf-8"@
    } else if ext == "js"@ || ext == "mjs"@ {
        "application/javascript"@
    } else if ext == "css"@ {
        "text/css"@
    } else if ext == "json"@ {
        "application/json"@
    } else if ext == "xml"@ {
        "application/xml"@
    } else if ext == "txt"@ || ext == "log"@ {
        "text/plain; charset=utf-8"@
    } else if ext == "png"@ {
        "image/png"@
    } else if ext == "jpg"@ || ext == "jpeg"@ {
        "image/jpeg"@
    } else if ext == "gif"@ {
        "image/gif"@
    } else if ext == "svg"@ {
        "image/svg+xml"@
    } else if ext == "webp"@ {
        "image/webp"@
    } else if ext == "ico"@ {
        "image/x-icon"@
    } else if ext == "woff"@ {
        "font/woff"@
    } else if ext == "woff2"@ {
        "font/woff2"@
    } else if ext == "ttf"@ {
        "font/ttf"@
    } else if ext == "otf"@ {
        "font/otf"@
    } else if ext == "wasm"@ {
        "application/wasm"@
    } else if ext == "pdf"@ {
        "application/pdf"@
    } else {
        "application/octet-stream"@
    }
}

/// The type of the file at a path.
pub open spec fn mime_of_path(path: Seq<char>) -> Seq<char> {
    match extension_of(path) {
        Some(ext) => mime_of(lowered(ext)),
        None => "application/octet-stream"@,
    }
}

/// The type of the file at a path.
pub fn mime_for(path: &str) -> (r: &'static str)
    ensures
        r@ == mime_of_path(path@),
{
    let ext = match extension(path) {
        Some(e) => e,
        None => {
            return "application/octet-stream";
        },
    };
    let chars = chars_of(ext.as_str());
    let low = to_lower(chars.as_slice());
    let e = low.as_slice();
    if is_text(e, "flv") {
        "video/x-flv"
    } else if is_text(e, "mp4") || is_text(e, "m4v") || is_text(e, "mov") {
        "video/mp4"
    } else if is_text(e, "ts") {
        "video/mp2t"
    } else if is_text(e, "m4s") {
        "video/iso.segment"
    } else if is_text(e, "webm") {
        "video/webm"
    } else if is_text(e, "m3u8") {
        "application/vnd.apple.mpegurl"
    } else if is_text(e, "m3u") {
        "audio/mpegurl"
    } else if is_text(e, "mp3") {
        "audio/mpeg"
    } else if is_text(e, "aac") {
        "audio/aac"
    } else if is_text(e, "ogg") || is_text(e, "oga") {
        "audio/ogg"
    } else if is_text(e, "wav") {
        "audio/wav"
    } else if is_text(e, "opus") {
        "audio/opus"
    } else if is_text(e, "html") || is_text(e, "htm") {
        "text/html; charset=utf-8"
    } else if is_text(e, "js") || is_text(e, "mjs") {
        "application/javascript"
    } else if is_text(e, "css") {
        "text/css"
    } else if is_text(e, "json") {
        "application/json"
    } else if is_text(e, "xml") {
        "application/xml"
    } else if is_text(e, "txt") || is_text(e, "log") {
        "text/plain; charset=utf-8"
    } else if is_text(e, "png") {
        "image/png"
    } else if is_text(e, "jpg") || is_text(e, "jpeg") {
        "image/jpeg"
    } else if is_text(e, "gif") {
        "image/gif"
    } else if is_text(e, "svg") {
        "image/svg+xml"
    } else if is_text(e, "webp") {
        "image/webp"
    } else if is_text(e, "ico") {
        "image/x-icon"
    } else if is_text(e, "woff") {
        "font/woff"
    } else if is_text(e, "woff2") {
        "font/woff2"
    } else if is_text(e, "ttf") {
        "font/ttf"
    } else if is_text(e, "otf") {
        "font/otf"
    } else if is_text(e, "wasm") {
        "application/wasm"
    } else if is_text(e, "pdf") {
        "application/pdf"
    } else {
        "application/octet-stream"
    }
}

// ── ranges ──────────────────────────────────────────────────────────────

/// The first and last byte that a range header asks for. A range that counts
/// from the end is not served as one.
pub open spec fn range_in_line(line: Seq<char>) -> Option<(int, Option<int>)> {
    let value = match cut_at(line, ':') {
        Some((_, v)) => trimmed(v),
        None => Seq::empty(),
    };
    match without_prefix(value, "bytes="@) {
        Some(spec_text) => if spec_text.len() > 0 && spec_text[0] == '-' {
            None
        } else {
            let (first, last) = match cut_at(spec_text, '-') {
                Some((a, b)) => (a, b),
                None => (spec_text, Seq::empty()),
            };
            let start = match parsed_number(first, u64::MAX as int) {
                Some(n) => n,
                None => 0,
            };
            Some((start, parsed_number(last, u64::MAX as int)))
        },
        None => None,
    }
}

/// The range that the first range header from line `i` on asks for.
pub open spec fn range_among(all: Seq<Seq<char>>, i: int) -> Option<(int, Option<int>)>
    decreases all.len() - i,
{
    if i < 0 || i >= all.len() {
        None
    } else if begins_with(lowered(all[i]), "range:"@) {
        range_in_line(all[i])
    } else {
        range_among(all, i + 1)
    }
}

/// Whether a range is the given one.
pub open spec fn same_range(r: Option<(u64, Option<u64>)>, m: Option<(int, Option<int>)>) -> bool {
    match (r, m) {
        (Some(a), Some(b)) => a.0 == b.0 && match (a.1, b.1) {
            (Some(x), Some(y)) => x == y,
            (None, None) => true,
            _ => false,
        },
        (None, None) => true,
        _ => false,
    }
}

fn parse_range(line: &[char]) -> (r: Option<(u64, Option<u64>)>)
    ensures
        same_range(r, range_in_line(line@)),
{
    let value = match split_once(line, ':') {
        Some((_, v)) => trim(v),
        None => {
            proof {
                reveal_strlit("bytes=");
            }
            return None;
        },
    };
    let spec_text = match strip_prefix(value, "bytes=") {
        Some(s) => s,
        None => {
            return None;
        },
    };
    if spec_text.len() > 0 && spec_text[0] == '-' {
        return None;
    }
    match split_once(spec_text, '-') {
        Some((first, last)) => {
            let start: u64 = match parse_number(first, u64::MAX) {
                Some(n) => n,
                None => 0,
            };
            Some((start, parse_number(last, u64::MAX)))
        },
        None => {
            let start: u64 = match parse_number(spec_text, u64::MAX) {
                Some(n) => n,
                None => 0,
            };
            Some((start, None))
        },
    }
}

/// The first and last byte that a request asks for.
pub fn extract_range(request: &str) -> (r: Option<(u64, Option<u64>)>)
    ensures
        same_range(r, range_among(lines_of(request@), 0)),
{
    let chars = chars_of(request);
    let all = lines(chars.as_slice());
    let ghost models = views(all@);
    let mut i: usize = 0;
    while i < all.len()
        invariant
            i <= all@.len(),
            models == views(all@),
            models == lines_of(request@),
            range_among(models, i as int) == range_among(models, 0),
        decreases all@.len() - i,
    {
        assert(models[i as int] == all@[i as int]@);
        let low = to_lower(all[i]);
        if starts_with(low.as_slice(), "range:") {
            return parse_range(all[i]);
        }
        i = i + 1;
    }
    None
}

/// What of a file is sent: from byte `start` through byte `end`.
#[derive(Debug, Clone, Copy, PartialEq, Eq, Structural)]
pub struct FilePlan {
    pub start: u64,
    pub end: u64,
    pub len: u64,
    pub partial: bool,
}

/// The smaller of two numbers.
pub open spec fn smaller(a: int, b: int) -> int {
    if a <= b {
        a
    } else {
        b
    }
}

/// The first and last byte that are sent of a file with `total` bytes, and
/// whether they answer a range. An empty file counts as one byte.
pub open spec fn planned(total: int, range: Option<(u64, Option<u64>)>) -> (int, int, bool) {
    match range {
        Some((s, e)) => if total > 0 {
            let last = match e {
                Some(n) => smaller(n as int, total - 1),
                None => total - 1,
            };
            (smaller(s as int, last), last, true)
        } else {
            (0, 0, false)
        },
        None => if total > 0 {
            (0, total - 1, false)
        } else {
            (0, 0, false)
        },
    }
}

/// What of a file is sent.
pub fn plan_file(total: u64, range: Option<(u64, Option<u64>)>) -> (r: FilePlan)
    ensures
        (r.start as int, r.end as int, r.partial) == planned(total as int, range),
        r.len == r.end - r.start + 1,
{
    let (start, end, partial): (u64, u64, bool) = match range {
        Some((s, e)) if total > 0 => {
            let last: u64 = total - 1;
            let end: u64 = match e {
                Some(n) => if n <= last {
                    n
                } else {
                    last
                },
                None => last,
            };
            let start: u64 = if s <= end {
                s
            } else {
                end
            };
            (start, end, true)
        },
        _ => (
            0,
            if total > 0 {
                total - 1
            } else {
                0
            },
            false,
        ),
    };
    FilePlan { start, end, len: end - start + 1, partial }
}

/// What is sent of a file that is not empty lies in it.
pub proof fn law_plan_lies_in_file(total: int, range: Option<(u64, Option<u64>)>)
    requires
        total > 0,
    ensures
        0 <= planned(total, range).0 <= planned(total, range).1 < total,
        range is None ==> planned(total, range) == (0int, total - 1, false),
{
}

/// The header of a response with a part of a file.
pub open spec fn file_header_of(
    mime: Seq<char>,
    start: int,
    end: int,
    partial: bool,
    total: int,
) -> Seq<char> {
    let head = (if partial {
        "HTTP/1.1 206 Partial Content\r\nContent-Type: "@
    } else {
        "HTTP/1.1 200 OK\r\nContent-Type: "@
    }) + mime + "\r\nAccept-Ranges: bytes\r\nContent-Length: "@ + decimal(end - start + 1)
        + "\r\n"@;
    let ranged = if partial {
        head + "Content-Range: bytes "@ + decimal(start) + "-"@ + decimal(end) + "/"@ + decimal(
            total,
        ) + "\r\n"@
    } else {
        head
    };
    ranged + "Connection: close\r\n\r\n"@
}

/// The header of a response with the planned part of a file.
pub fn file_header(path: &str, plan: FilePlan, total: u64) -> (r: String)
    requires
        plan.len == plan.end - plan.start + 1,
    ensures
        r@ == file_header_of(
            mime_of_path(path@),
            plan.start as int,
            plan.end as int,
            plan.partial,
            total as int,
        ),
{
    let mut out = if plan.partial {
        copy_text("HTTP/1.1 206 Partial Content\r\nContent-Type: ")
    } else {
        copy_text("HTTP/1.1 200 OK\r\nContent-Type: ")
    };
    out.append(mime_for(path));
    out.append("\r\nAccept-Ranges: bytes\r\nContent-Length: ");
    push_decimal(&mut out, plan.len);
    out.append("\r\n");
    if plan.partial {
        out.append("Content-Range: bytes ");
        push_decimal(&mut out, plan.start);
        out.append("-");
        push_decimal(&mut out, plan.end);
        out.append("/");
        push_decimal(&mut out, total);
        out.append("\r\n");
    }
    out.append("Connection: close\r\n\r\n");
    out
}

/// What is read next of a file of which `remaining` bytes are left to send.
pub fn next_read(remaining: u64) -> (r: usize)
    ensures
        r == smaller(remaining as int, 65536),
{
    if remaining <= 65536 {
        remaining as usize
    } else {
        65536
    }
}

// ── directories ─────────────────────────────────────────────────────────

/// Whether a text comes before another: at the first place where they differ
/// its character is the smaller one, or it has none.
pub open spec fn text_before(a: Seq<char>, b: Seq<char>) -> bool
    decreases a.len(),
{
    if b.len() == 0 {
        false
    } else if a.len() == 0 {
        true
    } else if a[0] != b[0] {
        a[0] < b[0]
    } else {
        text_before(a.skip(1), b.skip(1))
    }
}

/// Whether a directory entry may stand before another: by name, files before
/// directories of the same name.
pub open spec fn entry_le(a: (String, bool), b: (String, bool)) -> bool {
    if a.0@ == b.0@ {
        !a.1 || b.1
    } else {
        text_before(a.0@, b.0@)
    }
}

/// Whether directory entries stand in order.
pub open spec fn ordered(items: Seq<(String, bool)>) -> bool {
    forall|i: int, j: int|
        0 <= i <= j < items.len() ==> entry_le(#[trigger] items[i], #[trigger] items[j])
}

/// `slice::sort` of std on names with a flag: the same items, in ascending
/// order. Strings are ordered by their code points, and `false` comes before
/// `true`.
#[verifier::external_body]
fn sort_entries(v: &mut Vec<(String, bool)>)
    ensures
        final(v)@.to_multiset() == old(v)@.to_multiset(),
        ordered(final(v)@),
{
    v.sort();
}

/// The list item for a directory entry.
pub open spec fn entry_html(base: Seq<char>, item: (String, bool)) -> Seq<char> {
    "<li><a href=\""@ + base + (if base.len() == 0 {
        ""@
    } else {
        "/"@
    }) + item.0@ + "\">"@ + item.0@ + (if item.1 {
        "/"@
    } else {
        ""@
    }) + "</a></li>"@
}

/// The list items for the first `n` directory entries.
pub open spec fn entries_html(base: Seq<char>, items: Seq<(String, bool)>, n: int) -> Seq<char>
    decreases n,
{
    if n <= 0 {
        Seq::empty()
    } else {
        entries_html(base, items, n - 1) + entry_html(base, items[n - 1])
    }
}

/// The page that lists directory entries.
pub open spec fn listing_html(route: Seq<char>, items: Seq<(String, bool)>) -> Seq<char> {
    "<!DOCTYPE html><html><head><meta charset=\"utf-8\"><title>Recordings</title></head><body><h1>Recordings</h1><ul>"@
        + entries_html(trim_back(route, '/'), items, items.len() as int) + "</ul></body></html>"@
}

fn entry_line(base: &[char], name: &str, is_dir: bool) -> (r: String)
    ensures
        forall|item: (String, bool)|
            item.0@ == name@ && item.1 == is_dir ==> r@ == #[trigger] entry_html(base@, item),
{
    let mut out = copy_text("<li><a href=\"");
    push_chars(&mut out, base);
    if base.len() == 0 {
        out.append("");
    } else {
        out.append("/");
    }
    out.append(name);
    out.append("\">");
    out.append(name);
    if is_dir {
        out.append("/");
    } else {
        out.append("");
    }
    out.append("</a></li>");
    out
}

/// The page that lists a directory with the given entries: names, and whether
/// each is a directory.
pub fn dir_listing(route: &str, items: Vec<(String, bool)>) -> (r: String)
    ensures
        exists|sorted: Seq<(String, bool)>|
            sorted.to_multiset() == items@.to_multiset() && ordered(sorted) && r@
                == #[trigger] listing_html(route@, sorted),
{
    let mut sorted = items;
    sort_entries(&mut sorted);
    let chars = chars_of(route);
    let base = trim_end_char(chars.as_slice(), '/');
    let mut out = copy_text(
        "<!DOCTYPE html><html><head><meta charset=\"utf-8\"><title>Recordings</title></head><body><h1>Recordings</h1><ul>",
    );
    let ghost head = out@;
    assert(out@ =~= head + entries_html(base@, sorted@, 0));
    let mut i: usize = 0;
    while i < sorted.len()
        invariant
            i <= sorted@.len(),
            out@ == head + entries_html(base@, sorted@, i as int),
        decreases sorted@.len() - i,
    {
        let line = entry_line(base, sorted[i].0.as_str(), sorted[i].1);
        assert(line@ == entry_html(base@, sorted@[i as int]));
        out.append(line.as_str());
        assert(out@ =~= head + entries_html(base@, sorted@, i + 1));
        i = i + 1;
    }
    out.append("</ul></body></html>");
    assert(out@ == listing_html(route@, sorted@));
    out
}

/// The response that lists a directory.
pub fn dir_listing_response(route: &str, items: Vec<(String, bool)>) -> (r: String)
    ensures
        exists|sorted: Seq<(String, bool)>|
            sorted.to_multiset() == items@.to_multiset() && ordered(sorted) && r@ == text_response(
                "text/html; charset=utf-8"@,
                #[trigger] listing_html(route@, sorted),
                false,
                CachePolicy::Unsaid,
            ),
{
    let html = dir_listing(route, items);
    content_response("text/html; charset=utf-8", html.as_str(), false, CachePolicy::Unsaid)
}

// ── requests for files ──────────────────────────────────────────────────

/// What a request for a recording asks for.
pub enum VodRequest {
    /// Nothing below the recordings.
    NotFound,
    /// An MP4 file that is played as FLV.
    PlayMp4 { stream_path: String, file: String },
    /// A file or directory as it is.
    Fetch { stream_path: String, rel: String },
}

/// The path below the recordings that a route asks for.
pub open spec fn record_path(route: Seq<char>) -> Option<Seq<char>> {
    without_prefix(route, "/record/"@)
}

/// What a route for a recording asks for; the signed path has no slash at its
/// end.
pub fn vod_request(route: &str) -> (r: VodRequest)
    ensures
        match record_path(route@) {
            None => r is NotFound,
            Some(rel) => if crate::text::finishes_with(rel, ".mp4.flv"@) {
                r matches VodRequest::PlayMp4 { stream_path, file } && stream_path@ == trim_back(
                    rel,
                    '/',
                ) && file@ == crate::text::trim_back_text(rel, ".flv"@)
            } else {
                r matches VodRequest::Fetch { stream_path, rel: path } && stream_path@ == trim_back(
                    rel,
                    '/',
                ) && path@ == rel
            },
        },
{
    let chars = chars_of(route);
    let rel = match strip_prefix(chars.as_slice(), "/record/") {
        Some(p) => p,
        None => {
            return VodRequest::NotFound;
        },
    };
    let stream_path = text_of(trim_end_char(rel, '/'));
    if crate::text::ends_with(rel, ".mp4.flv") {
        VodRequest::PlayMp4 { stream_path, file: text_of(crate::text::trim_end_text(rel, ".flv")) }
    } else {
        VodRequest::Fetch { stream_path, rel: text_of(rel) }
    }
}

/// What is done about a path below the web root.
#[derive(Debug, Clone, Copy, PartialEq, Eq, Structural)]
pub enum StaticAction {
    NotFound,
    /// Send the file.
    File,
    /// Send the index of the directory.
    IndexFile,
    /// Send a list of the directory.
    Listing,
}

/// What is done about a path below the web root: `is_dir` says what is there,
/// if anything, and `has_index` whether that directory has an index.
pub fn static_action(is_dir: Option<bool>, has_index: bool) -> (r: StaticAction)
    ensures
        r == match is_dir {
            None => StaticAction::NotFound,
            Some(false) => StaticAction::File,
            Some(true) => if has_index {
                StaticAction::IndexFile
            } else {
                StaticAction::Listing
            },
        },
{
    match is_dir {
        None => StaticAction::NotFound,
        Some(false) => StaticAction::File,
        Some(true) => if has_index {
            StaticAction::IndexFile
        } else {
            StaticAction::Listing
        },
    }
}

/// The file that a route asks for below the web root; `None` when the route
/// steps upwards.
pub fn static_target(www_root: &str, route: &str) -> (r: Option<String>)
    ensures
        same_text(r, safe_joined(www_root@, trim_front(route@, '/'))),
{
    let chars = chars_of(route);
    let rel = text_of(trim_start_char(chars.as_slice(), '/'));
    safe_join(www_root, rel.as_str())
}

} // verus!
