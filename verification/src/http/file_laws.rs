//! What is sent of a file, what a range header asks for, and what the calendar
//! of recordings is.
use vstd::prelude::*;
use crate::http::files::{
    entries_html, entry_html, extended, extension_of, file_header_of, last_name, planned,
    range_among, range_in_line, safe_joined, smaller, text_before,
};
use crate::http::recordings::{
    date_text, days_before_month, days_before_year, digits_time, in_period, lemma_date, lemma_two,
    month_days, record_name, records_among, two_text, utc_millis,
};
use crate::http::url_laws::{are_parts, is_part, lemma_path_pieces, path_of};
use crate::text::{
    begins_with, decimal, digits_value, first_at, holds_text, lowered, pieces, stands_at,
    trim_front, without_char,
};
use crate::text_laws::{
    law_cut_at_first, law_cut_at_last, law_digits_are_read, law_number_reads_back,
    law_parts_are_found, law_pieces_between, law_white_space_is_trimmed,
};

verus! {

// ── parts of files ──────────────────────────────────────────────────────

/// What a range asks for is what is sent, as far as the file has it: from its
/// first byte, or the last one that is sent where that is behind it, up to its
/// last byte, or the last of the file where that is behind it or none is given.
pub proof fn law_range_is_sent(total: int, s: u64, e: Option<u64>)
    requires
        total > 0,
    ensures
        ({
            let (first, last, partial) = planned(total, Some((s, e)));
            &&& partial
            &&& e is None ==> last == total - 1
            &&& e is Some && e->0 < total ==> last == e->0
            &&& e is Some && e->0 >= total ==> last == total - 1
            &&& s <= last ==> first == s
            &&& s > last ==> first == last
        }),
        planned(total, None) == (0int, total - 1, false),
        planned(0, Some((s, e))).2 == false,
{
}

/// No more is read at once than is left, nor than a block of 65536 bytes.
pub proof fn law_reads_are_bounded(remaining: int)
    ensures
        smaller(remaining, 65536) <= remaining,
        smaller(remaining, 65536) <= 65536,
        remaining <= 65536 ==> smaller(remaining, 65536) == remaining,
        remaining > 65536 ==> smaller(remaining, 65536) == 65536,
{
}

/// A range header in any case of letters gives its first and last byte; the
/// last may be left open.
pub proof fn law_range_is_read(name: Seq<char>, a: int, b: int)
    requires
        lowered(name) == "range"@,
        0 <= a <= u64::MAX,
        0 <= b <= u64::MAX,
    ensures
        ({
            let head = name.push(':') + " bytes="@ + decimal(a).push('-');
            &&& range_in_line(head + decimal(b)) == Some((a, Some(b)))
            &&& range_in_line(head) == Some((a, None::<int>))
            &&& begins_with(lowered(head), "range:"@)
        }),
{
    reveal_strlit("range");
    reveal_strlit("range:");
    reveal_strlit(" bytes=");
    reveal_strlit("bytes=");
    law_number_reads_back(a, u64::MAX as int);
    law_number_reads_back(b, u64::MAX as int);
    let head = name.push(':') + " bytes="@ + decimal(a).push('-');
    assert(name.len() == 5) by {
        assert(lowered(name).len() == name.len());
    }
    assert(lowered(head).take(6) =~= "range:"@) by {
        assert forall|i: int| 0 <= i < 5 implies lowered(head)[i] == #[trigger] "range:"@[i] by {
            assert(lowered(name)[i] == "range"@[i]);
            assert(head[i] == name[i]);
        }
        assert(head[5] == ':');
    }
    assert(!name.contains(':')) by {
        if name.contains(':') {
            let i = choose|i: int| 0 <= i < name.len() && name[i] == ':';
            assert(lowered(name)[i] == ':');
            assert("range"@[i] == ':');
        }
    }
    let full = "bytes="@ + decimal(a).push('-') + decimal(b);
    let open = "bytes="@ + decimal(a).push('-');
    let none = Seq::<char>::empty();
    let space = seq![' '];
    assert(space + full + none =~= " bytes="@ + decimal(a).push('-') + decimal(b));
    assert(space + open + none =~= " bytes="@ + decimal(a).push('-'));
    assert(head + decimal(b) =~= name.push(':') + (space + full + none));
    assert(head =~= name.push(':') + (space + open + none));
    law_cut_at_first(name, ':', space + full + none);
    law_cut_at_first(name, ':', space + open + none);
    assert(full.last() == decimal(b).last());
    assert(crate::text::is_digit(decimal(b)[decimal(b).len() - 1]));
    assert(full[0] == 'b' && open[0] == 'b' && open.last() == '-');
    law_white_space_is_trimmed(space, full, none);
    law_white_space_is_trimmed(space, open, none);
    assert(full =~= "bytes="@ + (decimal(a).push('-') + decimal(b)));
    law_parts_are_found("bytes="@, decimal(a).push('-') + decimal(b));
    law_parts_are_found("bytes="@, decimal(a).push('-'));
    assert(!decimal(a).contains('-')) by {
        if decimal(a).contains('-') {
            let i = choose|i: int| 0 <= i < decimal(a).len() && decimal(a)[i] == '-';
            assert(crate::text::is_digit(decimal(a)[i]));
        }
    }
    law_cut_at_first(decimal(a), '-', decimal(b));
    law_cut_at_first(decimal(a), '-', none);
    assert(decimal(a).push('-') + none =~= decimal(a).push('-'));
    assert(crate::text::is_digit(decimal(a)[0]));
    assert((decimal(a).push('-') + decimal(b))[0] == decimal(a)[0]);
    assert(decimal(a).push('-')[0] == decimal(a)[0]);
}

/// The first range header of a request counts.
pub proof fn law_first_range_header_counts(all: Seq<Seq<char>>, i: int, k: int)
    requires
        0 <= i <= k < all.len(),
        begins_with(lowered(all[k]), "range:"@),
        forall|j: int| i <= j < k ==> !begins_with(lowered(#[trigger] all[j]), "range:"@),
    ensures
        range_among(all, i) == range_in_line(all[k]),
    decreases k - i,
{
    if i < k {
        assert(!begins_with(lowered(all[i]), "range:"@));
        law_first_range_header_counts(all, i + 1, k);
    }
}

proof fn lemma_last_piece(d: Seq<char>, x: Seq<char>)
    requires
        !x.contains('/'),
    ensures
        pieces(d.push('/') + x, '/').len() > 0,
        pieces(d.push('/') + x, '/').last() == x,
    decreases d.len(),
{
    let s = d.push('/') + x;
    crate::text::lemma_first_at(d, '/', 0);
    match first_at(d, '/', 0) {
        None => {
            assert(!d.contains('/'));
            law_pieces_between(d, '/', x);
            law_pieces_between(x, '/', x);
        },
        Some(k) => {
            let a = d.take(k);
            let b = d.skip(k + 1);
            assert(!a.contains('/')) by {
                if a.contains('/') {
                    let i = choose|i: int| 0 <= i < a.len() && a[i] == '/';
                    assert(d[i] == '/');
                }
            }
            lemma_last_piece(b, x);
            assert(s =~= a.push('/') + (b.push('/') + x));
            law_pieces_between(a, '/', b.push('/') + x);
        },
    }
}

/// The extension of a path is what follows the last dot of its last name, when
/// something precedes that dot.
pub proof fn law_extension_is_found(dir: Seq<char>, stem: Seq<char>, ext: Seq<char>)
    requires
        stem.len() > 0,
        !stem.contains('/'),
        !ext.contains('/'),
        !ext.contains('.'),
        ext.len() > 0,
    ensures
        extension_of(dir.push('/') + (stem.push('.') + ext)) == Some(ext),
        extension_of(stem.push('.') + ext) == Some(ext),
        extension_of(dir.push('/') + ext) is None,
{
    reveal_strlit("..");
    reveal_strlit(".");
    let name = stem.push('.') + ext;
    assert(!name.contains('/')) by {
        if name.contains('/') {
            let i = choose|i: int| 0 <= i < name.len() && name[i] == '/';
            if i < stem.len() {
                assert(stem[i] == '/');
            } else {
                assert(ext[i - stem.len() - 1] == '/');
            }
        }
    }
    lemma_last_piece(dir, name);
    lemma_last_piece(dir, ext);
    law_pieces_between(name, '/', name);
    law_cut_at_last(stem, '.', ext);
    assert(ext[ext.len() - 1] != '.');
    assert(name.last() == ext.last());
    assert(ext != "."@) by {
        assert("."@[0] == '.');
        assert(ext[0] != '.');
    }
    assert(ext != ".."@) by {
        assert(".."@[0] == '.');
        assert(ext[0] != '.');
    }
    assert(name != ".."@) by {
        assert(".."@.last() == '.');
    }
    assert(name != "."@) by {
        assert("."@.last() == '.');
    }
    let p = pieces(dir.push('/') + name, '/');
    assert(p[p.len() - 1] == name);
    assert(last_name(p, p.len() as int) == name);
    let q = pieces(dir.push('/') + ext, '/');
    assert(q[q.len() - 1] == ext);
    assert(last_name(q, q.len() as int) == ext);
    let r = pieces(name, '/');
    assert(r[r.len() - 1] == name);
    assert(last_name(r, r.len() as int) == name);
}

// ── recordings ──────────────────────────────────────────────────────────

/// The last day of a month: February has 29 days in years that four divides,
/// but for those that a hundred divides and four hundred does not.
pub open spec fn last_day(year: int, month: int) -> int {
    if month == 2 && (year % 400 == 0 || (year % 4 == 0 && year % 100 != 0)) {
        29
    } else if month == 2 {
        28
    } else if month == 4 || month == 6 || month == 9 || month == 11 {
        30
    } else {
        31
    }
}

/// The calendar: the day behind the last of a month is the first of the next
/// one, and the day behind the last of December that of the next year. A day
/// takes 86400 seconds, and the year 1970 begins at zero.
pub proof fn law_days_follow_one_another(
    year: int,
    month: int,
    day: int,
    hour: int,
    minute: int,
    second: int,
)
    requires
        0 <= year,
        1 <= month <= 12,
        1 <= day <= last_day(year, month),
        0 <= hour < 24,
        0 <= minute < 60,
        0 <= second < 60,
    ensures
        ({
            let t = utc_millis(year, month, day, hour, minute, second);
            let next = if day < last_day(year, month) {
                utc_millis(year, month, day + 1, hour, minute, second)
            } else if month < 12 {
                utc_millis(year, month + 1, 1, hour, minute, second)
            } else {
                utc_millis(year + 1, 1, 1, hour, minute, second)
            };
            &&& t is Some
            &&& next == Some(t->0 + 86_400_000)
            &&& t == Some(
                utc_millis(year, month, day, 0, 0, 0)->0 + ((hour * 60 + minute) * 60 + second)
                    * 1000,
            )
        }),
        utc_millis(1970, 1, 1, 0, 0, 0) == Some(0int),
{
    assert(month_days(year, month) == last_day(year, month));
    assert(days_before_month(year, 1) == 0);
    assert(days_before_month(year + 1, 1) == 0);
    if month == 12 {
        reveal_with_fuel(days_before_month, 13);
        lemma_year(year);
    } else {
        assert(days_before_month(year, month + 1) == days_before_month(year, month) + month_days(
            year,
            month,
        ));
    }
}

proof fn lemma_year(year: int)
    requires
        0 <= year,
    ensures
        days_before_year(year + 1) - days_before_year(year) == 337 + last_day(year, 2),
{
    lemma_step(year, 4);
    lemma_step(year, 100);
    lemma_step(year, 400);
    assert(year % 400 == 0 ==> year % 4 == 0 && year % 100 == 0);
    assert(year % 100 == 0 ==> year % 4 == 0);
}

proof fn lemma_step(year: int, n: int)
    requires
        0 <= year,
        n == 4 || n == 100 || n == 400,
    ensures
        (year + n) / n - (year + n - 1) / n == if year % n == 0 {
            1int
        } else {
            0
        },
{
    if n == 4 {
    } else if n == 100 {
    } else {
    }
}

/// What lies outside the calendar or the clock is no time.
pub proof fn law_other_dates_are_no_time(
    year: int,
    month: int,
    day: int,
    hour: int,
    minute: int,
    second: int,
)
    requires
        month < 1 || month > 12 || day < 1 || day > last_day(year, month) || hour >= 24 || minute
            >= 60 || second >= 60,
    ensures
        utc_millis(year, month, day, hour, minute, second) is None,
{
}

/// The recordings of a period are the MP4 files whose names begin with it,
/// without its hyphens, in the order of the directory; each has the name and
/// the size of its file.
pub proof fn law_recordings_are_those_of_the_period(
    base: Seq<char>,
    period: Seq<char>,
    app: Seq<char>,
    stream: Seq<char>,
    entries: Seq<(String, u64)>,
    n: int,
) -> (places: Seq<int>)
    requires
        0 <= n <= entries.len(),
    ensures
        ({
            let files = records_among(base, period, app, stream, entries, n);
            &&& files.len() == places.len()
            &&& forall|k: int|
                0 <= k < places.len() ==> 0 <= #[trigger] places[k] < n && files[k].file_name
                    == entries[places[k]].0@ && files[k].file_size == entries[places[k]].1
                    && files[k].url == "/record/"@ + app + "/"@ + stream + "/"@
                    + entries[places[k]].0@
            &&& forall|i: int, j: int|
                0 <= i < j < places.len() ==> #[trigger] places[i] < #[trigger] places[j]
            &&& forall|i: int|
                0 <= i < n ==> (places.contains(i) <==> extension_of((#[trigger] entries[i]).0@)
                    == Some("mp4"@) && begins_with(entries[i].0@, without_char(period, '-')))
        }),
    decreases n,
{
    if n == 0 {
        Seq::empty()
    } else {
        let before = law_recordings_are_those_of_the_period(
            base,
            period,
            app,
            stream,
            entries,
            n - 1,
        );
        let taken = in_period(entries[n - 1].0@, period);
        let places = if taken {
            before.push(n - 1)
        } else {
            before
        };
        assert forall|i: int| 0 <= i < n implies (places.contains(i) <==> extension_of(
            (#[trigger] entries[i]).0@,
        ) == Some("mp4"@) && begins_with(entries[i].0@, without_char(period, '-'))) by {
            if before.contains(i) {
                let k = choose|k: int| 0 <= k < before.len() && before[k] == i;
                assert(places[k] == i);
            }
            if taken && i == n - 1 {
                assert(places[before.len() as int] == i);
            }
            if places.contains(i) && i < n - 1 {
                let k = choose|k: int| 0 <= k < places.len() && places[k] == i;
                assert(before[k] == i);
            }
        }
        places
    }
}

/// The digits in the name of a recording are those of its date and of its time
/// of day, the highest first.
pub proof fn law_record_name_holds_digits(
    year: int,
    month: int,
    day: int,
    hour: int,
    minute: int,
    second: int,
)
    requires
        0 <= year <= 9999,
        1 <= month <= 12,
        1 <= day <= 31,
        0 <= hour < 24,
        0 <= minute < 60,
        0 <= second < 60,
    ensures
        ({
            let name = record_name(year, month, day, hour, minute, second);
            &&& name.len() == 19
            &&& digits_value(name.take(8)) == Some(year * 10000 + month * 100 + day)
            &&& name[8] == '_'
            &&& digits_value(name.subrange(9, 15)) == Some(hour * 10000 + minute * 100 + second)
            &&& name.skip(15) == ".mp4"@
        }),
{
    reveal_strlit(".mp4");
    let none = Seq::<char>::empty();
    lemma_two(year / 100);
    lemma_pair(two_text(year / 100), year / 100, year % 100);
    let y = two_text(year / 100) + two_text(year % 100);
    lemma_pair(y, year, month);
    lemma_pair(y + two_text(month), year * 100 + month, day);
    lemma_two(hour);
    lemma_pair(two_text(hour), hour, minute);
    let h = two_text(hour) + two_text(minute);
    lemma_pair(h, hour * 100 + minute, second);
    let name = record_name(year, month, day, hour, minute, second);
    assert(name.take(8) =~= y + two_text(month) + two_text(day));
    assert(name.subrange(9, 15) =~= h + two_text(second));
    assert(name.skip(15) =~= ".mp4"@);
}

proof fn lemma_pair(a: Seq<char>, v: int, n: int)
    requires
        digits_value(a) == Some(v),
        0 <= n < 100,
    ensures
        digits_value(a + two_text(n)) == Some(v * 100 + n),
{
    law_digits_are_read(a, v, n / 10);
    let b = a.push(crate::text::digit(n / 10));
    law_digits_are_read(b, v * 10 + n / 10, n % 10);
    assert(b.push(crate::text::digit(n % 10)) =~= a + two_text(n));
}

/// A name without seconds stands for the start of its minute, and one without
/// a time of day for the start of its day.
pub proof fn law_shorter_names_give_start(year: int, month: int, day: int, hour: int, minute: int)
    requires
        0 <= year <= 9999,
        utc_millis(year, month, day, hour, minute, 0) is Some,
    ensures
        Some(digits_time(date_text(year, month, day), Seq::empty())) == utc_millis(
            year,
            month,
            day,
            0,
            0,
            0,
        ),
        Some(digits_time(date_text(year, month, day), two_text(hour) + two_text(minute)))
            == utc_millis(year, month, day, hour, minute, 0),
        digits_time(Seq::empty(), Seq::empty()) == 0,
{
    lemma_date(year, month, day);
    lemma_two(hour);
    lemma_two(minute);
    let t = two_text(hour) + two_text(minute);
    assert(t.subrange(0, 2) =~= two_text(hour));
    assert(t.subrange(2, 4) =~= two_text(minute));
}

// ── headers and paths ───────────────────────────────────────────────────

proof fn lemma_held(a: Seq<char>, p: Seq<char>, b: Seq<char>)
    ensures
        holds_text(a + p + b, p),
{
    let s = a + p + b;
    crate::text_laws::law_holds_somewhere(s, p);
    assert(s.subrange(a.len() as int, (a.len() + p.len()) as int) =~= p);
    assert(stands_at(s, p, a.len() as int));
}

/// The header of a part of a file tells how many bytes it has, and of a range
/// also which they are and how many the file has.
pub proof fn law_file_header_tells_part(
    mime: Seq<char>,
    start: int,
    count: int,
    partial: bool,
    total: int,
)
    requires
        0 <= start,
        0 < count,
    ensures
        ({
            let header = file_header_of(mime, start, start + count - 1, partial, total);
            &&& holds_text(header, "Content-Length: "@ + decimal(count) + "\r\n"@)
            &&& partial ==> holds_text(
                header,
                "Content-Range: bytes "@ + decimal(start) + "-"@ + decimal(start + count - 1)
                    + "/"@ + decimal(total) + "\r\n"@,
            )
            &&& header.subrange(9, 12) == if partial {
                seq!['2', '0', '6']
            } else {
                seq!['2', '0', '0']
            }
        }),
{
    reveal_strlit("\r\nAccept-Ranges: bytes\r\nContent-Length: ");
    reveal_strlit("\r\nAccept-Ranges: bytes\r\n");
    reveal_strlit("Content-Length: ");
    reveal_strlit("HTTP/1.1 206 Partial Content\r\nContent-Type: ");
    reveal_strlit("HTTP/1.1 200 OK\r\nContent-Type: ");
    let end = start + count - 1;
    let header = file_header_of(mime, start, end, partial, total);
    let first = if partial {
        "HTTP/1.1 206 Partial Content\r\nContent-Type: "@
    } else {
        "HTTP/1.1 200 OK\r\nContent-Type: "@
    };
    let a = first + mime + "\r\nAccept-Ranges: bytes\r\n"@;
    let length = "Content-Length: "@ + decimal(count) + "\r\n"@;
    let range = "Content-Range: bytes "@ + decimal(start) + "-"@ + decimal(end) + "/"@ + decimal(
        total,
    ) + "\r\n"@;
    let close = "Connection: close\r\n\r\n"@;
    assert("\r\nAccept-Ranges: bytes\r\nContent-Length: "@ =~= "\r\nAccept-Ranges: bytes\r\n"@
        + "Content-Length: "@);
    if partial {
        assert(header =~= a + length + (range + close));
        assert(header =~= (a + length) + range + close);
        lemma_held(a, length, range + close);
        lemma_held(a + length, range, close);
    } else {
        assert(header =~= a + length + close);
        lemma_held(a, length, close);
    }
    assert(header.subrange(9, 12) =~= first.subrange(9, 12));
    assert(first.subrange(9, 12) =~= if partial {
        seq!['2', '0', '6']
    } else {
        seq!['2', '0', '0']
    });
}

/// A path of ordinary parts is found below the root as it is written, and one
/// that steps upwards anywhere is not found.
pub proof fn law_path_below_root_is_found(root: Seq<char>, parts: Seq<Seq<char>>)
    requires
        root.len() > 0,
        root.last() != '/',
        parts.len() > 0,
        forall|i: int| 0 <= i < parts.len() ==> !(#[trigger] parts[i]).contains('/'),
        parts[0].len() > 0,
    ensures
        are_parts(parts) ==> safe_joined(root, path_of(parts)) == Some(root + path_of(parts)),
        parts.contains(".."@) ==> safe_joined(root, path_of(parts)) is None,
{
    let path = path_of(parts);
    lemma_path_pieces(parts);
    lemma_first_slash(parts);
    let rest = path.skip(1);
    assert(path =~= seq!['/'] + rest);
    let none = Seq::<char>::empty();
    assert(none.push('/') + rest =~= path);
    law_pieces_between(none, '/', rest);
    assert(pieces(rest, '/') =~= parts) by {
        let all = seq![none] + pieces(rest, '/');
        assert(all == seq![none] + parts);
        assert(all.skip(1) =~= pieces(rest, '/'));
        assert((seq![none] + parts).skip(1) =~= parts);
    }
    assert(parts[0][0] != '/') by {
        assert(!parts[0].contains('/'));
    }
    assert(rest[0] == parts[0][0]);
    assert(trim_front(rest, '/') == rest);
    assert(trim_front(path, '/') == rest);
    if are_parts(parts) {
        lemma_extended(root, parts, parts.len() as int);
        assert(parts.take(parts.len() as int) =~= parts);
        assert(!parts.contains(".."@)) by {
            if parts.contains(".."@) {
                let i = choose|i: int| 0 <= i < parts.len() && parts[i] == ".."@;
                assert(is_part(parts[i]));
            }
        }
    }
}

proof fn lemma_first_slash(parts: Seq<Seq<char>>)
    requires
        parts.len() > 0,
        parts[0].len() > 0,
    ensures
        path_of(parts).len() > 1,
        path_of(parts)[0] == '/',
        path_of(parts)[1] == parts[0][0],
    decreases parts.len(),
{
    let front = parts.drop_last();
    if parts.len() > 1 {
        assert(front[0] == parts[0]);
        lemma_first_slash(front);
    } else {
        assert(path_of(front) =~= Seq::<char>::empty());
    }
}

proof fn lemma_extended(root: Seq<char>, parts: Seq<Seq<char>>, n: int)
    requires
        root.len() > 0,
        root.last() != '/',
        are_parts(parts),
        0 <= n <= parts.len(),
    ensures
        extended(root, parts, n) == root + path_of(parts.take(n)),
        extended(root, parts, n).len() > 0,
        extended(root, parts, n).last() != '/',
    decreases n,
{
    if n == 0 {
        assert(root + path_of(parts.take(0)) =~= root);
    } else {
        lemma_extended(root, parts, n - 1);
        let part = parts[n - 1];
        assert(is_part(part));
        assert(parts.take(n).drop_last() =~= parts.take(n - 1));
        assert(parts.take(n).last() == part);
        let before = root + path_of(parts.take(n - 1));
        assert(part[0] != '/') by {
            assert(!part.contains('/'));
        }
        assert(part.last() != '/') by {
            assert(part[part.len() - 1] == part.last());
        }
        assert(before.push('/') + part =~= root + path_of(parts.take(n)));
    }
}

/// Entries of a directory are ordered by the first character in which their
/// names differ, and a name before every longer one that begins with it.
pub proof fn law_names_are_ordered(
    common: Seq<char>,
    a: char,
    b: char,
    x: Seq<char>,
    y: Seq<char>,
)
    ensures
        a != b ==> (text_before(common.push(a) + x, common.push(b) + y) <==> a < b),
        text_before(common, common.push(b) + y),
        !text_before(common.push(b) + y, common),
        !text_before(common, common),
    decreases common.len(),
{
    let s = common.push(a) + x;
    let t = common.push(b) + y;
    if common.len() > 0 {
        let rest = common.skip(1);
        law_names_are_ordered(rest, a, b, x, y);
        assert(s.skip(1) =~= rest.push(a) + x);
        assert(t.skip(1) =~= rest.push(b) + y);
        assert(s[0] == common[0] && t[0] == common[0]);
    } else {
        assert(s[0] == a && t[0] == b);
    }
}

/// The page of a directory lists its entries one behind the other, each with
/// a link to its name below the route.
pub proof fn law_entries_are_listed(base: Seq<char>, items: Seq<(String, bool)>, i: int)
    requires
        0 <= i < items.len(),
        base.len() > 0,
    ensures
        holds_text(
            entries_html(base, items, items.len() as int),
            "<li><a href=\""@ + base + "/"@ + items[i].0@ + "\">"@ + items[i].0@ + (if items[i].1 {
                "/"@
            } else {
                ""@
            }) + "</a></li>"@,
        ),
{
    lemma_listed(base, items, items.len() as int, i);
}

proof fn lemma_listed(base: Seq<char>, items: Seq<(String, bool)>, n: int, i: int)
    requires
        0 <= i < n <= items.len(),
    ensures
        holds_text(entries_html(base, items, n), entry_html(base, items[i])),
    decreases n,
{
    let before = entries_html(base, items, n - 1);
    let here = entry_html(base, items[n - 1]);
    let none = Seq::<char>::empty();
    if i == n - 1 {
        lemma_held(before, here, none);
        assert(before + here + none =~= before + here);
    } else {
        lemma_listed(base, items, n - 1, i);
        let p = entry_html(base, items[i]);
        crate::text_laws::law_holds_somewhere(before, p);
        let k = choose|k: int| #[trigger] stands_at(before, p, k);
        crate::text_laws::law_holds_somewhere(before + here, p);
        assert((before + here).subrange(k, k + p.len()) =~= before.subrange(k, k + p.len()));
        assert(stands_at(before + here, p, k));
    }
}

} // verus!
