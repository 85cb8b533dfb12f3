//! Query parameters and who may manage the server.
use vstd::prelude::*;
use crate::bytes::views;
use crate::text::{
    chars_of, copy_text, cut_at, eq_ignore_case, finishes_with, is_text, lines, lines_of, lowered,
    pieces, same_option, same_text, split, split_once, strip_prefix, text_eq, text_of, to_lower,
    trim, trimmed, without_prefix,
};

verus! {

/// The parameters that the pairs give: what has no `=` is no parameter, and a
/// later one replaces an earlier one of the same name.
pub open spec fn parameters(pairs: Seq<Seq<char>>) -> Map<Seq<char>, Seq<char>>
    decreases pairs.len(),
{
    if pairs.len() == 0 {
        Map::empty()
    } else {
        let before = parameters(pairs.drop_last());
        match cut_at(pairs.last(), '=') {
            Some((k, v)) => before.insert(k, v),
            None => before,
        }
    }
}

/// The parameters of a path.
pub open spec fn query_map(path: Seq<char>) -> Map<Seq<char>, Seq<char>> {
    match cut_at(path, '?') {
        Some((_, query)) => parameters(pieces(query, '&')),
        None => Map::empty(),
    }
}

/// The value of a parameter.
pub open spec fn value_in(m: Map<Seq<char>, Seq<char>>, name: Seq<char>) -> Option<Seq<char>> {
    if m.dom().contains(name) {
        Some(m[name])
    } else {
        None
    }
}

/// The value of a parameter, or what stands in for it.
pub open spec fn value_or(
    m: Map<Seq<char>, Seq<char>>,
    name: Seq<char>,
    other: Seq<char>,
) -> Seq<char> {
    if m.dom().contains(name) {
        m[name]
    } else {
        other
    }
}

/// The parameters that named texts give.
pub open spec fn entries_map(entries: Seq<(String, String)>) -> Map<Seq<char>, Seq<char>>
    decreases entries.len(),
{
    if entries.len() == 0 {
        Map::empty()
    } else {
        entries_map(entries.drop_last()).insert(entries.last().0@, entries.last().1@)
    }
}

/// Whether no name occurs twice.
pub open spec fn distinct_names(entries: Seq<(String, String)>) -> bool {
    forall|i: int, j: int|
        0 <= i < j < entries.len() ==> (#[trigger] entries[i]).0@ != (#[trigger] entries[j]).0@
}

/// Named values, each name once: query parameters or headers.
pub struct NamedValues {
    entries: Vec<(String, String)>,
}

impl View for NamedValues {
    type V = Map<Seq<char>, Seq<char>>;

    closed spec fn view(&self) -> Map<Seq<char>, Seq<char>> {
        entries_map(self.entries@)
    }
}

/// What distinct entries give.
proof fn lemma_entries(entries: Seq<(String, String)>)
    requires
        distinct_names(entries),
    ensures
        forall|i: int|
            0 <= i < entries.len() ==> entries_map(entries).dom().contains(
                (#[trigger] entries[i]).0@,
            ) && entries_map(entries)[entries[i].0@] == entries[i].1@,
        forall|k: Seq<char>| #[trigger]
            entries_map(entries).dom().contains(k) ==> exists|i: int|
                0 <= i < entries.len() && (#[trigger] entries[i]).0@ == k,
    decreases entries.len(),
{
    if entries.len() > 0 {
        let before = entries.drop_last();
        assert forall|i: int, j: int| 0 <= i < j < before.len() implies (
        #[trigger] before[i]).0@ != (#[trigger] before[j]).0@ by {
            assert(entries[i].0@ != entries[j].0@);
        }
        lemma_entries(before);
        assert forall|i: int| 0 <= i < entries.len() implies entries_map(entries).dom().contains(
            (#[trigger] entries[i]).0@,
        ) && entries_map(entries)[entries[i].0@] == entries[i].1@ by {
            if i < before.len() {
                assert(before[i] == entries[i]);
                assert(entries[i].0@ != entries[before.len() as int].0@);
            }
        }
        assert forall|k: Seq<char>| #[trigger]
            entries_map(entries).dom().contains(k) implies exists|i: int|
            0 <= i < entries.len() && (#[trigger] entries[i]).0@ == k by {
            if k == entries.last().0@ {
                assert(entries[entries.len() - 1].0@ == k);
            } else {
                assert(entries_map(before).dom().contains(k));
                let i = choose|i: int| 0 <= i < before.len() && (#[trigger] before[i]).0@ == k;
                assert(entries[i] == before[i]);
            }
        }
    }
}

/// The place of the entry with the given name.
fn find_entry(entries: &Vec<(String, String)>, name: &str) -> (r: Option<usize>)
    ensures
        match r {
            Some(i) => i < entries@.len() && entries@[i as int].0@ == name@,
            None => forall|i: int| 0 <= i < entries@.len() ==> (#[trigger] entries@[i]).0@ != name@,
        },
{
    let mut i: usize = 0;
    while i < entries.len()
        invariant
            i <= entries@.len(),
            forall|j: int| 0 <= j < i ==> (#[trigger] entries@[j]).0@ != name@,
        decreases entries@.len() - i,
    {
        if text_eq(entries[i].0.as_str(), name) {
            return Some(i);
        }
        i = i + 1;
    }
    None
}

/// Adds an entry, or replaces the one of the same name.
fn put_entry(entries: &mut Vec<(String, String)>, name: String, value: String)
    requires
        distinct_names(old(entries)@),
    ensures
        distinct_names(final(entries)@),
        entries_map(final(entries)@) == entries_map(old(entries)@).insert(name@, value@),
{
    let ghost before = entries@;
    let ghost k = name@;
    let ghost v = value@;
    match find_entry(entries, name.as_str()) {
        Some(i) => {
            entries.set(i, (name, value));
            proof {
                let after = entries@;
                assert forall|a: int, b: int| 0 <= a < b < after.len() implies (
                #[trigger] after[a]).0@ != (#[trigger] after[b]).0@ by {
                    assert(before[a].0@ != before[b].0@);
                }
                lemma_entries(before);
                lemma_entries(after);
                let m = entries_map(before).insert(k, v);
                assert forall|x: Seq<char>| #[trigger]
                    entries_map(after).dom().contains(x) == m.dom().contains(x) by {
                    if entries_map(after).dom().contains(x) {
                        let j = choose|j: int| 0 <= j < after.len() && (#[trigger] after[j]).0@ == x;
                        assert(before[j].0@ == x);
                    }
                    if m.dom().contains(x) {
                        if x == k {
                            assert(after[i as int].0@ == x);
                        } else {
                            let j = choose|j: int|
                                0 <= j < before.len() && (#[trigger] before[j]).0@ == x;
                            assert(after[j].0@ == x);
                        }
                    }
                }
                assert forall|x: Seq<char>| #[trigger]
                    entries_map(after).dom().contains(x) implies entries_map(after)[x] == m[x] by {
                    let j = choose|j: int| 0 <= j < after.len() && (#[trigger] after[j]).0@ == x;
                    if j == i {
                        assert(after[j].1@ == v);
                    } else {
                        assert(before[j] == after[j]);
                        assert(before[j].0@ != k) by {
                            if j < i {
                                assert(before[j].0@ != before[i as int].0@);
                            } else {
                                assert(before[i as int].0@ != before[j].0@);
                            }
                        }
                    }
                }
                assert(entries_map(after) =~= m);
            }
        },
        None => {
            entries.push((name, value));
            assert(entries@.drop_last() =~= before);
        },
    }
}

impl NamedValues {
    #[verifier::type_invariant]
    spec fn well_formed(&self) -> bool {
        distinct_names(self.entries@)
    }

    pub fn new() -> (r: Self)
        ensures
            r@ == Map::<Seq<char>, Seq<char>>::empty(),
    {
        Self { entries: Vec::new() }
    }

    /// The same with one more value, which replaces the one of the same name.
    pub fn with(self, name: String, value: String) -> (r: Self)
        ensures
            r@ == self@.insert(name@, value@),
    {
        proof {
            use_type_invariant(&self);
        }
        let mut entries = self.entries;
        put_entry(&mut entries, name, value);
        Self { entries }
    }

    /// The value of a parameter.
    pub fn get(&self, name: &str) -> (r: Option<String>)
        ensures
            same_text(r, value_in(self@, name@)),
    {
        proof {
            use_type_invariant(self);
            lemma_entries(self.entries@);
        }
        match find_entry(&self.entries, name) {
            Some(i) => Some(copy_text(self.entries[i].1.as_str())),
            None => None,
        }
    }

    /// The names with their values, each name once.
    pub fn entries(&self) -> (r: Vec<(String, String)>)
        ensures
            distinct_names(r@),
            entries_map(r@) == self@,
    {
        proof {
            use_type_invariant(self);
        }
        let mut out: Vec<(String, String)> = Vec::new();
        let mut i: usize = 0;
        let ghost all = self.entries@;
        while i < self.entries.len()
            invariant
                i <= all.len(),
                all == self.entries@,
                distinct_names(all),
                distinct_names(out@),
                out@.len() == i,
                forall|j: int|
                    0 <= j < i ==> (#[trigger] out@[j]).0@ == all[j].0@ && out@[j].1@ == all[j].1@,
                entries_map(out@) == entries_map(all.take(i as int)),
            decreases all.len() - i,
        {
            let ghost before = out@;
            proof {
                assert(all.take(i + 1).last() == all[i as int]);
                assert(all.take(i + 1).drop_last() =~= all.take(i as int));
            }
            out.push((
                copy_text(self.entries[i].0.as_str()),
                copy_text(self.entries[i].1.as_str()),
            ));
            proof {
                assert(out@.drop_last() =~= before);
                assert forall|a: int, b: int| 0 <= a < b < out@.len() implies (
                #[trigger] out@[a]).0@ != (#[trigger] out@[b]).0@ by {
                    assert(all[a].0@ != all[b].0@);
                }
            }
            i = i + 1;
        }
        assert(all.take(i as int) =~= all);
        out
    }

    /// The value of a parameter, or what stands in for it.
    pub fn get_or(&self, name: &str, other: &str) -> (r: String)
        ensures
            r@ == value_or(self@, name@, other@),
    {
        match self.get(name) {
            Some(v) => v,
            None => copy_text(other),
        }
    }

    /// Whether a parameter has the given value.
    pub fn says(&self, name: &str, value: &str) -> (r: bool)
        ensures
            r == (value_in(self@, name@) == Some(value@)),
    {
        match self.get(name) {
            Some(v) => text_eq(v.as_str(), value),
            None => false,
        }
    }
}

/// The parameters of a path.
pub fn parse_query(path: &str) -> (r: NamedValues)
    ensures
        r@ == query_map(path@),
{
    let mut out = NamedValues::new();
    let chars = chars_of(path);
    let query = match split_once(chars.as_slice(), '?') {
        Some((_, q)) => q,
        None => {
            return out;
        },
    };
    let pairs = split(query, '&');
    let ghost models = views(pairs@);
    let mut i: usize = 0;
    while i < pairs.len()
        invariant
            i <= pairs@.len(),
            models == views(pairs@),
            out@ == parameters(models.take(i as int)),
        decreases pairs@.len() - i,
    {
        proof {
            assert(models.take(i + 1).last() == pairs@[i as int]@);
            assert(models.take(i + 1).drop_last() =~= models.take(i as int));
        }
        if let Some((k, v)) = split_once(pairs[i], '=') {
            out = out.with(text_of(k), text_of(v));
        }
        i = i + 1;
    }
    assert(models.take(i as int) =~= models);
    out
}

/// The virtual host, application and stream that a request names.
pub fn api_stream_params(path: &str) -> (r: (String, String, String))
    ensures
        ({
            let q = query_map(path@);
            &&& r.0@ == value_or(q, "vhost"@, "__defaultVhost__"@)
            &&& r.1@ == value_or(q, "app"@, "live"@)
            &&& r.2@ == value_or(q, "stream"@, ""@)
        }),
{
    let q = parse_query(path);
    (q.get_or("vhost", "__defaultVhost__"), q.get_or("app", "live"), q.get_or("stream", ""))
}

/// Whether a kind of recording is asked for: by `type`, which may be `all`, or
/// by a flag of its own.
pub open spec fn asks_record(q: Map<Seq<char>, Seq<char>>, name: Seq<char>) -> bool {
    let t = lowered(value_or(q, "type"@, ""@));
    t == name || t == "all"@ || value_in(q, name) == Some("1"@)
}

/// Which recordings are asked for: HLS, FLV, MP4; HLS when none is.
pub open spec fn record_types(q: Map<Seq<char>, Seq<char>>) -> (bool, bool, bool) {
    let hls = asks_record(q, "hls"@);
    let flv = asks_record(q, "flv"@);
    let mp4 = asks_record(q, "mp4"@);
    if hls || flv || mp4 {
        (hls, flv, mp4)
    } else {
        (true, false, false)
    }
}

/// Something is always recorded, and HLS alone when nothing is asked for.
pub proof fn law_something_is_recorded(q: Map<Seq<char>, Seq<char>>)
    ensures
        record_types(q).0 || record_types(q).1 || record_types(q).2,
        !asks_record(q, "hls"@) && !asks_record(q, "flv"@) && !asks_record(q, "mp4"@)
            ==> record_types(q) == (true, false, false),
{
}

/// Which recordings are asked for: HLS, FLV, MP4.
pub fn api_record_types(path: &str) -> (r: (bool, bool, bool))
    ensures
        r == record_types(query_map(path@)),
{
    let q = parse_query(path);
    let given = chars_of(q.get_or("type", "").as_str());
    let t = to_lower(given.as_slice());
    let all: bool = is_text(t.as_slice(), "all");
    let hls: bool = is_text(t.as_slice(), "hls") || all || q.says("hls", "1");
    let flv: bool = is_text(t.as_slice(), "flv") || all || q.says("flv", "1");
    let mp4: bool = is_text(t.as_slice(), "mp4") || all || q.says("mp4", "1");
    if hls || flv || mp4 {
        (hls, flv, mp4)
    } else {
        (true, false, false)
    }
}

// ── the management secret ───────────────────────────────────────────────

/// The secret that a header line gives.
pub open spec fn secret_in_line(line: Seq<char>) -> Option<Seq<char>> {
    match cut_at(line, ':') {
        Some((name, value)) => if lowered(trimmed(name)) == lowered("x-api-secret"@) {
            Some(trimmed(value))
        } else if lowered(trimmed(name)) == lowered("authorization"@) {
            without_prefix(trimmed(value), "Bearer "@)
        } else {
            None
        },
        None => None,
    }
}

/// The secret that the first line from `i` on gives that gives one.
pub open spec fn secret_among(all: Seq<Seq<char>>, i: int) -> Option<Seq<char>>
    decreases all.len() - i,
{
    if i < 0 || i >= all.len() {
        None
    } else if secret_in_line(all[i]) is Some {
        secret_in_line(all[i])
    } else {
        secret_among(all, i + 1)
    }
}

/// The secret that a request supplies: in a header, or else in its query.
pub open spec fn supplied_secret(path: Seq<char>, request: Seq<char>) -> Option<Seq<char>> {
    match secret_among(lines_of(request), 0) {
        Some(s) => Some(s),
        None => value_in(query_map(path), "secret"@),
    }
}

/// Whether a request may manage the server; without a configured secret
/// every request may.
pub open spec fn authorized(secret: Seq<char>, path: Seq<char>, request: Seq<char>) -> bool {
    secret.len() == 0 || supplied_secret(path, request) == Some(secret)
}

fn line_secret<'a>(line: &'a [char]) -> (r: Option<&'a [char]>)
    ensures
        same_option(r, secret_in_line(line@)),
{
    match split_once(line, ':') {
        Some((name, value)) => if eq_ignore_case(trim(name), "x-api-secret") {
            Some(trim(value))
        } else if eq_ignore_case(trim(name), "authorization") {
            strip_prefix(trim(value), "Bearer ")
        } else {
            None
        },
        None => None,
    }
}

fn header_secret(request: &str) -> (r: Option<String>)
    ensures
        same_text(r, secret_among(lines_of(request@), 0)),
{
    let chars = chars_of(request);
    let all = lines(chars.as_slice());
    let ghost models = views(all@);
    let mut i: usize = 0;
    while i < all.len()
        invariant
            i <= all@.len(),
            models == views(all@),
            models == lines_of(request@),
            secret_among(models, i as int) == secret_among(models, 0),
        decreases all@.len() - i,
    {
        assert(models[i as int] == all@[i as int]@);
        if let Some(s) = line_secret(all[i]) {
            return Some(text_of(s));
        }
        i = i + 1;
    }
    None
}

proof fn lemma_or_is_zero(a: u8, b: u8)
    ensures
        (a | b == 0) == (a == 0 && b == 0),
{
    assert((a | b == 0) == (a == 0 && b == 0)) by (bit_vector);
}

proof fn lemma_xor_is_zero(a: u8, b: u8)
    ensures
        (a ^ b == 0) == (a == b),
{
    assert((a ^ b == 0) == (a == b)) by (bit_vector);
}

/// Whether two texts are equal, looking at every byte of texts of one length.
pub fn constant_time_eq(expected: &str, candidate: &str) -> (r: bool)
    ensures
        r == (expected@ == candidate@),
{
    let a = expected.as_bytes();
    let b = candidate.as_bytes();
    proof {
        vstd::utf8::encode_utf8_decode_utf8(expected@);
        vstd::utf8::encode_utf8_decode_utf8(candidate@);
    }
    if a.len() != b.len() {
        return false;
    }
    let mut diff: u8 = 0;
    let mut i: usize = 0;
    while i < a.len()
        invariant
            i <= a@.len() == b@.len(),
            (diff == 0) == (forall|j: int| 0 <= j < i ==> a@[j] == b@[j]),
        decreases a@.len() - i,
    {
        proof {
            lemma_or_is_zero(diff, a@[i as int] ^ b@[i as int]);
            lemma_xor_is_zero(a@[i as int], b@[i as int]);
        }
        diff = diff | (a[i] ^ b[i]);
        i = i + 1;
    }
    proof {
        if diff == 0 {
            assert(a@ =~= b@);
        }
    }
    diff == 0
}

/// Whether a request may manage the server.
pub fn is_api_authorized(secret: &str, path: &str, request: &str) -> (r: bool)
    ensures
        r == authorized(secret@, path@, request@),
{
    if secret.is_empty() {
        return true;
    }
    let supplied = match header_secret(request) {
        Some(s) => Some(s),
        None => parse_query(path).get("secret"),
    };
    match supplied {
        Some(candidate) => constant_time_eq(secret, candidate.as_str()),
        None => false,
    }
}

/// Whether a configuration entry is a secret.
pub open spec fn secret_key(key: Seq<char>) -> bool {
    lowered(key) == lowered("secret"@) || finishes_with(lowered(key), ".secret"@)
}

/// Whether a configuration entry is a secret.
pub fn is_secret_config_key(key: &str) -> (r: bool)
    ensures
        r == secret_key(key@),
{
    let chars = chars_of(key);
    let low = to_lower(chars.as_slice());
    eq_ignore_case(chars.as_slice(), "secret") || crate::text::ends_with(low.as_slice(), ".secret")
}

/// A configured secret admits a request exactly when a header gives it, or no
/// header gives any and the query does.
pub proof fn law_secret_guards_management(secret: Seq<char>, path: Seq<char>, request: Seq<char>)
    requires
        secret.len() > 0,
    ensures
        authorized(secret, path, request) ==> secret_among(lines_of(request), 0) == Some(secret)
            || value_in(query_map(path), "secret"@) == Some(secret),
        secret_among(lines_of(request), 0) is Some && secret_among(lines_of(request), 0) != Some(
            secret,
        ) ==> !authorized(secret, path, request),
{
}

} // verus!
