//! Text as sequences of characters: searching, splitting, numbers.
use vstd::prelude::*;
use crate::bytes::views;

verus! {

/// `String::push` of std: the character behind the others.
pub assume_specification[ String::push ](s: &mut String, c: char)
    ensures
        final(s)@ == old(s)@.push(c),
;

/// `String::from_utf8` of std: the text that the bytes encode, when they are
/// valid UTF-8.
#[verifier::external_body]
pub(crate) fn decode_text(bytes: Vec<u8>) -> (r: Option<String>)
    ensures
        match r {
            Some(s) => vstd::utf8::valid_utf8(bytes@) && s@ == vstd::utf8::decode_utf8(bytes@),
            None => !vstd::utf8::valid_utf8(bytes@),
        },
{
    String::from_utf8(bytes).ok()
}

/// The text that some bytes stand for when what is no valid UTF-8 is replaced.
pub uninterp spec fn lossy_utf8(bytes: Seq<u8>) -> Seq<char>;

/// `String::from_utf8_lossy` of std: valid UTF-8 is decoded as it is. Where
/// replacement characters go in other bytes is left to the name.
#[verifier::external_body]
pub(crate) fn lossy_text(bytes: &[u8]) -> (r: String)
    ensures
        r@ == lossy_utf8(bytes@),
        vstd::utf8::valid_utf8(bytes@) ==> r@ == vstd::utf8::decode_utf8(bytes@),
{
    String::from_utf8_lossy(bytes).to_string()
}

/// The characters of a text.
pub fn chars_of(s: &str) -> (r: Vec<char>)
    ensures
        r@ == s@,
{
    let mut out: Vec<char> = Vec::new();
    for c in it: s.chars()
        invariant
            it.seq() == s@,
            out@ =~= s@.take(it.index() as int),
    {
        out.push(c);
    }
    assert(out@ =~= s@);
    out
}

/// The text of some characters.
pub fn text_of(chars: &[char]) -> (r: String)
    ensures
        r@ == chars@,
{
    let mut out = String::new();
    let mut i: usize = 0;
    while i < chars.len()
        invariant
            i <= chars@.len(),
            out@ =~= chars@.take(i as int),
        decreases chars@.len() - i,
    {
        out.push(chars[i]);
        i = i + 1;
    }
    assert(chars@.take(i as int) =~= chars@);
    out
}

/// Appends characters to a text.
pub fn push_chars(out: &mut String, chars: &[char])
    ensures
        final(out)@ == old(out)@ + chars@,
{
    let ghost before = out@;
    let mut i: usize = 0;
    assert(before + chars@.take(0) =~= before);
    while i < chars.len()
        invariant
            i <= chars@.len(),
            out@ =~= before + chars@.take(i as int),
        decreases chars@.len() - i,
    {
        out.push(chars[i]);
        i = i + 1;
    }
    assert(chars@.take(i as int) =~= chars@);
}

/// The characters from `from` up to `to`.
pub fn char_slice(s: &[char], from: usize, to: usize) -> (r: &[char])
    requires
        from <= to <= s@.len(),
    ensures
        r@ == s@.subrange(from as int, to as int),
{
    &s[from..to]
}

/// A copy of some characters.
pub fn char_vec(s: &[char]) -> (r: Vec<char>)
    ensures
        r@ == s@,
{
    let mut out: Vec<char> = Vec::new();
    let mut i: usize = 0;
    while i < s.len()
        invariant
            i <= s@.len(),
            out@ =~= s@.take(i as int),
        decreases s@.len() - i,
    {
        out.push(s[i]);
        i = i + 1;
    }
    assert(s@.take(i as int) =~= s@);
    out
}

/// A copy of a text.
pub fn copy_text(s: &str) -> (r: String)
    ensures
        r@ == s@,
{
    let chars = chars_of(s);
    text_of(chars.as_slice())
}

/// Whether two texts are equal.
pub fn chars_eq(a: &[char], b: &[char]) -> (r: bool)
    ensures
        r == (a@ == b@),
{
    if a.len() != b.len() {
        return false;
    }
    let mut i: usize = 0;
    while i < a.len()
        invariant
            i <= a@.len() == b@.len(),
            forall|j: int| 0 <= j < i ==> a@[j] == b@[j],
        decreases a@.len() - i,
    {
        if a[i] != b[i] {
            return false;
        }
        i = i + 1;
    }
    assert(a@ =~= b@);
    true
}

/// Whether some characters make the given text.
pub fn is_text(a: &[char], b: &str) -> (r: bool)
    ensures
        r == (a@ == b@),
{
    let chars = chars_of(b);
    chars_eq(a, chars.as_slice())
}

/// Whether two texts are equal.
pub fn text_eq(a: &str, b: &str) -> (r: bool)
    ensures
        r == (a@ == b@),
{
    let x = chars_of(a);
    is_text(x.as_slice(), b)
}

// ── prefixes and suffixes ───────────────────────────────────────────────

/// Whether `p` begins `s`.
pub open spec fn begins_with<T>(s: Seq<T>, p: Seq<T>) -> bool {
    p.len() <= s.len() && s.take(p.len() as int) == p
}

/// Whether `p` ends `s`.
pub open spec fn finishes_with<T>(s: Seq<T>, p: Seq<T>) -> bool {
    p.len() <= s.len() && s.skip(s.len() - p.len()) == p
}

/// What is left of `s` behind the prefix `p`.
pub open spec fn without_prefix(s: Seq<char>, p: Seq<char>) -> Option<Seq<char>> {
    if begins_with(s, p) {
        Some(s.skip(p.len() as int))
    } else {
        None
    }
}

/// What is left of `s` before the suffix `p`.
pub open spec fn without_suffix(s: Seq<char>, p: Seq<char>) -> Option<Seq<char>> {
    if finishes_with(s, p) {
        Some(s.take(s.len() - p.len()))
    } else {
        None
    }
}

/// Whether an optional slice is an optional sequence.
pub open spec fn same_option(r: Option<&[char]>, m: Option<Seq<char>>) -> bool {
    match (r, m) {
        (Some(a), Some(b)) => a@ == b,
        (None, None) => true,
        _ => false,
    }
}

/// Whether an optional text is an optional sequence.
pub open spec fn same_text(r: Option<String>, m: Option<Seq<char>>) -> bool {
    match (r, m) {
        (Some(a), Some(b)) => a@ == b,
        (None, None) => true,
        _ => false,
    }
}

pub fn starts_with(s: &[char], p: &str) -> (r: bool)
    ensures
        r == begins_with(s@, p@),
{
    let pc = chars_of(p);
    if pc.len() > s.len() {
        return false;
    }
    let head = char_slice(s, 0, pc.len());
    assert(head@ =~= s@.take(p@.len() as int));
    chars_eq(head, pc.as_slice())
}

pub fn ends_with(s: &[char], p: &str) -> (r: bool)
    ensures
        r == finishes_with(s@, p@),
{
    let pc = chars_of(p);
    if pc.len() > s.len() {
        return false;
    }
    let tail = char_slice(s, s.len() - pc.len(), s.len());
    assert(tail@ =~= s@.skip(s@.len() - p@.len()));
    chars_eq(tail, pc.as_slice())
}

pub fn strip_prefix<'a>(s: &'a [char], p: &str) -> (r: Option<&'a [char]>)
    ensures
        same_option(r, without_prefix(s@, p@)),
{
    if starts_with(s, p) {
        let n: usize = chars_of(p).len();
        let rest = char_slice(s, n, s.len());
        assert(rest@ =~= s@.skip(n as int));
        Some(rest)
    } else {
        None
    }
}

pub fn strip_suffix<'a>(s: &'a [char], p: &str) -> (r: Option<&'a [char]>)
    ensures
        same_option(r, without_suffix(s@, p@)),
{
    if ends_with(s, p) {
        let n: usize = chars_of(p).len();
        let rest = char_slice(s, 0, s.len() - n);
        assert(rest@ =~= s@.take(s@.len() - n));
        Some(rest)
    } else {
        None
    }
}

// ── searching ───────────────────────────────────────────────────────────

/// The place of the first `c` from `i` on.
pub open spec fn first_at(s: Seq<char>, c: char, i: int) -> Option<int>
    decreases s.len() - i,
{
    if i < 0 || i >= s.len() {
        None
    } else if s[i] == c {
        Some(i)
    } else {
        first_at(s, c, i + 1)
    }
}

/// What a first place is.
pub proof fn lemma_first_at(s: Seq<char>, c: char, i: int)
    requires
        0 <= i,
    ensures
        match first_at(s, c, i) {
            Some(k) => i <= k < s.len() && s[k] == c && forall|j: int| i <= j < k ==> s[j] != c,
            None => forall|j: int| i <= j < s.len() ==> s[j] != c,
        },
    decreases s.len() - i,
{
    if i < s.len() && s[i] != c {
        lemma_first_at(s, c, i + 1);
    }
}

/// Where the first `c` is that stands at `k`.
pub proof fn lemma_first_is(s: Seq<char>, c: char, i: int, k: int)
    requires
        0 <= i <= k < s.len(),
        s[k] == c,
        forall|j: int| i <= j < k ==> s[j] != c,
    ensures
        first_at(s, c, i) == Some(k),
{
    lemma_first_at(s, c, i);
    if let Some(m) = first_at(s, c, i) {
        if m < k {
            assert(s[m] != c);
        }
    }
}

pub fn find_char(s: &[char], c: char, from: usize) -> (r: Option<usize>)
    ensures
        match (r, first_at(s@, c, from as int)) {
            (Some(a), Some(b)) => a == b && from <= a < s@.len(),
            (None, None) => true,
            _ => false,
        },
{
    let mut i: usize = from;
    while i < s.len()
        invariant
            from <= i,
            first_at(s@, c, i as int) == first_at(s@, c, from as int),
        decreases s@.len() - i,
    {
        if s[i] == c {
            return Some(i);
        }
        i = i + 1;
    }
    None
}

/// Whether `p` stands in `s` at `i`.
pub open spec fn stands_at<T>(s: Seq<T>, p: Seq<T>, i: int) -> bool {
    0 <= i && i + p.len() <= s.len() && s.subrange(i, i + p.len()) == p
}

/// The first place from `i` on at which `p` stands in `s`.
pub open spec fn first_place<T>(s: Seq<T>, p: Seq<T>, i: int) -> Option<int>
    decreases s.len() - i,
{
    if i < 0 || i + p.len() > s.len() {
        None
    } else if stands_at(s, p, i) {
        Some(i)
    } else if i >= s.len() {
        None
    } else {
        first_place(s, p, i + 1)
    }
}

pub fn find_text(s: &[char], p: &str) -> (r: Option<usize>)
    ensures
        match (r, first_place(s@, p@, 0)) {
            (Some(a), Some(b)) => a == b && a + p@.len() <= s@.len(),
            (None, None) => true,
            _ => false,
        },
{
    let pc = chars_of(p);
    let n: usize = pc.len();
    let mut i: usize = 0;
    while i <= s.len() && n <= s.len() - i
        invariant
            pc@ == p@,
            n == p@.len(),
            i <= s@.len() + 1,
            first_place(s@, p@, i as int) == first_place(s@, p@, 0),
        ensures
            first_place(s@, p@, 0) is None,
        decreases s@.len() + 1 - i,
    {
        let part = char_slice(s, i, i + n);
        if chars_eq(part, pc.as_slice()) {
            return Some(i);
        }
        if i == s.len() {
            break;
        }
        i = i + 1;
    }
    None
}

/// Whether a text holds another.
pub open spec fn holds_text(s: Seq<char>, p: Seq<char>) -> bool {
    first_place(s, p, 0) is Some
}

pub fn contains_text(s: &[char], p: &str) -> (r: bool)
    ensures
        r == holds_text(s@, p@),
{
    find_text(s, p).is_some()
}

pub fn contains_char(s: &[char], c: char) -> (r: bool)
    ensures
        r == s@.contains(c),
{
    proof {
        lemma_first_at(s@, c, 0);
    }
    match find_char(s, c, 0) {
        Some(i) => {
            assert(s@[i as int] == c);
            true
        },
        None => false,
    }
}

// ── splitting ───────────────────────────────────────────────────────────

/// The parts of `s` around the first `c`.
pub open spec fn cut_at(s: Seq<char>, c: char) -> Option<(Seq<char>, Seq<char>)> {
    match first_at(s, c, 0) {
        Some(k) => Some((s.take(k), s.skip(k + 1))),
        None => None,
    }
}

/// The parts of `s` between the `c`.
pub open spec fn pieces(s: Seq<char>, c: char) -> Seq<Seq<char>>
    decreases s.len(),
{
    match first_at(s, c, 0) {
        Some(k) => if 0 <= k < s.len() {
            seq![s.take(k)] + pieces(s.skip(k + 1), c)
        } else {
            seq![s]
        },
        None => seq![s],
    }
}

pub fn split_once<'a>(s: &'a [char], c: char) -> (r: Option<(&'a [char], &'a [char])>)
    ensures
        match (r, cut_at(s@, c)) {
            (Some(a), Some(b)) => a.0@ == b.0 && a.1@ == b.1,
            (None, None) => true,
            _ => false,
        },
{
    let len: usize = s.len();
    match find_char(s, c, 0) {
        Some(k) => {
            let a = char_slice(s, 0, k);
            let b = char_slice(s, k + 1, len);
            assert(a@ =~= s@.take(k as int));
            assert(b@ =~= s@.skip(k + 1));
            Some((a, b))
        },
        None => None,
    }
}

pub fn split<'a>(s: &'a [char], c: char) -> (r: Vec<&'a [char]>)
    ensures
        views(r@) == pieces(s@, c),
        r@.len() > 0,
{
    let mut out: Vec<&'a [char]> = Vec::new();
    let mut rest: &'a [char] = s;
    assert(views(out@) + pieces(rest@, c) =~= pieces(s@, c));
    loop
        invariant
            views(out@) + pieces(rest@, c) == pieces(s@, c),
        decreases rest@.len(),
    {
        proof {
            lemma_first_at(rest@, c, 0);
        }
        let ghost before = views(out@);
        match split_once(rest, c) {
            Some((head, tail)) => {
                let ghost whole = rest@;
                out.push(head);
                proof {
                    assert(views(out@) =~= before.push(head@));
                    assert(before + (seq![head@] + pieces(tail@, c)) =~= before.push(head@)
                        + pieces(tail@, c));
                }
                rest = tail;
            },
            None => {
                out.push(rest);
                proof {
                    assert(views(out@) =~= before + seq![rest@]);
                }
                return out;
            },
        }
    }
}

/// `s` without the `c` that it begins with.
pub open spec fn trim_front(s: Seq<char>, c: char) -> Seq<char>
    decreases s.len(),
{
    if s.len() > 0 && s[0] == c {
        trim_front(s.skip(1), c)
    } else {
        s
    }
}

pub fn trim_start_char<'a>(s: &'a [char], c: char) -> (r: &'a [char])
    ensures
        r@ == trim_front(s@, c),
{
    let mut i: usize = 0;
    assert(s@.skip(0) =~= s@);
    while i < s.len() && s[i] == c
        invariant
            i <= s@.len(),
            trim_front(s@.skip(i as int), c) == trim_front(s@, c),
        decreases s@.len() - i,
    {
        assert(s@.skip(i as int)[0] == s@[i as int]);
        assert(s@.skip(i as int).skip(1) =~= s@.skip(i + 1));
        i = i + 1;
    }
    let r = char_slice(s, i, s.len());
    assert(r@ =~= s@.skip(i as int));
    if i < s.len() {
        assert(s@.skip(i as int)[0] == s@[i as int]);
    }
    r
}

/// `s` without the `c` that it ends with.
pub open spec fn trim_back(s: Seq<char>, c: char) -> Seq<char>
    decreases s.len(),
{
    if s.len() > 0 && s.last() == c {
        trim_back(s.drop_last(), c)
    } else {
        s
    }
}

pub fn trim_end_char<'a>(s: &'a [char], c: char) -> (r: &'a [char])
    ensures
        r@ == trim_back(s@, c),
{
    let mut n: usize = s.len();
    assert(s@.take(n as int) =~= s@);
    while n > 0 && s[n - 1] == c
        invariant
            n <= s@.len(),
            trim_back(s@.take(n as int), c) == trim_back(s@, c),
        decreases n,
    {
        assert(s@.take(n as int).last() == s@[n - 1]);
        assert(s@.take(n as int).drop_last() =~= s@.take(n - 1));
        n = n - 1;
    }
    let r = char_slice(s, 0, n);
    assert(r@ =~= s@.take(n as int));
    if n > 0 {
        assert(s@.take(n as int).last() == s@[n - 1]);
    }
    r
}

/// Whether a character is white space.
pub open spec fn is_white(c: char) -> bool {
    let n = c as int;
    9 <= n <= 13 || n == 0x20 || n == 0x85 || n == 0xa0 || n == 0x1680 || 0x2000 <= n <= 0x200a || n
        == 0x2028 || n == 0x2029 || n == 0x202f || n == 0x205f || n == 0x3000
}

/// `s` without white space at its start.
pub open spec fn trim_white_front(s: Seq<char>) -> Seq<char>
    decreases s.len(),
{
    if s.len() > 0 && is_white(s[0]) {
        trim_white_front(s.skip(1))
    } else {
        s
    }
}

/// `s` without white space at its end.
pub open spec fn trim_white_back(s: Seq<char>) -> Seq<char>
    decreases s.len(),
{
    if s.len() > 0 && is_white(s.last()) {
        trim_white_back(s.drop_last())
    } else {
        s
    }
}

/// `s` without white space around it.
pub open spec fn trimmed(s: Seq<char>) -> Seq<char> {
    trim_white_back(trim_white_front(s))
}

pub fn is_whitespace(c: char) -> (r: bool)
    ensures
        r == is_white(c),
{
    let n: u32 = c as u32;
    (9 <= n && n <= 13) || n == 0x20 || n == 0x85 || n == 0xa0 || n == 0x1680 || (0x2000 <= n && n
        <= 0x200a) || n == 0x2028 || n == 0x2029 || n == 0x202f || n == 0x205f || n == 0x3000
}

pub fn trim<'a>(s: &'a [char]) -> (r: &'a [char])
    ensures
        r@ == trimmed(s@),
{
    let mut i: usize = 0;
    assert(s@.skip(0) =~= s@);
    while i < s.len() && is_whitespace(s[i])
        invariant
            i <= s@.len(),
            trim_white_front(s@.skip(i as int)) == trim_white_front(s@),
        decreases s@.len() - i,
    {
        assert(s@.skip(i as int)[0] == s@[i as int]);
        assert(s@.skip(i as int).skip(1) =~= s@.skip(i + 1));
        i = i + 1;
    }
    let t = char_slice(s, i, s.len());
    assert(t@ =~= s@.skip(i as int));
    if i < s.len() {
        assert(s@.skip(i as int)[0] == s@[i as int]);
    }
    assert(t@ == trim_white_front(s@));
    let mut n: usize = t.len();
    assert(t@.take(n as int) =~= t@);
    while n > 0 && is_whitespace(t[n - 1])
        invariant
            n <= t@.len(),
            trim_white_back(t@.take(n as int)) == trim_white_back(t@),
        decreases n,
    {
        assert(t@.take(n as int).last() == t@[n - 1]);
        assert(t@.take(n as int).drop_last() =~= t@.take(n - 1));
        n = n - 1;
    }
    let r = char_slice(t, 0, n);
    assert(r@ =~= t@.take(n as int));
    if n > 0 {
        assert(t@.take(n as int).last() == t@[n - 1]);
    }
    r
}

/// The lines of a text: a line ends at a line feed, without a carriage return
/// before it; what follows the last line feed is a line unless it is empty.
pub open spec fn lines_of(s: Seq<char>) -> Seq<Seq<char>>
    decreases s.len(),
{
    match first_at(s, '\n', 0) {
        Some(k) => if 0 <= k < s.len() {
            seq![without_return(s.take(k))] + lines_of(s.skip(k + 1))
        } else {
            Seq::empty()
        },
        None => if s.len() == 0 {
            Seq::empty()
        } else {
            seq![s]
        },
    }
}

/// A line without the carriage return at its end.
pub open spec fn without_return(line: Seq<char>) -> Seq<char> {
    if line.len() > 0 && line.last() == '\r' {
        line.drop_last()
    } else {
        line
    }
}

pub fn lines<'a>(s: &'a [char]) -> (r: Vec<&'a [char]>)
    ensures
        views(r@) == lines_of(s@),
{
    let mut out: Vec<&'a [char]> = Vec::new();
    let mut rest: &'a [char] = s;
    assert(views(out@) + lines_of(rest@) =~= lines_of(s@));
    loop
        invariant
            views(out@) + lines_of(rest@) == lines_of(s@),
        decreases rest@.len(),
    {
        proof {
            lemma_first_at(rest@, '\n', 0);
        }
        let ghost before = views(out@);
        match split_once(rest, '\n') {
            Some((head, tail)) => {
                let line = if head.len() > 0 && head[head.len() - 1] == '\r' {
                    let l = char_slice(head, 0, head.len() - 1);
                    assert(l@ =~= head@.drop_last());
                    l
                } else {
                    head
                };
                out.push(line);
                proof {
                    assert(views(out@) =~= before.push(line@));
                    assert(before + (seq![line@] + lines_of(tail@)) =~= before.push(line@)
                        + lines_of(tail@));
                }
                rest = tail;
            },
            None => {
                if rest.len() > 0 {
                    out.push(rest);
                    assert(views(out@) =~= before + seq![rest@]);
                } else {
                    assert(before + Seq::<Seq<char>>::empty() =~= before);
                }
                return out;
            },
        }
    }
}

/// `s` without the copies of `p` that it begins with.
pub open spec fn trim_front_text(s: Seq<char>, p: Seq<char>) -> Seq<char>
    decreases s.len(),
{
    if p.len() > 0 && begins_with(s, p) {
        trim_front_text(s.skip(p.len() as int), p)
    } else {
        s
    }
}

pub fn trim_start_text<'a>(s: &'a [char], p: &str) -> (r: &'a [char])
    ensures
        r@ == trim_front_text(s@, p@),
{
    let mut rest: &'a [char] = s;
    if p.is_empty() {
        return rest;
    }
    loop
        invariant
            p@.len() > 0,
            trim_front_text(rest@, p@) == trim_front_text(s@, p@),
        decreases rest@.len(),
    {
        match strip_prefix(rest, p) {
            Some(tail) => {
                rest = tail;
            },
            None => {
                return rest;
            },
        }
    }
}

/// `s` without the copies of `p` that it ends with.
pub open spec fn trim_back_text(s: Seq<char>, p: Seq<char>) -> Seq<char>
    decreases s.len(),
{
    if p.len() > 0 && finishes_with(s, p) {
        trim_back_text(s.take(s.len() - p.len()), p)
    } else {
        s
    }
}

pub fn trim_end_text<'a>(s: &'a [char], p: &str) -> (r: &'a [char])
    ensures
        r@ == trim_back_text(s@, p@),
{
    let mut rest: &'a [char] = s;
    if p.is_empty() {
        return rest;
    }
    loop
        invariant
            p@.len() > 0,
            trim_back_text(rest@, p@) == trim_back_text(s@, p@),
        decreases rest@.len(),
    {
        match strip_suffix(rest, p) {
            Some(head) => {
                rest = head;
            },
            None => {
                return rest;
            },
        }
    }
}

/// The parts of `s` around the last `c`.
pub open spec fn cut_at_last(s: Seq<char>, c: char) -> Option<(Seq<char>, Seq<char>)>
    decreases s.len(),
{
    if s.len() == 0 {
        None
    } else if s.last() == c {
        Some((s.drop_last(), Seq::empty()))
    } else {
        match cut_at_last(s.drop_last(), c) {
            Some((a, b)) => Some((a, b.push(s.last()))),
            None => None,
        }
    }
}

pub fn split_once_last<'a>(s: &'a [char], c: char) -> (r: Option<(&'a [char], &'a [char])>)
    ensures
        match (r, cut_at_last(s@, c)) {
            (Some(a), Some(b)) => a.0@ == b.0 && a.1@ == b.1,
            (None, None) => true,
            _ => false,
        },
{
    let len: usize = s.len();
    let mut n: usize = len;
    proof {
        assert(s@.take(n as int) =~= s@);
        assert(s@.subrange(n as int, s@.len() as int) =~= Seq::empty());
        if let Some((a, b)) = cut_at_last(s@, c) {
            assert(b + Seq::<char>::empty() =~= b);
        }
    }
    while n > 0
        invariant
            n <= len == s@.len(),
            match (cut_at_last(s@.take(n as int), c), cut_at_last(s@, c)) {
                (Some(a), Some(b)) => a.0 == b.0 && a.1 + s@.skip(n as int) == b.1,
                (None, None) => true,
                _ => false,
            },
        decreases n,
    {
        let ghost part = s@.take(n as int);
        proof {
            assert(part.last() == s@[n - 1]);
            assert(part.drop_last() =~= s@.take(n - 1));
            if let Some((a, b)) = cut_at_last(s@.take(n - 1), c) {
                assert(b.push(part.last()) + s@.skip(n as int) =~= b + s@.skip(n - 1));
            }
        }
        if s[n - 1] == c {
            let a = char_slice(s, 0, n - 1);
            let b = char_slice(s, n, len);
            assert(a@ =~= part.drop_last());
            assert(b@ =~= Seq::<char>::empty() + s@.skip(n as int));
            return Some((a, b));
        }
        n = n - 1;
    }
    None
}

/// The characters other than `c`.
pub open spec fn without_char(s: Seq<char>, c: char) -> Seq<char>
    decreases s.len(),
{
    if s.len() == 0 {
        Seq::empty()
    } else if s.last() == c {
        without_char(s.drop_last(), c)
    } else {
        without_char(s.drop_last(), c).push(s.last())
    }
}

pub fn remove_char(s: &[char], c: char) -> (r: Vec<char>)
    ensures
        r@ == without_char(s@, c),
{
    let mut out: Vec<char> = Vec::new();
    let mut i: usize = 0;
    while i < s.len()
        invariant
            i <= s@.len(),
            out@ == without_char(s@.take(i as int), c),
        decreases s@.len() - i,
    {
        assert(s@.take(i + 1).drop_last() =~= s@.take(i as int));
        assert(s@.take(i + 1).last() == s@[i as int]);
        if s[i] != c {
            out.push(s[i]);
        }
        i = i + 1;
    }
    assert(s@.take(i as int) =~= s@);
    out
}

/// The decimal digits of a text, in their order.
pub open spec fn only_digits(s: Seq<char>) -> Seq<char>
    decreases s.len(),
{
    if s.len() == 0 {
        Seq::empty()
    } else if is_digit(s.last()) {
        only_digits(s.drop_last()).push(s.last())
    } else {
        only_digits(s.drop_last())
    }
}

pub fn keep_digits(s: &[char]) -> (r: Vec<char>)
    ensures
        r@ == only_digits(s@),
{
    let mut out: Vec<char> = Vec::new();
    let mut i: usize = 0;
    while i < s.len()
        invariant
            i <= s@.len(),
            out@ == only_digits(s@.take(i as int)),
        decreases s@.len() - i,
    {
        assert(s@.take(i + 1).drop_last() =~= s@.take(i as int));
        assert(s@.take(i + 1).last() == s@[i as int]);
        if '0' <= s[i] && s[i] <= '9' {
            out.push(s[i]);
        }
        i = i + 1;
    }
    assert(s@.take(i as int) =~= s@);
    out
}

// ── letters and numbers ─────────────────────────────────────────────────

/// An ASCII letter in lower case, any other character unchanged.
pub open spec fn lower_char(c: char) -> char {
    if 'A' <= c <= 'Z' {
        ((c as u32) + 32) as char
    } else {
        c
    }
}

/// A text with its ASCII letters in lower case.
pub open spec fn lowered(s: Seq<char>) -> Seq<char> {
    Seq::new(s.len(), |i: int| lower_char(s[i]))
}

pub fn lower(c: char) -> (r: char)
    ensures
        r == lower_char(c),
{
    if 'A' <= c && c <= 'Z' {
        let n: u8 = c as u8;
        (n + 32) as char
    } else {
        c
    }
}

pub fn to_lower(s: &[char]) -> (r: Vec<char>)
    ensures
        r@ == lowered(s@),
{
    let mut out: Vec<char> = Vec::new();
    let mut i: usize = 0;
    while i < s.len()
        invariant
            i <= s@.len(),
            out@ =~= lowered(s@).take(i as int),
        decreases s@.len() - i,
    {
        out.push(lower(s[i]));
        i = i + 1;
    }
    assert(lowered(s@).take(i as int) =~= lowered(s@));
    out
}

/// Whether two texts are equal up to the case of ASCII letters.
pub fn eq_ignore_case(a: &[char], b: &str) -> (r: bool)
    ensures
        r == (lowered(a@) == lowered(b@)),
{
    let x = to_lower(a);
    let bc = chars_of(b);
    let y = to_lower(bc.as_slice());
    chars_eq(x.as_slice(), y.as_slice())
}

/// The digit for a number below ten.
pub open spec fn digit(n: int) -> char {
    (0x30 + n) as char
}

/// The decimal digits of a number.
pub open spec fn decimal(n: int) -> Seq<char>
    decreases n,
{
    if n < 10 {
        seq![digit(n)]
    } else {
        decimal(n / 10).push(digit(n % 10))
    }
}

/// Appends the decimal digits of a number.
pub fn push_decimal(out: &mut String, n: u64)
    ensures
        final(out)@ == old(out)@ + decimal(n as int),
    decreases n,
{
    if n < 10 {
        out.push((0x30 + n as u8) as char);
        assert(out@ =~= old(out)@ + decimal(n as int));
    } else {
        push_decimal(out, n / 10);
        out.push((0x30 + (n % 10) as u8) as char);
        assert(out@ =~= old(out)@ + decimal(n as int));
    }
}

/// The upper-case hexadecimal digit for a number below sixteen.
pub open spec fn hex_digit(n: int) -> char {
    if n < 10 {
        (0x30 + n) as char
    } else {
        (0x37 + n) as char
    }
}

/// Two upper-case hexadecimal digits.
pub open spec fn hex_byte(b: u8) -> Seq<char> {
    seq![hex_digit(b as int / 16), hex_digit(b as int % 16)]
}

fn hex_char(n: u8) -> (r: char)
    requires
        n < 16,
    ensures
        r == hex_digit(n as int),
{
    if n < 10 {
        (0x30 + n) as char
    } else {
        (0x37 + n) as char
    }
}

/// Appends two upper-case hexadecimal digits.
pub fn push_hex_byte(out: &mut String, b: u8)
    ensures
        final(out)@ == old(out)@ + hex_byte(b),
{
    out.push(hex_char(b / 16));
    out.push(hex_char(b % 16));
    assert(out@ =~= old(out)@ + hex_byte(b));
}

/// The upper-case hexadecimal digits of a number, without leading zeros.
pub open spec fn hexadecimal(n: int) -> Seq<char>
    decreases n,
{
    if n < 16 {
        seq![hex_digit(n)]
    } else {
        hexadecimal(n / 16).push(hex_digit(n % 16))
    }
}

/// Appends the upper-case hexadecimal digits of a number.
pub fn push_hexadecimal(out: &mut String, n: u32)
    ensures
        final(out)@ == old(out)@ + hexadecimal(n as int),
    decreases n,
{
    if n < 16 {
        out.push(hex_char(n as u8));
        assert(out@ =~= old(out)@ + hexadecimal(n as int));
    } else {
        push_hexadecimal(out, n / 16);
        out.push(hex_char((n % 16) as u8));
        assert(out@ =~= old(out)@ + hexadecimal(n as int));
    }
}

/// Whether a character is a decimal digit.
pub open spec fn is_digit(c: char) -> bool {
    '0' <= c <= '9'
}

/// The number that decimal digits make; nothing for no digits or others.
pub open spec fn digits_value(s: Seq<char>) -> Option<int>
    decreases s.len(),
{
    if s.len() == 0 || !is_digit(s.last()) {
        None
    } else if s.len() == 1 {
        Some(s[0] as int - 0x30)
    } else {
        match digits_value(s.drop_last()) {
            Some(v) => Some(v * 10 + (s.last() as int - 0x30)),
            None => None,
        }
    }
}

/// A number up to `max`, with or without a plus sign.
pub open spec fn parsed_number(s: Seq<char>, max: int) -> Option<int> {
    let digits = if s.len() > 1 && s[0] == '+' {
        s.skip(1)
    } else {
        s
    };
    match digits_value(digits) {
        Some(v) => if v <= max {
            Some(v)
        } else {
            None
        },
        None => None,
    }
}

proof fn lemma_digits_prefix(s: Seq<char>, n: int)
    requires
        0 < n <= s.len(),
    ensures
        digits_value(s) is Some ==> digits_value(s.take(n)) is Some && 0 <= digits_value(
            s.take(n),
        )->0 <= digits_value(s)->0,
    decreases s.len(),
{
    if n == s.len() {
        assert(s.take(n) =~= s);
        if n > 1 {
            lemma_digits_prefix(s.drop_last(), n - 1);
            assert(s.drop_last().take(n - 1) =~= s.drop_last());
        }
    } else {
        lemma_digits_prefix(s.drop_last(), n);
        assert(s.drop_last().take(n) =~= s.take(n));
    }
}

/// Reads a number up to `max`, with or without a plus sign.
pub fn parse_number(s: &[char], max: u64) -> (r: Option<u64>)
    ensures
        match (r, parsed_number(s@, max as int)) {
            (Some(a), Some(b)) => a == b,
            (None, None) => true,
            _ => false,
        },
{
    let from: usize = if s.len() > 1 && s[0] == '+' {
        1
    } else {
        0
    };
    let d = char_slice(s, from, s.len());
    assert(d@ =~= if s@.len() > 1 && s@[0] == '+' {
        s@.skip(1)
    } else {
        s@
    });
    if d.len() == 0 {
        return None;
    }
    let mut value: u64 = 0;
    let mut i: usize = 0;
    while i < d.len()
        invariant
            d@.len() > 0,
            d@ == if s@.len() > 1 && s@[0] == '+' {
                s@.skip(1)
            } else {
                s@
            },
            i <= d@.len(),
            i == 0 ==> value == 0,
            i > 0 ==> digits_value(d@.take(i as int)) == Some(value as int),
            value <= max,
        decreases d@.len() - i,
    {
        let ghost next = d@.take(i + 1);
        proof {
            assert(next.last() == d@[i as int]);
            assert(next.drop_last() =~= d@.take(i as int));
            lemma_digits_prefix(d@, i + 1);
            if i == 0 {
                assert(next =~= seq![d@[0]]);
            }
        }
        let c: char = d[i];
        if c < '0' || '9' < c {
            return None;
        }
        let v: u64 = (c as u32 - 0x30) as u64;
        assert(digits_value(next) == Some(value * 10 + v));
        if value > (u64::MAX - v) / 10 {
            return None;
        }
        value = value * 10 + v;
        if value > max {
            return None;
        }
        i = i + 1;
    }
    assert(d@.take(i as int) =~= d@);
    Some(value)
}

/// The number that a hexadecimal digit stands for.
pub open spec fn hex_char_value(c: char) -> Option<int> {
    if '0' <= c <= '9' {
        Some(c as int - 0x30)
    } else if 'a' <= c <= 'f' {
        Some(c as int - 0x57)
    } else if 'A' <= c <= 'F' {
        Some(c as int - 0x37)
    } else {
        None
    }
}

/// The number that hexadecimal digits make; nothing for no digits or others.
pub open spec fn hex_digits_value(s: Seq<char>) -> Option<int>
    decreases s.len(),
{
    if s.len() == 0 || hex_char_value(s.last()) is None {
        None
    } else if s.len() == 1 {
        hex_char_value(s[0])
    } else {
        match hex_digits_value(s.drop_last()) {
            Some(v) => Some(v * 16 + hex_char_value(s.last())->0),
            None => None,
        }
    }
}

/// A hexadecimal number up to `max`, with or without a plus sign.
pub open spec fn parsed_hex(s: Seq<char>, max: int) -> Option<int> {
    let digits = if s.len() > 1 && s[0] == '+' {
        s.skip(1)
    } else {
        s
    };
    match hex_digits_value(digits) {
        Some(v) => if v <= max {
            Some(v)
        } else {
            None
        },
        None => None,
    }
}

proof fn lemma_hex_prefix(s: Seq<char>, n: int)
    requires
        0 < n <= s.len(),
    ensures
        hex_digits_value(s) is Some ==> hex_digits_value(s.take(n)) is Some && 0
            <= hex_digits_value(s.take(n))->0 <= hex_digits_value(s)->0,
    decreases s.len(),
{
    if n == s.len() {
        assert(s.take(n) =~= s);
        if n > 1 {
            lemma_hex_prefix(s.drop_last(), n - 1);
            assert(s.drop_last().take(n - 1) =~= s.drop_last());
        }
    } else {
        lemma_hex_prefix(s.drop_last(), n);
        assert(s.drop_last().take(n) =~= s.take(n));
    }
}

fn hex_value_of(c: char) -> (r: Option<u64>)
    ensures
        match (r, hex_char_value(c)) {
            (Some(a), Some(b)) => a == b && a < 16,
            (None, None) => true,
            _ => false,
        },
{
    if '0' <= c && c <= '9' {
        Some((c as u32 - 0x30) as u64)
    } else if 'a' <= c && c <= 'f' {
        Some((c as u32 - 0x57) as u64)
    } else if 'A' <= c && c <= 'F' {
        Some((c as u32 - 0x37) as u64)
    } else {
        None
    }
}

/// Reads a hexadecimal number up to `max`, with or without a plus sign.
pub fn parse_hex(s: &[char], max: u64) -> (r: Option<u64>)
    ensures
        match (r, parsed_hex(s@, max as int)) {
            (Some(a), Some(b)) => a == b,
            (None, None) => true,
            _ => false,
        },
{
    let from: usize = if s.len() > 1 && s[0] == '+' {
        1
    } else {
        0
    };
    let d = char_slice(s, from, s.len());
    assert(d@ =~= if s@.len() > 1 && s@[0] == '+' {
        s@.skip(1)
    } else {
        s@
    });
    if d.len() == 0 {
        return None;
    }
    let mut value: u64 = 0;
    let mut i: usize = 0;
    while i < d.len()
        invariant
            d@.len() > 0,
            d@ == if s@.len() > 1 && s@[0] == '+' {
                s@.skip(1)
            } else {
                s@
            },
            i <= d@.len(),
            i == 0 ==> value == 0,
            i > 0 ==> hex_digits_value(d@.take(i as int)) == Some(value as int),
            value <= max,
        decreases d@.len() - i,
    {
        let ghost next = d@.take(i + 1);
        proof {
            assert(next.last() == d@[i as int]);
            assert(next.drop_last() =~= d@.take(i as int));
            lemma_hex_prefix(d@, i + 1);
            if i == 0 {
                assert(next =~= seq![d@[0]]);
            }
        }
        match hex_value_of(d[i]) {
            Some(v) => {
                assert(hex_digits_value(next) == Some(value * 16 + v));
                if value > (u64::MAX - v) / 16 {
                    return None;
                }
                value = value * 16 + v;
            },
            None => {
                return None;
            },
        }
        if value > max {
            return None;
        }
        i = i + 1;
    }
    assert(d@.take(i as int) =~= d@);
    Some(value)
}

/// The parts of `s` between the copies of `p`.
pub open spec fn pieces_text(s: Seq<char>, p: Seq<char>) -> Seq<Seq<char>>
    decreases s.len(),
{
    match first_place(s, p, 0) {
        Some(k) => if 0 <= k && p.len() > 0 && k + p.len() <= s.len() {
            seq![s.take(k)] + pieces_text(s.skip(k + p.len()), p)
        } else {
            seq![s]
        },
        None => seq![s],
    }
}

pub fn split_text<'a>(s: &'a [char], p: &str) -> (r: Vec<&'a [char]>)
    requires
        p@.len() > 0,
    ensures
        views(r@) == pieces_text(s@, p@),
        r@.len() > 0,
{
    let n: usize = chars_of(p).len();
    let mut out: Vec<&'a [char]> = Vec::new();
    let mut rest: &'a [char] = s;
    assert(views(out@) + pieces_text(rest@, p@) =~= pieces_text(s@, p@));
    loop
        invariant
            n == p@.len() > 0,
            views(out@) + pieces_text(rest@, p@) == pieces_text(s@, p@),
        decreases rest@.len(),
    {
        let ghost before = views(out@);
        match find_text(rest, p) {
            Some(k) => {
                let ghost whole = rest@;
                let len: usize = rest.len();
                let head = char_slice(rest, 0, k);
                let tail = char_slice(rest, k + n, len);
                out.push(head);
                proof {
                    assert(head@ =~= whole.take(k as int));
                    assert(tail@ =~= whole.skip(k + n));
                    assert(views(out@) =~= before.push(head@));
                    assert(before + (seq![head@] + pieces_text(tail@, p@)) =~= before.push(head@)
                        + pieces_text(tail@, p@));
                }
                rest = tail;
            },
            None => {
                out.push(rest);
                assert(views(out@) =~= before + seq![rest@]);
                return out;
            },
        }
    }
}

} // verus!
