//! What the operations on texts do: cutting, trimming, reading and writing
//! numbers.
use vstd::prelude::*;
use crate::text::{
    begins_with, cut_at, cut_at_last, decimal, digit, digits_value, finishes_with, first_at,
    first_place, hex_char_value, hex_digit, hex_digits_value, hexadecimal, holds_text, is_digit,
    is_white, lines_of, lowered, only_digits, parsed_hex, parsed_number, pieces, pieces_text,
    stands_at, trim_back, trim_front, trim_white_back, trim_white_front, trimmed, without_char,
    without_prefix, without_suffix,
};

verus! {

// ── prefixes and suffixes ───────────────────────────────────────────────

/// A text begins and ends with the parts that it is made of, and what is left
/// without one is the other.
pub proof fn law_parts_are_found(a: Seq<char>, b: Seq<char>)
    ensures
        begins_with(a + b, a),
        finishes_with(a + b, b),
        without_prefix(a + b, a) == Some(b),
        without_suffix(a + b, b) == Some(a),
{
    assert((a + b).take(a.len() as int) =~= a);
    assert((a + b).skip(a.len() as int) =~= b);
    assert((a + b).skip((a + b).len() - b.len()) =~= b);
    assert((a + b).take((a + b).len() - b.len()) =~= a);
}

/// What a text begins with agrees with it in every place, and so does what it
/// ends with, counted from the end.
pub proof fn law_prefix_agrees(s: Seq<char>, p: Seq<char>)
    ensures
        begins_with(s, p) <==> p.len() <= s.len() && forall|i: int|
            0 <= i < p.len() ==> s[i] == #[trigger] p[i],
        finishes_with(s, p) <==> p.len() <= s.len() && forall|i: int|
            0 <= i < p.len() ==> s[s.len() - p.len() + i] == #[trigger] p[i],
        without_prefix(s, p) is Some <==> begins_with(s, p),
        without_suffix(s, p) is Some <==> finishes_with(s, p),
{
    if p.len() <= s.len() {
        let t = s.take(p.len() as int);
        let u = s.skip(s.len() - p.len());
        if t == p {
            assert forall|i: int| 0 <= i < p.len() implies s[i] == #[trigger] p[i] by {
                assert(t[i] == s[i]);
            }
        }
        if forall|i: int| 0 <= i < p.len() ==> s[i] == #[trigger] p[i] {
            assert(t =~= p);
        }
        if u == p {
            assert forall|i: int| 0 <= i < p.len() implies s[s.len() - p.len() + i]
                == #[trigger] p[i] by {
                assert(u[i] == s[s.len() - p.len() + i]);
            }
        }
        if forall|i: int| 0 <= i < p.len() ==> s[s.len() - p.len() + i] == #[trigger] p[i] {
            assert(u =~= p);
        }
    }
}

// ── cutting ─────────────────────────────────────────────────────────────

pub proof fn lemma_none_at(s: Seq<char>, c: char, i: int)
    requires
        0 <= i,
        !s.contains(c),
    ensures
        first_at(s, c, i) is None,
    decreases s.len() - i,
{
    if i < s.len() {
        assert(s[i] != c);
        lemma_none_at(s, c, i + 1);
    }
}

pub proof fn lemma_found_at(a: Seq<char>, c: char, b: Seq<char>, i: int)
    requires
        0 <= i <= a.len(),
        !a.contains(c),
    ensures
        first_at(a.push(c) + b, c, i) == Some(a.len() as int),
    decreases a.len() - i,
{
    let s = a.push(c) + b;
    if i < a.len() {
        assert(s[i] == a[i]);
        assert(a[i] != c);
        lemma_found_at(a, c, b, i + 1);
    } else {
        assert(s[i] == c);
    }
}

/// A text is cut at the first of a character, which goes away; one without it
/// is not cut.
pub proof fn law_cut_at_first(a: Seq<char>, c: char, b: Seq<char>)
    requires
        !a.contains(c),
    ensures
        cut_at(a.push(c) + b, c) == Some((a, b)),
        cut_at(a, c) is None,
{
    lemma_found_at(a, c, b, 0);
    lemma_none_at(a, c, 0);
    let s = a.push(c) + b;
    assert(s.take(a.len() as int) =~= a);
    assert(s.skip(a.len() as int + 1) =~= b);
}

/// A text is cut at the last of a character, which goes away; one without it is
/// not cut.
pub proof fn law_cut_at_last(a: Seq<char>, c: char, b: Seq<char>)
    requires
        !b.contains(c),
    ensures
        cut_at_last(a.push(c) + b, c) == Some((a, b)),
        cut_at_last(b, c) is None,
    decreases b.len(),
{
    let s = a.push(c) + b;
    if b.len() == 0 {
        assert(s =~= a.push(c));
        assert(s.drop_last() =~= a);
        assert(b =~= Seq::empty());
    } else {
        let front = b.drop_last();
        assert(!front.contains(c)) by {
            if front.contains(c) {
                let i = choose|i: int| 0 <= i < front.len() && front[i] == c;
                assert(b[i] == c);
            }
        }
        law_cut_at_last(a, c, front);
        assert(b[b.len() - 1] != c);
        assert(s.last() == b.last());
        assert(s.drop_last() =~= a.push(c) + front);
        assert(front.push(b.last()) =~= b);
    }
}

/// The pieces of a text between the copies of a character: what precedes the
/// first, then the pieces behind it.
pub proof fn law_pieces_between(a: Seq<char>, c: char, b: Seq<char>)
    requires
        !a.contains(c),
    ensures
        pieces(a, c) == seq![a],
        pieces(a.push(c) + b, c) == seq![a] + pieces(b, c),
{
    lemma_found_at(a, c, b, 0);
    lemma_none_at(a, c, 0);
    let s = a.push(c) + b;
    assert(s.take(a.len() as int) =~= a);
    assert(s.skip(a.len() as int + 1) =~= b);
}

/// The lines of a text: a line ends at a line feed, with or without a carriage
/// return before it, and the last one may lack both.
pub proof fn law_lines_are_read(line: Seq<char>, rest: Seq<char>)
    requires
        !line.contains('\n'),
        line.len() > 0 ==> line.last() != '\r',
    ensures
        lines_of(line.push('\n') + rest) == seq![line] + lines_of(rest),
        lines_of(line.push('\r').push('\n') + rest) == seq![line] + lines_of(rest),
        line.len() > 0 ==> lines_of(line) == seq![line],
{
    lemma_found_at(line, '\n', rest, 0);
    lemma_none_at(line, '\n', 0);
    let s = line.push('\n') + rest;
    assert(s.take(line.len() as int) =~= line);
    assert(s.skip(line.len() as int + 1) =~= rest);
    let l = line.push('\r');
    assert(!l.contains('\n')) by {
        if l.contains('\n') {
            let i = choose|i: int| 0 <= i < l.len() && l[i] == '\n';
            assert(i < line.len());
            assert(line[i] == '\n');
        }
    }
    lemma_found_at(l, '\n', rest, 0);
    let t = l.push('\n') + rest;
    assert(t.take(l.len() as int) =~= l);
    assert(t.skip(l.len() as int + 1) =~= rest);
    assert(l.drop_last() =~= line);
}

proof fn lemma_first_place(a: Seq<char>, p: Seq<char>, b: Seq<char>, i: int)
    requires
        0 <= i <= a.len(),
        p.len() > 0,
        forall|k: int| 0 <= k < a.len() ==> !#[trigger] stands_at(a + p + b, p, k),
    ensures
        first_place(a + p + b, p, i) == Some(a.len() as int),
    decreases a.len() - i,
{
    let s = a + p + b;
    if i < a.len() {
        assert(!stands_at(s, p, i));
        lemma_first_place(a, p, b, i + 1);
    } else {
        assert(s.subrange(i, i + p.len()) =~= p);
    }
}

proof fn lemma_no_place(s: Seq<char>, p: Seq<char>, i: int)
    requires
        0 <= i,
        forall|k: int| 0 <= k ==> !#[trigger] stands_at(s, p, k),
    ensures
        first_place(s, p, i) is None,
    decreases s.len() - i,
{
    if i + p.len() <= s.len() {
        assert(!stands_at(s, p, i));
        if i < s.len() {
            lemma_no_place(s, p, i + 1);
        }
    }
}

/// A text that stands in another is found at its first place, the other is cut
/// there, and one that holds it nowhere is not cut.
pub proof fn law_text_is_found(a: Seq<char>, p: Seq<char>, b: Seq<char>)
    requires
        p.len() > 0,
        forall|k: int| 0 <= k < a.len() ==> !#[trigger] stands_at(a + p + b, p, k),
        forall|k: int| 0 <= k ==> !#[trigger] stands_at(a, p, k),
    ensures
        first_place(a + p + b, p, 0) == Some(a.len() as int),
        holds_text(a + p + b, p),
        !holds_text(a, p),
        pieces_text(a + p + b, p) == seq![a] + pieces_text(b, p),
        pieces_text(a, p) == seq![a],
{
    lemma_first_place(a, p, b, 0);
    lemma_no_place(a, p, 0);
    let s = a + p + b;
    assert(s.take(a.len() as int) =~= a);
    assert(s.skip((a.len() + p.len()) as int) =~= b);
}

/// Whether a text stands in another somewhere.
pub proof fn law_holds_somewhere(s: Seq<char>, p: Seq<char>)
    ensures
        holds_text(s, p) <==> exists|k: int| #[trigger] stands_at(s, p, k),
{
    if exists|k: int| #[trigger] stands_at(s, p, k) {
        let k = choose|k: int| #[trigger] stands_at(s, p, k);
        lemma_some_place(s, p, 0, k);
    } else {
        lemma_no_place(s, p, 0);
    }
}

proof fn lemma_some_place(s: Seq<char>, p: Seq<char>, i: int, k: int)
    requires
        0 <= i <= k,
        stands_at(s, p, k),
    ensures
        first_place(s, p, i) is Some,
    decreases k - i,
{
    if i < k && !stands_at(s, p, i) {
        lemma_some_place(s, p, i + 1, k);
    }
}

// ── trimming ────────────────────────────────────────────────────────────

/// The characters of a kind at the front of a text, and those at its end, are
/// taken off, all of them and no other.
pub proof fn law_trims_all(s: Seq<char>, c: char, n: nat)
    ensures
        s.len() > 0 && s[0] != c || s.len() == 0 ==> trim_front(
            Seq::new(n, |i: int| c) + s,
            c,
        ) == s,
        s.len() > 0 && s.last() != c || s.len() == 0 ==> trim_back(
            s + Seq::new(n, |i: int| c),
            c,
        ) == s,
    decreases n,
{
    let run = Seq::new(n, |i: int| c);
    if n == 0 {
        assert(run + s =~= s);
        assert(s + run =~= s);
    } else {
        let less = Seq::new((n - 1) as nat, |i: int| c);
        law_trims_all(s, c, (n - 1) as nat);
        assert((run + s).skip(1) =~= less + s);
        assert((run + s)[0] == c);
        assert((s + run).drop_last() =~= s + less);
        assert((s + run).last() == c);
    }
}

proof fn lemma_white_front(w: Seq<char>, s: Seq<char>)
    requires
        forall|i: int| 0 <= i < w.len() ==> is_white(#[trigger] w[i]),
        s.len() > 0 ==> !is_white(s[0]),
    ensures
        trim_white_front(w + s) == s,
    decreases w.len(),
{
    if w.len() == 0 {
        assert(w + s =~= s);
    } else {
        let rest = w.skip(1);
        assert forall|i: int| 0 <= i < rest.len() implies is_white(#[trigger] rest[i]) by {
            assert(rest[i] == w[i + 1]);
        }
        lemma_white_front(rest, s);
        assert((w + s).skip(1) =~= rest + s);
        assert((w + s)[0] == w[0]);
    }
}

proof fn lemma_white_back(s: Seq<char>, w: Seq<char>)
    requires
        forall|i: int| 0 <= i < w.len() ==> is_white(#[trigger] w[i]),
        s.len() > 0 ==> !is_white(s.last()),
    ensures
        trim_white_back(s + w) == s,
    decreases w.len(),
{
    if w.len() == 0 {
        assert(s + w =~= s);
    } else {
        let rest = w.drop_last();
        assert forall|i: int| 0 <= i < rest.len() implies is_white(#[trigger] rest[i]) by {
            assert(rest[i] == w[i]);
        }
        lemma_white_back(s, rest);
        assert((s + w).drop_last() =~= s + rest);
        assert((s + w).last() == w.last());
    }
}

/// White space around a text is taken off, and what is inside it stays.
pub proof fn law_white_space_is_trimmed(v: Seq<char>, s: Seq<char>, w: Seq<char>)
    requires
        forall|i: int| 0 <= i < v.len() ==> is_white(#[trigger] v[i]),
        forall|i: int| 0 <= i < w.len() ==> is_white(#[trigger] w[i]),
        s.len() > 0,
        !is_white(s[0]),
        !is_white(s.last()),
    ensures
        trimmed(v + s + w) == s,
        is_white(' ') && is_white('\t') && is_white('\r') && is_white('\n'),
        !is_white('a') && !is_white('0') && !is_white('/'),
{
    assert((s + w)[0] == s[0]);
    lemma_white_front(v, s + w);
    assert(v + s + w =~= v + (s + w));
    lemma_white_back(s, w);
}

/// Letters are lowered one by one, and nothing else changes.
pub proof fn law_letters_are_lowered(s: Seq<char>, i: int)
    requires
        0 <= i < s.len(),
    ensures
        lowered(s).len() == s.len(),
        'A' <= s[i] <= 'Z' ==> lowered(s)[i] as int == s[i] as int + 32,
        !('A' <= s[i] <= 'Z') ==> lowered(s)[i] == s[i],
{
}

/// Taking a character out of a text leaves the others in their order.
pub proof fn law_character_is_taken_out(a: Seq<char>, c: char, d: char)
    ensures
        without_char(a.push(c), c) == without_char(a, c),
        d != c ==> without_char(a.push(d), c) == without_char(a, c).push(d),
        without_char(Seq::empty(), c).len() == 0,
        is_digit(d) ==> only_digits(a.push(d)) == only_digits(a).push(d),
        !is_digit(d) ==> only_digits(a.push(d)) == only_digits(a),
        is_digit(d) <==> 0x30 <= d as int <= 0x39,
{
    assert(a.push(c).drop_last() =~= a);
    assert(a.push(d).drop_last() =~= a);
}

// ── numbers ─────────────────────────────────────────────────────────────

proof fn lemma_decimal(n: int)
    requires
        0 <= n,
    ensures
        digits_value(decimal(n)) == Some(n),
        decimal(n).len() > 0,
        decimal(n)[0] != '+',
        forall|i: int| 0 <= i < decimal(n).len() ==> is_digit(#[trigger] decimal(n)[i]),
    decreases n,
{
    assert(digit(n % 10) as int == 0x30 + n % 10);
    if n >= 10 {
        lemma_decimal(n / 10);
        let d = decimal(n);
        assert(d.drop_last() =~= decimal(n / 10));
        assert(d.last() == digit(n % 10));
        assert(d[0] == decimal(n / 10)[0]);
        assert forall|i: int| 0 <= i < d.len() implies is_digit(#[trigger] d[i]) by {
            if i < d.len() - 1 {
                assert(d[i] == decimal(n / 10)[i]);
            }
        }
    }
}

/// A number that is written in decimal digits reads back, with or without a
/// plus sign, unless it is larger than allowed; what holds anything but digits
/// is no number.
pub proof fn law_number_reads_back(n: int, max: int)
    requires
        0 <= n,
    ensures
        n <= max ==> parsed_number(decimal(n), max) == Some(n),
        n <= max ==> parsed_number(seq!['+'] + decimal(n), max) == Some(n),
        n > max ==> parsed_number(decimal(n), max) is None,
        parsed_number(Seq::empty(), max) is None,
        forall|i: int| 0 <= i < decimal(n).len() ==> is_digit(#[trigger] decimal(n)[i]),
        decimal(n).len() > 0,
{
    lemma_decimal(n);
    assert((seq!['+'] + decimal(n)).skip(1) =~= decimal(n));
}

proof fn lemma_bad_digit(s: Seq<char>, i: int)
    requires
        0 <= i < s.len(),
        !is_digit(s[i]),
    ensures
        digits_value(s) is None,
    decreases s.len(),
{
    if i < s.len() - 1 {
        assert(s.drop_last()[i] == s[i]);
        lemma_bad_digit(s.drop_last(), i);
    }
}

/// What holds anything but digits behind its first character is no number.
pub proof fn law_other_characters_make_no_number(s: Seq<char>, max: int, i: int)
    requires
        0 <= i < s.len(),
        !is_digit(s[i]),
        i == 0 ==> s[0] != '+',
    ensures
        parsed_number(s, max) is None,
{
    if s.len() > 1 && s[0] == '+' {
        assert(s.skip(1)[i - 1] == s[i]);
        lemma_bad_digit(s.skip(1), i - 1);
    } else {
        lemma_bad_digit(s, i);
    }
}

/// Numbers are read digit by digit, the highest first.
pub proof fn law_digits_are_read(a: Seq<char>, v: int, d: int)
    requires
        digits_value(a) == Some(v),
        0 <= d < 10,
    ensures
        digits_value(a.push((0x30 + d) as char)) == Some(10 * v + d),
        digits_value(seq![(0x30 + d) as char]) == Some(d),
{
    let s = a.push((0x30 + d) as char);
    assert(s.drop_last() =~= a);
    assert(a.len() > 0);
}

proof fn lemma_hexadecimal(n: int)
    requires
        0 <= n,
    ensures
        hex_digits_value(hexadecimal(n)) == Some(n),
        hexadecimal(n).len() > 0,
        hexadecimal(n)[0] != '+',
    decreases n,
{
    let k = n % 16;
    assert(hex_digit(k) as int == if k < 10 {
        0x30 + k
    } else {
        0x37 + k
    });
    if n >= 16 {
        lemma_hexadecimal(n / 16);
        let d = hexadecimal(n);
        assert(d.drop_last() =~= hexadecimal(n / 16));
        assert(d[0] == hexadecimal(n / 16)[0]);
    }
}

/// A number that is written in hexadecimal digits reads back, in upper case
/// and in lower case.
pub proof fn law_hexadecimal_reads_back(n: int, max: int)
    requires
        0 <= n <= max,
    ensures
        parsed_hex(hexadecimal(n), max) == Some(n),
        parsed_hex(lowered(hexadecimal(n)), max) == Some(n),
{
    lemma_hexadecimal(n);
    lemma_lowered_hex(hexadecimal(n));
    assert(lowered(hexadecimal(n))[0] != '+');
}

proof fn lemma_lowered_hex(s: Seq<char>)
    ensures
        hex_digits_value(s) is Some ==> hex_digits_value(lowered(s)) == hex_digits_value(s),
    decreases s.len(),
{
    if s.len() > 0 && hex_digits_value(s) is Some {
        assert(lowered(s).drop_last() =~= lowered(s.drop_last()));
        assert(lowered(s).last() == crate::text::lower_char(s.last()));
        lemma_lowered_char(s.last());
        lemma_lowered_hex(s.drop_last());
    }
}

proof fn lemma_lowered_char(c: char)
    ensures
        hex_char_value(c) is Some ==> hex_char_value(crate::text::lower_char(c))
            == hex_char_value(c),
{
    if 'A' <= c <= 'F' {
        assert(crate::text::lower_char(c) as int == c as int + 32);
    }
}

/// Digits of a number in hexadecimal stand for 0 to 15.
pub proof fn law_hexadecimal_digits(n: int)
    requires
        0 <= n < 16,
    ensures
        n < 10 ==> hex_char_value((0x30 + n) as char) == Some(n) && hex_digit(n) == (0x30
            + n) as char,
        n >= 10 ==> hex_char_value((0x41 + n - 10) as char) == Some(n) && hex_digit(n) == (0x41 + n
            - 10) as char,
        n >= 10 ==> hex_char_value((0x61 + n - 10) as char) == Some(n),
{
}

pub proof fn lemma_not_negative(s: Seq<char>, max: int)
    ensures
        parsed_number(s, max) is Some ==> parsed_number(s, max)->0 >= 0,
{
    lemma_digits_not_negative(s);
    lemma_digits_not_negative(s.skip(1));
}

proof fn lemma_digits_not_negative(s: Seq<char>)
    ensures
        digits_value(s) is Some ==> digits_value(s)->0 >= 0,
    decreases s.len(),
{
    if s.len() > 0 {
        lemma_digits_not_negative(s.drop_last());
    }
}

} // verus!
