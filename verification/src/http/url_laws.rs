//! What an address is made of and what references name.
use vstd::prelude::*;
use crate::http::url::{
    Scheme, UrlError, UrlModel, normal_parts, parsed_url, raw_path, resolved, scheme_prefix,
    slash_joined,
};
use crate::text::{begins_with, cut_at, cut_at_last, decimal, first_at, pieces, without_prefix};
use crate::text_laws::{
    law_cut_at_first, law_cut_at_last, law_number_reads_back, law_parts_are_found,
    law_pieces_between, lemma_found_at, lemma_none_at,
};

verus! {

// ── addresses ───────────────────────────────────────────────────────────

/// The start of an address.
pub open spec fn written_scheme(secure: bool) -> Seq<char> {
    if secure {
        "https://"@
    } else {
        "http://"@
    }
}

/// The scheme of a secure address, or of another one.
pub open spec fn scheme_of(secure: bool) -> Scheme {
    if secure {
        Scheme::Https
    } else {
        Scheme::Http
    }
}

/// The port of an address that names none.
pub open spec fn usual_port(secure: bool) -> int {
    if secure {
        443
    } else {
        80
    }
}

proof fn lemma_parts(secure: bool, authority: Seq<char>, path: Seq<char>)
    requires
        authority.len() > 0,
        !authority.contains('/'),
        path.len() == 0 || path[0] == '/',
    ensures
        parsed_url(written_scheme(secure) + (authority + path)) == crate::http::url::url_after(
            scheme_of(secure),
            authority + path,
        ),
        crate::http::url::authority_and_path(authority + path) == (
            authority,
            if path.len() == 0 {
                seq!['/']
            } else {
                path
            },
        ),
{
    reveal_strlit("http://");
    reveal_strlit("https://");
    reveal_strlit("/");
    let rest = authority + path;
    law_parts_are_found("http://"@, rest);
    law_parts_are_found("https://"@, rest);
    let url = written_scheme(secure) + rest;
    if secure {
        assert(!begins_with(url, "http://"@)) by {
            if begins_with(url, "http://"@) {
                assert(url.take("http://"@.len() as int)[4] == ':');
            }
        }
    }
    if path.len() == 0 {
        assert(rest =~= authority);
        lemma_none_at(authority, '/', 0);
        assert("/"@ =~= seq!['/']);
    } else {
        lemma_found_at(authority, '/', path.skip(1), 0);
        assert(authority.push('/') + path.skip(1) =~= rest);
        assert(rest.take(authority.len() as int) =~= authority);
        assert(rest.skip(authority.len() as int) =~= path);
    }
}

/// An address with a host alone has the usual port of its scheme, and the path
/// from the first slash on; without a path, the top one.
pub proof fn law_plain_address_is_read(secure: bool, host: Seq<char>, path: Seq<char>)
    requires
        host.len() > 0,
        host[0] != '[',
        !host.contains('/'),
        !host.contains(':'),
        path.len() == 0 || path[0] == '/',
    ensures
        parsed_url(written_scheme(secure) + (host + path)) == Ok::<UrlModel, UrlError>(
            UrlModel {
                scheme: scheme_of(secure),
                host,
                authority: host,
                port: usual_port(secure),
                path: if path.len() == 0 {
                    seq!['/']
                } else {
                    path
                },
            },
        ),
{
    reveal_strlit("[");
    lemma_parts(secure, host, path);
    lemma_none_at(host, ':', 0);
    assert(!begins_with(host, "["@)) by {
        if begins_with(host, "["@) {
            assert(host.take(1)[0] == '[');
        }
    }
}

/// A number behind a colon is the port, and belongs to the authority; one that
/// is too large is refused.
pub proof fn law_port_is_read(secure: bool, host: Seq<char>, port: int, path: Seq<char>)
    requires
        host.len() > 0,
        host[0] != '[',
        !host.contains('/'),
        !host.contains(':'),
        0 <= port,
        path.len() == 0 || path[0] == '/',
    ensures
        ({
            let authority = host.push(':') + decimal(port);
            parsed_url(written_scheme(secure) + (authority + path)) == if port <= 65535 {
                Ok::<UrlModel, UrlError>(
                    UrlModel {
                        scheme: scheme_of(secure),
                        host,
                        authority,
                        port,
                        path: if path.len() == 0 {
                            seq!['/']
                        } else {
                            path
                        },
                    },
                )
            } else {
                Err(UrlError::Port)
            }
        }),
{
    reveal_strlit("[");
    law_number_reads_back(port, 65535);
    let digits = decimal(port);
    let authority = host.push(':') + digits;
    lemma_digits_hold_no(digits, '/');
    lemma_digits_hold_no(digits, ':');
    assert(!authority.contains('/')) by {
        if authority.contains('/') {
            let i = choose|i: int| 0 <= i < authority.len() && authority[i] == '/';
            if i < host.len() {
                assert(host[i] == '/');
            } else {
                assert(digits[i - host.len() - 1] == '/');
            }
        }
    }
    lemma_parts(secure, authority, path);
    law_cut_at_first(host, ':', digits);
    assert(authority[0] == host[0]);
    assert(!begins_with(authority, "["@)) by {
        if begins_with(authority, "["@) {
            assert(authority.take(1)[0] == '[');
        }
    }
}

proof fn lemma_digits_hold_no(digits: Seq<char>, c: char)
    requires
        forall|i: int| 0 <= i < digits.len() ==> crate::text::is_digit(#[trigger] digits[i]),
        !crate::text::is_digit(c),
    ensures
        !digits.contains(c),
{
    if digits.contains(c) {
        let i = choose|i: int| 0 <= i < digits.len() && digits[i] == c;
        assert(crate::text::is_digit(digits[i]));
    }
}

/// A host in brackets may hold colons; behind them a port may stand.
pub proof fn law_bracketed_host_is_read(
    secure: bool,
    host: Seq<char>,
    port: int,
    path: Seq<char>,
)
    requires
        !host.contains('/'),
        !host.contains(']'),
        0 <= port <= 65535,
        path.len() == 0 || path[0] == '/',
    ensures
        ({
            let plain = seq!['['] + host + seq![']'];
            let ported = plain + seq![':'] + decimal(port);
            let shown = if path.len() == 0 {
                seq!['/']
            } else {
                path
            };
            &&& parsed_url(written_scheme(secure) + (plain + path)) == Ok::<UrlModel, UrlError>(
                UrlModel {
                    scheme: scheme_of(secure),
                    host,
                    authority: plain,
                    port: usual_port(secure),
                    path: shown,
                },
            )
            &&& parsed_url(written_scheme(secure) + (ported + path)) == Ok::<UrlModel, UrlError>(
                UrlModel {
                    scheme: scheme_of(secure),
                    host,
                    authority: ported,
                    port,
                    path: shown,
                },
            )
        }),
{
    reveal_strlit("[");
    reveal_strlit(":");
    law_number_reads_back(port, 65535);
    let digits = decimal(port);
    lemma_digits_hold_no(digits, '/');
    let none = Seq::<char>::empty();
    let plain = seq!['['] + host + seq![']'];
    let ported = plain + seq![':'] + digits;
    assert(!plain.contains('/')) by {
        if plain.contains('/') {
            let i = choose|i: int| 0 <= i < plain.len() && plain[i] == '/';
            assert(host[i - 1] == '/');
        }
    }
    assert(!ported.contains('/')) by {
        if ported.contains('/') {
            let i = choose|i: int| 0 <= i < ported.len() && ported[i] == '/';
            if i < plain.len() {
                assert(plain[i] == '/');
            } else {
                assert(digits[i - plain.len() - 1] == '/');
            }
        }
    }
    lemma_parts(secure, plain, path);
    lemma_parts(secure, ported, path);
    assert("["@ =~= seq!['[']);
    assert(":"@ =~= seq![':']);
    assert(plain =~= "["@ + (host.push(']') + none));
    assert(ported =~= "["@ + (host.push(']') + (":"@ + digits)));
    law_parts_are_found("["@, host.push(']') + none);
    law_parts_are_found("["@, host.push(']') + (":"@ + digits));
    law_cut_at_first(host, ']', none);
    law_cut_at_first(host, ']', ":"@ + digits);
    law_parts_are_found(":"@, digits);
    assert(without_prefix(none, ":"@) is None);
}

// ── references ──────────────────────────────────────────────────────────

/// Parts of a path, each with a slash before it.
pub open spec fn path_of(parts: Seq<Seq<char>>) -> Seq<char>
    decreases parts.len(),
{
    if parts.len() == 0 {
        Seq::empty()
    } else {
        path_of(parts.drop_last()) + seq!['/'] + parts.last()
    }
}

/// Whether a text is one ordinary part of a path.
pub open spec fn is_part(part: Seq<char>) -> bool {
    &&& part.len() > 0
    &&& part != "."@
    &&& part != ".."@
    &&& !part.contains('/')
    &&& !part.contains('?')
    &&& !part.contains('#')
}

/// Whether texts are ordinary parts of a path.
pub open spec fn are_parts(parts: Seq<Seq<char>>) -> bool {
    forall|i: int| 0 <= i < parts.len() ==> is_part(#[trigger] parts[i])
}

proof fn lemma_pieces_push(d: Seq<char>, x: Seq<char>)
    requires
        !x.contains('/'),
    ensures
        pieces(d.push('/') + x, '/') == pieces(d, '/').push(x),
    decreases d.len(),
{
    crate::text::lemma_first_at(d, '/', 0);
    match first_at(d, '/', 0) {
        None => {
            law_pieces_between(d, '/', x);
            law_pieces_between(x, '/', x);
            assert(seq![d] + seq![x] =~= seq![d].push(x));
        },
        Some(k) => {
            let a = d.take(k);
            let b = d.skip(k + 1);
            assert(!a.contains('/')) by {
                if a.contains('/') {
                    let i = choose|i: int| 0 <= i < a.len() && a[i] == '/';
                    assert(d[i] == '/');
                }
            }
            lemma_pieces_push(b, x);
            assert(d.push('/') + x =~= a.push('/') + (b.push('/') + x));
            assert(d =~= a.push('/') + b);
            law_pieces_between(a, '/', b.push('/') + x);
            law_pieces_between(a, '/', b);
            assert(seq![a] + pieces(b, '/').push(x) =~= (seq![a] + pieces(b, '/')).push(x));
        },
    }
}

pub proof fn lemma_path_pieces(parts: Seq<Seq<char>>)
    requires
        forall|i: int| 0 <= i < parts.len() ==> !(#[trigger] parts[i]).contains('/'),
    ensures
        pieces(path_of(parts), '/') == seq![Seq::<char>::empty()] + parts,
    decreases parts.len(),
{
    if parts.len() == 0 {
        law_pieces_between(path_of(parts), '/', path_of(parts));
        assert(seq![Seq::<char>::empty()] + parts =~= seq![Seq::<char>::empty()]);
    } else {
        let front = parts.drop_last();
        assert forall|i: int| 0 <= i < front.len() implies !(#[trigger] front[i]).contains(
            '/',
        ) by {
            assert(front[i] == parts[i]);
        }
        lemma_path_pieces(front);
        assert(parts.last() == parts[parts.len() - 1]);
        lemma_pieces_push(path_of(front), parts.last());
        assert(path_of(front) + seq!['/'] + parts.last() =~= path_of(front).push('/')
            + parts.last());
        assert((seq![Seq::<char>::empty()] + front).push(parts.last()) =~= seq![
            Seq::<char>::empty(),
        ] + parts);
    }
}

proof fn lemma_path_holds_no(parts: Seq<Seq<char>>, c: char)
    requires
        c != '/',
        forall|i: int| 0 <= i < parts.len() ==> !(#[trigger] parts[i]).contains(c),
    ensures
        !path_of(parts).contains(c),
    decreases parts.len(),
{
    if parts.len() > 0 {
        let front = parts.drop_last();
        assert forall|i: int| 0 <= i < front.len() implies !(#[trigger] front[i]).contains(c) by {
            assert(front[i] == parts[i]);
        }
        lemma_path_holds_no(front, c);
        let p = path_of(parts);
        assert(!parts[parts.len() - 1].contains(c));
        if p.contains(c) {
            let i = choose|i: int| 0 <= i < p.len() && p[i] == c;
            if i < path_of(front).len() {
                assert(path_of(front)[i] == c);
            } else if i > path_of(front).len() {
                assert(parts.last()[i - path_of(front).len() - 1] == c);
            }
        }
    }
}

proof fn lemma_normal(parts: Seq<Seq<char>>)
    requires
        are_parts(parts),
    ensures
        normal_parts(seq![Seq::<char>::empty()] + parts) == parts,
    decreases parts.len(),
{
    let all = seq![Seq::<char>::empty()] + parts;
    if parts.len() == 0 {
        assert(all.drop_last() =~= Seq::<Seq<char>>::empty());
        assert(normal_parts(all.drop_last()) =~= Seq::<Seq<char>>::empty());
        assert(all.last().len() == 0);
        assert(normal_parts(all) =~= parts);
    } else {
        let front = parts.drop_last();
        assert forall|i: int| 0 <= i < front.len() implies is_part(#[trigger] front[i]) by {
            assert(front[i] == parts[i]);
        }
        lemma_normal(front);
        assert(all.drop_last() =~= seq![Seq::<char>::empty()] + front);
        assert(is_part(parts[parts.len() - 1]));
        assert(front.push(parts.last()) =~= parts);
    }
}

proof fn lemma_joined(parts: Seq<Seq<char>>)
    requires
        parts.len() > 0,
    ensures
        "/"@ + slash_joined(parts) == path_of(parts),
    decreases parts.len(),
{
    reveal_strlit("/");
    assert("/"@ =~= seq!['/']);
    if parts.len() == 1 {
        assert(path_of(parts.drop_last()) =~= Seq::<char>::empty());
        assert("/"@ + parts[0] =~= path_of(parts));
    } else {
        lemma_joined(parts.drop_last());
        assert("/"@ + slash_joined(parts) =~= ("/"@ + slash_joined(parts.drop_last())) + "/"@
            + parts.last());
    }
}

proof fn lemma_push_path(parts: Seq<Seq<char>>, name: Seq<char>)
    ensures
        path_of(parts.push(name)) == path_of(parts) + "/"@ + name,
        path_of(parts.push(name)) == path_of(parts).push('/') + name,
{
    reveal_strlit("/");
    assert("/"@ =~= seq!['/']);
    assert(parts.push(name).drop_last() =~= parts);
    assert(path_of(parts) + "/"@ + name =~= path_of(parts).push('/') + name);
}

proof fn lemma_no_scheme(s: Seq<char>)
    requires
        s.len() > 0,
        !s.contains('/') || s[0] == '/' || s[0] == '.',
    ensures
        !begins_with(s, "http://"@),
        !begins_with(s, "https://"@),
{
    reveal_strlit("http://");
    reveal_strlit("https://");
    if begins_with(s, "http://"@) {
        assert(s.take("http://"@.len() as int)[0] == 'h');
        assert(s.take("http://"@.len() as int)[5] == '/');
        assert(s[5] == '/');
    }
    if begins_with(s, "https://"@) {
        assert(s.take("https://"@.len() as int)[0] == 'h');
        assert(s.take("https://"@.len() as int)[6] == '/');
        assert(s[6] == '/');
    }
}

proof fn lemma_directory(base: Seq<char>, parts: Seq<Seq<char>>, file: Seq<char>, query: Seq<char>)
    requires
        are_parts(parts),
        is_part(file),
        base == path_of(parts.push(file)) || base == path_of(parts.push(file)).push('?') + query,
    ensures
        cut_at_last(pieces(base, '?')[0], '/') == Some((path_of(parts), file)),
{
    let all = parts.push(file);
    assert forall|i: int| 0 <= i < all.len() implies !(#[trigger] all[i]).contains('?') by {
        if i < parts.len() {
            assert(is_part(parts[i]));
        }
    }
    lemma_path_holds_no(all, '?');
    law_pieces_between(path_of(all), '?', query);
    lemma_push_path(parts, file);
    law_cut_at_last(path_of(parts), '/', file);
}

/// A name is sought beside the file that refers to it, whatever the query of
/// that file is; its own query is kept, and what follows `#` does not count.
pub proof fn law_name_is_sought_beside(
    base: UrlModel,
    parts: Seq<Seq<char>>,
    file: Seq<char>,
    query: Seq<char>,
    name: Seq<char>,
    own: Seq<char>,
)
    requires
        are_parts(parts),
        is_part(file),
        is_part(name),
        !own.contains('#'),
        !own.contains('/'),
        base.path == path_of(parts.push(file)) || base.path == path_of(parts.push(file)).push('?')
            + query,
    ensures
        resolved(base, name) == scheme_prefix(base.scheme) + base.authority + path_of(
            parts.push(name),
        ),
        resolved(base, name.push('?') + own) == scheme_prefix(base.scheme) + base.authority
            + path_of(parts.push(name)) + (seq!['?'] + own),
{
    reveal_strlit("");
    reveal_strlit("?");
    reveal_strlit("/");
    lemma_directory(base.path, parts, file, query);
    let all = parts.push(name);
    lemma_all(parts, name);
    let asked = name.push('?') + own;
    lemma_no_scheme(name);
    assert(!asked.contains('/')) by {
        if asked.contains('/') {
            let i = choose|i: int| 0 <= i < asked.len() && asked[i] == '/';
            if i < name.len() {
                assert(name[i] == '/');
            } else {
                assert(own[i - name.len() - 1] == '/');
            }
        }
    }
    assert(!asked.contains('#')) by {
        if asked.contains('#') {
            let i = choose|i: int| 0 <= i < asked.len() && asked[i] == '#';
            if i < name.len() {
                assert(name[i] == '#');
            } else {
                assert(own[i - name.len() - 1] == '#');
            }
        }
    }
    lemma_no_scheme(asked);
    law_pieces_between(name, '#', name);
    law_pieces_between(asked, '#', asked);
    assert(!begins_with(name, "/"@)) by {
        if begins_with(name, "/"@) {
            assert(name.take(1)[0] == '/');
            assert(name[0] == '/');
        }
    }
    assert(!begins_with(asked, "/"@)) by {
        if begins_with(asked, "/"@) {
            assert(asked.take(1)[0] == '/');
            assert(asked[0] == '/');
        }
    }
    lemma_push_path(parts, name);
    let raw = raw_path(base.path, name);
    assert(raw == path_of(all));
    lemma_shown(base, name, all);
    let raw_asked = raw_path(base.path, asked);
    assert(raw_asked =~= path_of(all).push('?') + own);
    lemma_shown_query(base, asked, all, own);
}

proof fn lemma_all(parts: Seq<Seq<char>>, name: Seq<char>)
    requires
        are_parts(parts),
        is_part(name),
    ensures
        are_parts(parts.push(name)),
{
    let all = parts.push(name);
    assert forall|i: int| 0 <= i < all.len() implies is_part(#[trigger] all[i]) by {
        if i < parts.len() {
            assert(all[i] == parts[i]);
        }
    }
}

proof fn lemma_clean_path(all: Seq<Seq<char>>)
    requires
        are_parts(all),
        all.len() > 0,
    ensures
        !path_of(all).contains('?'),
        !path_of(all).contains('#'),
        "/"@ + slash_joined(normal_parts(pieces(path_of(all), '/'))) == path_of(all),
{
    assert forall|i: int| 0 <= i < all.len() implies !(#[trigger] all[i]).contains('?')
        && !all[i].contains('#') && !all[i].contains('/') by {
        assert(is_part(all[i]));
    }
    lemma_path_holds_no(all, '?');
    lemma_path_holds_no(all, '#');
    lemma_path_pieces(all);
    lemma_normal(all);
    lemma_joined(all);
}

proof fn lemma_shown(base: UrlModel, reference: Seq<char>, all: Seq<Seq<char>>)
    requires
        are_parts(all),
        all.len() > 0,
        raw_path(base.path, reference) == path_of(all),
        !begins_with(reference, "http://"@),
        !begins_with(reference, "https://"@),
    ensures
        resolved(base, reference) == scheme_prefix(base.scheme) + base.authority + path_of(all),
{
    reveal_strlit("");
    lemma_clean_path(all);
    lemma_none_at(path_of(all), '?', 0);
    assert(cut_at(path_of(all), '?') is None);
    let origin = scheme_prefix(base.scheme) + base.authority;
    let joined = slash_joined(normal_parts(pieces(path_of(all), '/')));
    assert(origin + "/"@ + joined + ""@ =~= origin + ("/"@ + joined));
}

proof fn lemma_shown_query(
    base: UrlModel,
    reference: Seq<char>,
    all: Seq<Seq<char>>,
    own: Seq<char>,
)
    requires
        are_parts(all),
        all.len() > 0,
        raw_path(base.path, reference) == path_of(all).push('?') + own,
        !begins_with(reference, "http://"@),
        !begins_with(reference, "https://"@),
    ensures
        resolved(base, reference) == scheme_prefix(base.scheme) + base.authority + path_of(all) + (
        seq!['?'] + own),
{
    reveal_strlit("?");
    assert("?"@ =~= seq!['?']);
    lemma_clean_path(all);
    law_cut_at_first(path_of(all), '?', own);
    let origin = scheme_prefix(base.scheme) + base.authority;
    let joined = slash_joined(normal_parts(pieces(path_of(all), '/')));
    assert(origin + "/"@ + joined + ("?"@ + own) =~= origin + ("/"@ + joined) + (seq!['?'] + own));
}

/// A path from the top is taken as it is, and a whole address too.
pub proof fn law_path_from_the_top_is_taken(
    base: UrlModel,
    parts: Seq<Seq<char>>,
    other: Seq<char>,
)
    requires
        are_parts(parts),
        parts.len() > 0,
        begins_with(other, "http://"@) || begins_with(other, "https://"@),
    ensures
        resolved(base, path_of(parts)) == scheme_prefix(base.scheme) + base.authority + path_of(
            parts,
        ),
        resolved(base, other) == other,
{
    reveal_strlit("/");
    let path = path_of(parts);
    lemma_clean_path(parts);
    lemma_joined(parts);
    assert(path[0] == '/');
    lemma_no_scheme(path);
    law_pieces_between(path, '#', path);
    assert(path.take(1) =~= "/"@);
    lemma_shown(base, path, parts);
}

/// Two dots step up from the directory of the file that refers to a name.
pub proof fn law_dots_step_up(
    base: UrlModel,
    parts: Seq<Seq<char>>,
    file: Seq<char>,
    query: Seq<char>,
    name: Seq<char>,
)
    requires
        are_parts(parts),
        is_part(file),
        is_part(name),
        base.path == path_of(parts.push(file)) || base.path == path_of(parts.push(file)).push('?')
            + query,
    ensures
        resolved(base, "../"@ + name) == scheme_prefix(base.scheme) + base.authority + path_of(
            if parts.len() > 0 {
                parts.drop_last().push(name)
            } else {
                seq![name]
            },
        ),
{
    reveal_strlit("../");
    reveal_strlit("..");
    reveal_strlit(".");
    reveal_strlit("/");
    reveal_strlit("");
    let up = ".."@;
    let reference = "../"@ + name;
    assert("/"@ =~= seq!['/']);
    assert(reference =~= up + "/"@ + name);
    lemma_directory(base.path, parts, file, query);
    assert(reference[0] == '.');
    lemma_no_scheme(reference);
    assert(!begins_with(reference, "/"@)) by {
        if begins_with(reference, "/"@) {
            assert(reference.take(1)[0] == '/');
        }
    }
    assert(!reference.contains('#')) by {
        if reference.contains('#') {
            let i = choose|i: int| 0 <= i < reference.len() && reference[i] == '#';
            assert(name[i - 3] == '#');
        }
    }
    law_pieces_between(reference, '#', reference);
    let stepped = parts.push(up);
    let all = stepped.push(name);
    lemma_push_path(parts, up);
    lemma_push_path(stepped, name);
    let raw = raw_path(base.path, reference);
    assert(raw =~= path_of(all));
    assert(up[0] == '.' && up[1] == '.' && up.len() == 2);
    assert forall|i: int| 0 <= i < all.len() implies !(#[trigger] all[i]).contains('?')
        && !all[i].contains('/') by {
        if i < parts.len() {
            assert(all[i] == parts[i]);
            assert(is_part(parts[i]));
        } else if i == parts.len() {
            assert(all[i] == up);
        } else {
            assert(all[i] == name);
        }
    }
    lemma_path_holds_no(all, '?');
    lemma_none_at(path_of(all), '?', 0);
    lemma_path_pieces(all);
    let first = seq![Seq::<char>::empty()];
    lemma_normal(parts);
    assert((first + stepped).drop_last() =~= first + parts);
    assert((first + stepped).last() == up);
    assert((first + all).drop_last() =~= first + stepped);
    assert((first + all).last() == name);
    let kept = if parts.len() > 0 {
        parts.drop_last()
    } else {
        parts
    };
    assert(normal_parts(first + stepped) == kept);
    assert(normal_parts(first + all) == kept.push(name));
    assert(kept.push(name) =~= if parts.len() > 0 {
        parts.drop_last().push(name)
    } else {
        seq![name]
    });
    lemma_joined(kept.push(name));
    let origin = scheme_prefix(base.scheme) + base.authority;
    let joined = slash_joined(kept.push(name));
    assert(origin + "/"@ + joined + ""@ =~= origin + ("/"@ + joined));
}

/// An address is written with the start that is read for its scheme.
pub proof fn law_scheme_is_written(secure: bool)
    ensures
        scheme_prefix(scheme_of(secure)) == written_scheme(secure),
{
}

/// What has another scheme, no host, an open bracket or a wrong port is no
/// address, and the error says which.
pub proof fn law_wrong_addresses_are_refused(secure: bool, url: Seq<char>, host: Seq<char>)
    requires
        !host.contains(']'),
        !host.contains('/'),
    ensures
        !begins_with(url, "http://"@) && !begins_with(url, "https://"@) ==> parsed_url(url) == Err::<
            UrlModel,
            UrlError,
        >(UrlError::Scheme),
        parsed_url(written_scheme(secure) + Seq::<char>::empty()) == Err::<UrlModel, UrlError>(
            UrlError::MissingHost,
        ),
        parsed_url(written_scheme(secure) + (seq!['/'] + url)) == Err::<UrlModel, UrlError>(
            UrlError::MissingHost,
        ),
        parsed_url(written_scheme(secure) + ((seq!['['] + host) + Seq::<char>::empty())) == Err::<
            UrlModel,
            UrlError,
        >(UrlError::Bracket),
{
    let none = Seq::<char>::empty();
    lemma_scheme(secure, none);
    lemma_scheme(secure, seq!['/'] + url);
    lemma_none_at(none, '/', 0);
    lemma_found_at(none, '/', url, 0);
    assert(none.push('/') + url =~= seq!['/'] + url);
    assert((seq!['/'] + url).take(0) =~= none);
    let open = seq!['['] + host;
    assert(!open.contains('/')) by {
        if open.contains('/') {
            let i = choose|i: int| 0 <= i < open.len() && open[i] == '/';
            assert(host[i - 1] == '/');
        }
    }
    lemma_parts(secure, open, none);
    reveal_strlit("[");
    assert("["@ =~= seq!['[']);
    law_parts_are_found("["@, host);
    lemma_none_at(host, ']', 0);
    assert(open + none =~= open);
}

proof fn lemma_scheme(secure: bool, rest: Seq<char>)
    ensures
        parsed_url(written_scheme(secure) + rest) == crate::http::url::url_after(
            scheme_of(secure),
            rest,
        ),
{
    reveal_strlit("http://");
    reveal_strlit("https://");
    law_parts_are_found("http://"@, rest);
    law_parts_are_found("https://"@, rest);
    let url = written_scheme(secure) + rest;
    if secure {
        assert(!begins_with(url, "http://"@)) by {
            if begins_with(url, "http://"@) {
                assert(url.take("http://"@.len() as int)[4] == ':');
            }
        }
    }
}

} // verus!
