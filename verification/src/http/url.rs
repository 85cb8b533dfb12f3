//! Addresses of upstream media.
use vstd::prelude::*;
use vstd::string::*;
use crate::bytes::views;
use crate::text::{
    begins_with, char_slice, chars_of, contains_char, copy_text, cut_at, cut_at_last, find_char,
    first_at, is_text, lemma_first_at, lemma_first_is, parse_number, parsed_number, pieces,
    push_chars, split, split_once, split_once_last, starts_with, strip_prefix, text_of,
    without_prefix,
};

verus! {

/// How an upstream is reached.
#[derive(Debug, Clone, Copy, PartialEq, Eq, Structural)]
pub enum Scheme {
    Http,
    Https,
}

/// Why a text is no address.
#[derive(Debug, Clone, Copy, PartialEq, Eq, Structural)]
pub enum UrlError {
    /// It begins with neither `http://` nor `https://`.
    Scheme,
    MissingHost,
    /// A bracket before the host is not closed.
    Bracket,
    Port,
}

/// The message for an error.
pub fn url_error_text(e: UrlError) -> (r: &'static str)
    ensures
        r@ == match e {
            UrlError::Scheme => "native HTTP pull requires an http:// or https:// URL"@,
            UrlError::MissingHost => "HTTP URL is missing a host"@,
            UrlError::Bracket => "invalid bracketed IPv6 HTTP host"@,
            UrlError::Port => "invalid HTTP URL port"@,
        },
{
    match e {
        UrlError::Scheme => "native HTTP pull requires an http:// or https:// URL",
        UrlError::MissingHost => "HTTP URL is missing a host",
        UrlError::Bracket => "invalid bracketed IPv6 HTTP host",
        UrlError::Port => "invalid HTTP URL port",
    }
}

/// An address.
#[derive(Debug)]
pub struct HttpUrl {
    pub scheme: Scheme,
    pub host: String,
    /// Host and port as they were written.
    pub authority: String,
    pub port: u16,
    /// Path and query.
    pub path: String,
}

/// The model of an address.
#[verifier::ext_equal]
pub struct UrlModel {
    pub scheme: Scheme,
    pub host: Seq<char>,
    pub authority: Seq<char>,
    pub port: int,
    pub path: Seq<char>,
}

impl View for HttpUrl {
    type V = UrlModel;

    open spec fn view(&self) -> UrlModel {
        UrlModel {
            scheme: self.scheme,
            host: self.host@,
            authority: self.authority@,
            port: self.port as int,
            path: self.path@,
        }
    }
}

/// The port that a scheme has by itself.
pub open spec fn default_port(scheme: Scheme) -> int {
    match scheme {
        Scheme::Http => 80,
        Scheme::Https => 443,
    }
}

/// What a scheme is written as.
pub open spec fn scheme_prefix(scheme: Scheme) -> Seq<char> {
    match scheme {
        Scheme::Http => "http://"@,
        Scheme::Https => "https://"@,
    }
}

/// A port as it is written.
pub open spec fn written_port(text: Seq<char>) -> Result<int, UrlError> {
    match parsed_number(text, 65535) {
        Some(p) => Ok(p),
        None => Err(UrlError::Port),
    }
}

/// Host and port of an authority. A host in brackets may hold colons; else one
/// colon separates the port, and with more the whole is a host.
pub open spec fn host_and_port(authority: Seq<char>, default: int) -> Result<
    (Seq<char>, int),
    UrlError,
> {
    match without_prefix(authority, "["@) {
        Some(inner) => match cut_at(inner, ']') {
            Some((host, suffix)) => match without_prefix(suffix, ":"@) {
                Some(port) => match written_port(port) {
                    Ok(p) => Ok((host, p)),
                    Err(e) => Err(e),
                },
                None => Ok((host, default)),
            },
            None => Err(UrlError::Bracket),
        },
        None => match cut_at(authority, ':') {
            Some((host, port)) => if port.contains(':') {
                Ok((authority, default))
            } else {
                match written_port(port) {
                    Ok(p) => Ok((host, p)),
                    Err(e) => Err(e),
                }
            },
            None => Ok((authority, default)),
        },
    }
}

/// Authority and path of what follows the scheme.
pub open spec fn authority_and_path(rest: Seq<char>) -> (Seq<char>, Seq<char>) {
    match first_at(rest, '/', 0) {
        Some(k) => (rest.take(k), rest.skip(k)),
        None => (rest, "/"@),
    }
}

/// The address that follows a scheme.
pub open spec fn url_after(scheme: Scheme, rest: Seq<char>) -> Result<UrlModel, UrlError> {
    let (authority, path) = authority_and_path(rest);
    if authority.len() == 0 {
        Err(UrlError::MissingHost)
    } else {
        match host_and_port(authority, default_port(scheme)) {
            Ok((host, port)) => Ok(UrlModel { scheme, host, authority, port, path }),
            Err(e) => Err(e),
        }
    }
}

/// The address that a text gives.
pub open spec fn parsed_url(url: Seq<char>) -> Result<UrlModel, UrlError> {
    match without_prefix(url, "http://"@) {
        Some(rest) => url_after(Scheme::Http, rest),
        None => match without_prefix(url, "https://"@) {
            Some(rest) => url_after(Scheme::Https, rest),
            None => Err(UrlError::Scheme),
        },
    }
}

/// An address as text.
pub open spec fn url_text(u: UrlModel) -> Seq<char> {
    scheme_prefix(u.scheme) + u.authority + u.path
}

fn parse_port(text: &[char]) -> (r: Result<u16, UrlError>)
    ensures
        match (r, written_port(text@)) {
            (Ok(a), Ok(b)) => a == b,
            (Err(a), Err(b)) => a == b,
            _ => false,
        },
{
    match parse_number(text, 65535) {
        Some(p) => Ok(p as u16),
        None => Err(UrlError::Port),
    }
}

fn split_authority(authority: &[char], default: u16) -> (r: Result<(String, u16), UrlError>)
    ensures
        match (r, host_and_port(authority@, default as int)) {
            (Ok(a), Ok(b)) => a.0@ == b.0 && a.1 == b.1,
            (Err(a), Err(b)) => a == b,
            _ => false,
        },
{
    match strip_prefix(authority, "[") {
        Some(inner) => match split_once(inner, ']') {
            Some((host, suffix)) => match strip_prefix(suffix, ":") {
                Some(port) => match parse_port(port) {
                    Ok(p) => Ok((text_of(host), p)),
                    Err(e) => Err(e),
                },
                None => Ok((text_of(host), default)),
            },
            None => Err(UrlError::Bracket),
        },
        None => match split_once(authority, ':') {
            Some((host, port)) => if contains_char(port, ':') {
                Ok((text_of(authority), default))
            } else {
                match parse_port(port) {
                    Ok(p) => Ok((text_of(host), p)),
                    Err(e) => Err(e),
                }
            },
            None => Ok((text_of(authority), default)),
        },
    }
}

// ── references ──────────────────────────────────────────────────────────

/// The parts of a path without empty ones and dots; two dots take back the
/// part before them.
pub open spec fn normal_parts(parts: Seq<Seq<char>>) -> Seq<Seq<char>>
    decreases parts.len(),
{
    if parts.len() == 0 {
        Seq::empty()
    } else {
        let before = normal_parts(parts.drop_last());
        let part = parts.last();
        if part.len() == 0 || part == "."@ {
            before
        } else if part == ".."@ {
            if before.len() > 0 {
                before.drop_last()
            } else {
                before
            }
        } else {
            before.push(part)
        }
    }
}

/// Parts with slashes between them.
pub open spec fn slash_joined(parts: Seq<Seq<char>>) -> Seq<char>
    decreases parts.len(),
{
    if parts.len() == 0 {
        Seq::empty()
    } else if parts.len() == 1 {
        parts[0]
    } else {
        slash_joined(parts.drop_last()) + "/"@ + parts.last()
    }
}

/// The path that a reference names, before dots are taken out: it starts at
/// the top, or in the directory of the base. What follows `#` does not count.
pub open spec fn raw_path(base: Seq<char>, reference: Seq<char>) -> Seq<char> {
    let r = pieces(reference, '#')[0];
    if begins_with(r, "/"@) {
        r
    } else {
        let plain = pieces(base, '?')[0];
        let directory = match cut_at_last(plain, '/') {
            Some((d, _)) => d,
            None => ""@,
        };
        directory + "/"@ + r
    }
}

/// The path that a reference names without its query, before dots are taken
/// out.
pub open spec fn reference_path(base: Seq<char>, reference: Seq<char>) -> Seq<char> {
    match cut_at(raw_path(base, reference), '?') {
        Some((p, _)) => p,
        None => raw_path(base, reference),
    }
}

/// The text of the address that a reference names, seen from another address.
pub open spec fn resolved(base: UrlModel, reference: Seq<char>) -> Seq<char> {
    if begins_with(reference, "http://"@) || begins_with(reference, "https://"@) {
        reference
    } else {
        let query = match cut_at(raw_path(base.path, reference), '?') {
            Some((_, q)) => "?"@ + q,
            None => ""@,
        };
        scheme_prefix(base.scheme) + base.authority + "/"@ + slash_joined(
            normal_parts(pieces(reference_path(base.path, reference), '/')),
        ) + query
    }
}

fn normalize<'a>(path: &'a [char]) -> (r: Vec<&'a [char]>)
    ensures
        views(r@) == normal_parts(pieces(path@, '/')),
{
    let parts = split(path, '/');
    let ghost models = views(parts@);
    let mut out: Vec<&'a [char]> = Vec::new();
    let mut i: usize = 0;
    assert(views(out@) =~= Seq::empty());
    assert(models.take(0) =~= Seq::empty());
    while i < parts.len()
        invariant
            i <= parts@.len(),
            models == views(parts@),
            views(out@) == normal_parts(models.take(i as int)),
        decreases parts@.len() - i,
    {
        let ghost before = views(out@);
        let part = parts[i];
        proof {
            assert(models.take(i + 1).last() == part@);
            assert(models.take(i + 1).drop_last() =~= models.take(i as int));
        }
        if part.len() == 0 || is_text(part, ".") {
        } else if is_text(part, "..") {
            let ghost kept = out@;
            if out.len() > 0 {
                out.pop();
                assert(out@ =~= kept.drop_last());
                assert(views(out@) =~= before.drop_last());
            }
        } else {
            out.push(part);
            assert(views(out@) =~= before.push(part@));
        }
        i = i + 1;
    }
    assert(models.take(i as int) =~= models);
    out
}

fn put_joined(out: &mut String, parts: &Vec<&[char]>)
    ensures
        final(out)@ == old(out)@ + slash_joined(views(parts@)),
{
    let ghost start = out@;
    let ghost models = views(parts@);
    let mut i: usize = 0;
    assert(out@ =~= start + slash_joined(models.take(0)));
    while i < parts.len()
        invariant
            i <= parts@.len(),
            models == views(parts@),
            out@ == start + slash_joined(models.take(i as int)),
        decreases parts@.len() - i,
    {
        let ghost sofar = slash_joined(models.take(i as int));
        proof {
            assert(models.take(i + 1).last() == parts@[i as int]@);
            assert(models.take(i + 1).drop_last() =~= models.take(i as int));
        }
        if i > 0 {
            out.append("/");
            push_chars(out, parts[i]);
            assert(out@ =~= start + (sofar + "/"@ + parts@[i as int]@));
        } else {
            push_chars(out, parts[i]);
            assert(models.take(1)[0] == parts@[0]@);
            assert(out@ =~= start + parts@[0]@);
        }
        i = i + 1;
    }
    assert(models.take(i as int) =~= models);
}

fn put_scheme(out: &mut String, scheme: Scheme)
    ensures
        final(out)@ == old(out)@ + scheme_prefix(scheme),
{
    match scheme {
        Scheme::Http => {
            out.append("http://");
        },
        Scheme::Https => {
            out.append("https://");
        },
    }
}

fn build_raw_path(base: &str, reference: &str) -> (r: Vec<char>)
    ensures
        r@ == raw_path(base@, reference@),
{
    let rc = chars_of(reference);
    let parts = split(rc.as_slice(), '#');
    assert(views(parts@)[0] == parts@[0]@);
    let r = parts[0];
    if starts_with(r, "/") {
        return crate::text::char_vec(r);
    }
    let bc = chars_of(base);
    let base_parts = split(bc.as_slice(), '?');
    assert(views(base_parts@)[0] == base_parts@[0]@);
    let mut out = match split_once_last(base_parts[0], '/') {
        Some((d, _)) => text_of(d),
        None => copy_text(""),
    };
    out.append("/");
    push_chars(&mut out, r);
    chars_of(out.as_str())
}

impl HttpUrl {
    /// The address that a text gives.
    pub fn parse(url: &str) -> (r: Result<Self, UrlError>)
        ensures
            match (r, parsed_url(url@)) {
                (Ok(a), Ok(b)) => a@ == b,
                (Err(a), Err(b)) => a == b,
                _ => false,
            },
    {
        let chars = chars_of(url);
        let (scheme, rest, default): (Scheme, &[char], u16) = match strip_prefix(
            chars.as_slice(),
            "http://",
        ) {
            Some(rest) => (Scheme::Http, rest, 80),
            None => match strip_prefix(chars.as_slice(), "https://") {
                Some(rest) => (Scheme::Https, rest, 443),
                None => {
                    return Err(UrlError::Scheme);
                },
            },
        };
        let len: usize = rest.len();
        let (authority, path): (&[char], String) = match find_char(rest, '/', 0) {
            Some(k) => {
                let a = char_slice(rest, 0, k);
                let p = char_slice(rest, k, len);
                assert(a@ =~= rest@.take(k as int));
                assert(p@ =~= rest@.skip(k as int));
                (a, text_of(p))
            },
            None => (rest, copy_text("/")),
        };
        if authority.len() == 0 {
            return Err(UrlError::MissingHost);
        }
        match split_authority(authority, default) {
            Ok((host, port)) => {
                let u = HttpUrl { scheme, host, authority: text_of(authority), port, path };
                assert(u@ == parsed_url(url@)->Ok_0);
                Ok(u)
            },
            Err(e) => Err(e),
        }
    }

    /// The text of the address that a reference names, seen from this one.
    pub fn resolve(&self, reference: &str) -> (r: String)
        ensures
            r@ == resolved(self@, reference@),
    {
        let rc = chars_of(reference);
        if starts_with(rc.as_slice(), "http://") || starts_with(rc.as_slice(), "https://") {
            return copy_text(reference);
        }
        let raw = build_raw_path(self.path.as_str(), reference);
        let (path, query): (&[char], Option<&[char]>) = match split_once(raw.as_slice(), '?') {
            Some((p, q)) => (p, Some(q)),
            None => (raw.as_slice(), None),
        };
        let parts = normalize(path);
        let mut out = String::new();
        put_scheme(&mut out, self.scheme);
        assert(out@ =~= scheme_prefix(self.scheme));
        out.append(self.authority.as_str());
        out.append("/");
        put_joined(&mut out, &parts);
        match query {
            Some(q) => {
                let ghost before = out@;
                out.append("?");
                push_chars(&mut out, q);
                assert(out@ =~= before + ("?"@ + q@));
            },
            None => {
                out.append("");
            },
        }
        out
    }

    /// The address as text.
    pub fn as_url(&self) -> (r: String)
        ensures
            r@ == url_text(self@),
    {
        let mut out = String::new();
        put_scheme(&mut out, self.scheme);
        assert(out@ =~= scheme_prefix(self.scheme));
        out.append(self.authority.as_str());
        out.append(self.path.as_str());
        out
    }
}

// ── laws ────────────────────────────────────────────────────────────────

proof fn lemma_prefixes_differ(rest: Seq<char>)
    ensures
        !begins_with("https://"@ + rest, "http://"@),
{
    reveal_strlit("http://");
    reveal_strlit("https://");
    let s = "https://"@ + rest;
    assert(s[4] == 's');
    if begins_with(s, "http://"@) {
        assert(s.take(7)[4] == s[4]);
        assert("http://"@[4] == ':');
    }
}

/// What an address is written as reads back as the same address.
pub proof fn law_url_reads_back(url: Seq<char>, u: UrlModel)
    requires
        parsed_url(url) == Ok::<UrlModel, UrlError>(u),
    ensures
        parsed_url(url_text(u)) == Ok::<UrlModel, UrlError>(u),
{
    let rest = match without_prefix(url, "http://"@) {
        Some(rest) => rest,
        None => without_prefix(url, "https://"@)->0,
    };
    assert(url_after(u.scheme, rest) == Ok::<UrlModel, UrlError>(u));
    let again = u.authority + u.path;
    lemma_first_at(rest, '/', 0);
    reveal_strlit("/");
    match first_at(rest, '/', 0) {
        Some(k) => {
            assert(again =~= rest);
        },
        None => {
            assert(again =~= rest + "/"@);
            lemma_first_is(again, '/', 0, rest.len() as int);
            assert(again.take(rest.len() as int) =~= rest);
            assert(again.skip(rest.len() as int) =~= "/"@);
        },
    }
    assert(authority_and_path(again) == (u.authority, u.path));
    let text = url_text(u);
    let prefix = scheme_prefix(u.scheme);
    assert(text =~= prefix + again);
    assert(text.take(prefix.len() as int) =~= prefix);
    assert(text.skip(prefix.len() as int) =~= again);
    if u.scheme == Scheme::Https {
        lemma_prefixes_differ(again);
    }
}

proof fn lemma_normal_parts(parts: Seq<Seq<char>>, i: int)
    requires
        0 <= i < normal_parts(parts).len(),
    ensures
        ({
            let part = normal_parts(parts)[i];
            part.len() > 0 && part != "."@ && part != ".."@
        }),
    decreases parts.len(),
{
    let before = normal_parts(parts.drop_last());
    if i < before.len() {
        lemma_normal_parts(parts.drop_last(), i);
    }
}

/// A reference without a scheme stays at the server of the base, and no part
/// of its path steps upwards.
pub proof fn law_reference_stays_at_server(base: UrlModel, reference: Seq<char>)
    requires
        !begins_with(reference, "http://"@),
        !begins_with(reference, "https://"@),
    ensures
        begins_with(resolved(base, reference), scheme_prefix(base.scheme) + base.authority + "/"@),
        forall|i: int|
            0 <= i < normal_parts(pieces(reference_path(base.path, reference), '/')).len() ==> {
                let part = #[trigger] normal_parts(
                    pieces(reference_path(base.path, reference), '/'),
                )[i];
                part.len() > 0 && part != "."@ && part != ".."@
            },
{
    let head = scheme_prefix(base.scheme) + base.authority + "/"@;
    assert(resolved(base, reference).take(head.len() as int) =~= head);
    let all = pieces(reference_path(base.path, reference), '/');
    assert forall|i: int| 0 <= i < normal_parts(all).len() implies {
        let part = #[trigger] normal_parts(all)[i];
        part.len() > 0 && part != "."@ && part != ".."@
    } by {
        lemma_normal_parts(all, i);
    }
}

} // verus!
