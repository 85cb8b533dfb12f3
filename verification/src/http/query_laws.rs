//! What the parameters of a request are, and which requests may manage the
//! server.
use vstd::prelude::*;
use crate::http::query::{
    authorized, parameters, query_map, record_types, secret_among, secret_in_line, secret_key,
    value_in, value_or,
};
use crate::text::{cut_at, lines_of, lowered, pieces, trimmed};
use crate::text_laws::{law_cut_at_first, law_parts_are_found, law_pieces_between};

verus! {

/// A parameter has the value that the last pair of its name gives, as it is
/// written: what follows the first `=`.
pub proof fn law_last_value_counts(
    pairs: Seq<Seq<char>>,
    i: int,
    name: Seq<char>,
    value: Seq<char>,
    other: Seq<char>,
)
    requires
        0 <= i < pairs.len(),
        !name.contains('='),
        pairs[i] == name.push('=') + value,
        forall|j: int|
            i < j < pairs.len() ==> {
                let cut = cut_at(#[trigger] pairs[j], '=');
                cut is None || (cut->0).0 != name
            },
    ensures
        value_in(parameters(pairs), name) == Some(value),
        value_or(parameters(pairs), name, other) == value,
    decreases pairs.len(),
{
    law_cut_at_first(name, '=', value);
    if i < pairs.len() - 1 {
        let front = pairs.drop_last();
        assert(front[i] == pairs[i]);
        assert forall|j: int| i < j < front.len() implies {
            let cut = cut_at(#[trigger] front[j], '=');
            cut is None || (cut->0).0 != name
        } by {
            assert(front[j] == pairs[j]);
        }
        law_last_value_counts(front, i, name, value, other);
        let last = pairs[pairs.len() - 1];
        assert(cut_at(last, '=') is None || (cut_at(last, '=')->0).0 != name);
    }
}

/// A parameter that no pair names has no value.
pub proof fn law_unnamed_has_no_value(
    pairs: Seq<Seq<char>>,
    name: Seq<char>,
    other: Seq<char>,
)
    requires
        forall|j: int|
            0 <= j < pairs.len() ==> {
                let cut = cut_at(#[trigger] pairs[j], '=');
                cut is None || (cut->0).0 != name
            },
    ensures
        value_in(parameters(pairs), name) is None,
        value_or(parameters(pairs), name, other) == other,
    decreases pairs.len(),
{
    if pairs.len() > 0 {
        let front = pairs.drop_last();
        assert forall|j: int| 0 <= j < front.len() implies {
            let cut = cut_at(#[trigger] front[j], '=');
            cut is None || (cut->0).0 != name
        } by {
            assert(front[j] == pairs[j]);
        }
        law_unnamed_has_no_value(front, name, other);
        let last = pairs[pairs.len() - 1];
        assert(cut_at(last, '=') is None || (cut_at(last, '=')->0).0 != name);
    }
}

/// The parameters of a path stand behind its first `?`, with `&` between them.
pub proof fn law_query_follows_path(
    path: Seq<char>,
    first: Seq<char>,
    rest: Seq<char>,
)
    requires
        !path.contains('?'),
        !first.contains('&'),
    ensures
        query_map(path) == Map::<Seq<char>, Seq<char>>::empty(),
        query_map(path.push('?') + first) == parameters(seq![first]),
        query_map(path.push('?') + (first.push('&') + rest)) == parameters(
            seq![first] + pieces(rest, '&'),
        ),
{
    crate::text_laws::lemma_none_at(path, '?', 0);
    law_cut_at_first(path, '?', first);
    law_cut_at_first(path, '?', first.push('&') + rest);
    law_pieces_between(first, '&', rest);
}

/// What a parameter holds is what the path says of it, where it is named once.
pub proof fn law_parameter_is_read(
    path: Seq<char>,
    name: Seq<char>,
    value: Seq<char>,
)
    requires
        !path.contains('?'),
        !name.contains('='),
        !name.contains('&'),
        !value.contains('&'),
    ensures
        value_in(query_map(path.push('?') + (name.push('=') + value)), name) == Some(value),
{
    let first = name.push('=') + value;
    assert(!first.contains('&')) by {
        if first.contains('&') {
            let i = choose|i: int| 0 <= i < first.len() && first[i] == '&';
            if i < name.len() {
                assert(name[i] == '&');
            } else {
                assert(value[i - name.len() - 1] == '&');
            }
        }
    }
    law_query_follows_path(path, first, value);
    law_last_value_counts(seq![first], 0, name, value, value);
}

/// Each kind of recording is asked for by its name, by `all` or by a flag of
/// its own, and none by anything else.
pub proof fn law_recordings_are_asked_for(q: Map<Seq<char>, Seq<char>>)
    ensures
        ({
            let named = q.dom().contains("type"@);
            let hls = named && lowered(q["type"@]) == "hls"@;
            let flv = named && lowered(q["type"@]) == "flv"@;
            let mp4 = named && lowered(q["type"@]) == "mp4"@;
            let all = named && lowered(q["type"@]) == "all"@;
            let hls_flag = q.dom().contains("hls"@) && q["hls"@] == "1"@;
            let flv_flag = q.dom().contains("flv"@) && q["flv"@] == "1"@;
            let mp4_flag = q.dom().contains("mp4"@) && q["mp4"@] == "1"@;
            let any = hls || flv || mp4 || all || hls_flag || flv_flag || mp4_flag;
            &&& record_types(q).0 <==> hls || all || hls_flag || !any
            &&& record_types(q).1 <==> flv || all || flv_flag
            &&& record_types(q).2 <==> mp4 || all || mp4_flag
        }),
{
    reveal_strlit("");
    reveal_strlit("hls");
    reveal_strlit("flv");
    reveal_strlit("mp4");
    reveal_strlit("all");
    assert(lowered(""@) =~= ""@);
}

/// A header gives a secret: `X-Api-Secret` as it stands, `Authorization`
/// behind the word `Bearer`, in any case of letters; no other header does.
pub proof fn law_header_gives_secret(line: Seq<char>, name: Seq<char>, value: Seq<char>)
    requires
        !name.contains(':'),
        line == name.push(':') + value,
    ensures
        lowered(trimmed(name)) == "x-api-secret"@ ==> secret_in_line(line) == Some(trimmed(value)),
        lowered(trimmed(name)) == "authorization"@ ==> forall|s: Seq<char>|
            trimmed(value) == #[trigger] ("Bearer "@ + s) ==> secret_in_line(line) == Some(s),
        lowered(trimmed(name)) != "x-api-secret"@ && lowered(trimmed(name)) != "authorization"@
            ==> secret_in_line(line) is None,
{
    reveal_strlit("x-api-secret");
    reveal_strlit("authorization");
    law_cut_at_first(name, ':', value);
    assert(lowered("x-api-secret"@) =~= "x-api-secret"@);
    assert(lowered("authorization"@) =~= "authorization"@);
    assert("x-api-secret"@ != "authorization"@) by {
        assert("x-api-secret"@.len() != "authorization"@.len());
    }
    assert forall|s: Seq<char>|
        lowered(trimmed(name)) == "authorization"@ && trimmed(value) == #[trigger] ("Bearer "@
            + s) implies secret_in_line(line) == Some(s) by {
        law_parts_are_found("Bearer "@, s);
    }
}

/// The first header that gives a secret decides whether a request may manage
/// the server; the query counts only where none gives any.
pub proof fn law_first_secret_decides(
    secret: Seq<char>,
    path: Seq<char>,
    request: Seq<char>,
    k: int,
)
    requires
        secret.len() > 0,
        0 <= k <= lines_of(request).len(),
        forall|j: int| 0 <= j < k ==> secret_in_line(#[trigger] lines_of(request)[j]) is None,
        k < lines_of(request).len() ==> secret_in_line(lines_of(request)[k]) is Some,
    ensures
        k < lines_of(request).len() ==> (authorized(secret, path, request) <==> secret_in_line(
            lines_of(request)[k],
        ) == Some(secret)),
        k == lines_of(request).len() ==> (authorized(secret, path, request) <==> value_in(
            query_map(path),
            "secret"@,
        ) == Some(secret)),
{
    lemma_secret_from(lines_of(request), 0, k);
}

proof fn lemma_secret_from(all: Seq<Seq<char>>, i: int, k: int)
    requires
        0 <= i <= k <= all.len(),
        forall|j: int| i <= j < k ==> secret_in_line(#[trigger] all[j]) is None,
        k < all.len() ==> secret_in_line(all[k]) is Some,
    ensures
        secret_among(all, i) == if k < all.len() {
            secret_in_line(all[k])
        } else {
            None
        },
    decreases k - i,
{
    if i < k {
        assert(secret_in_line(all[i]) is None);
        lemma_secret_from(all, i + 1, k);
    }
}

/// A configuration entry is a secret when its last name is `secret`, in any
/// case of letters.
pub proof fn law_secrets_are_known(section: Seq<char>, name: Seq<char>)
    requires
        lowered(name) == "secret"@,
    ensures
        secret_key(name),
        secret_key(section.push('.') + name),
{
    reveal_strlit("secret");
    reveal_strlit(".secret");
    assert(lowered("secret"@) =~= "secret"@);
    let key = section.push('.') + name;
    let low = lowered(key);
    assert(low =~= lowered(section).push('.') + lowered(name));
    assert(low.skip(low.len() - 7) =~= ".secret"@);
}

} // verus!
