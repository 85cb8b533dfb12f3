//! What requests of the management interface are about.
use vstd::prelude::*;
use vstd::utf8::encode_utf8;
use crate::http::api::{
    ApiName, Params, Services, StepModel, api_named, api_text, decided, number_in, number_or,
    snap_stream, source_number, ssrc_in, text_in,
};
use crate::http::api_answers::{ConfigAttempt, ReportModel, action_of, closed_among, reported};
use crate::http::api_params::{
    RtpSender, SessionFilter, StreamModel, address_parts, bytes_among, data_type_in, ffmpeg_stream,
    flag_in, is_listed, scale_of, senders_among, sends,
};
use crate::http::query::{query_map, secret_key, value_in};
use crate::http::responses::{CachePolicy, Failure, failure_body, failure_text, text_response};
use crate::http::server_config::{answer_about, setting};
use crate::text::{
    begins_with, decimal, finishes_with, first_place, hexadecimal, holds_text, lowered, pieces,
    stands_at, without_prefix,
};
use crate::text_laws::{
    law_cut_at_last, law_hexadecimal_reads_back, law_number_reads_back, law_parts_are_found,
    law_pieces_between,
};

verus! {

// ── which request ───────────────────────────────────────────────────────

/// The text by which a request is named.
pub open spec fn text_of(name: ApiName) -> Seq<char> {
    match name {
        ApiName::GetApiList => "getApiList"@,
        ApiName::UpdateConfig => "updateConfig"@,
        ApiName::RestartServer => "restartServer"@,
        ApiName::GetThreadsLoad => "getThreadsLoad"@,
        ApiName::GetWorkThreadsLoad => "getWorkThreadsLoad"@,
        ApiName::GetServerConfig => "getServerConfig"@,
        ApiName::SetServerConfig => "setServerConfig"@,
        ApiName::ReloadCertificate => "reloadCertificate"@,
        ApiName::GetAllSession => "getAllSession"@,
        ApiName::KickSessions => "kick_sessions"@,
        ApiName::GetMediaList => "getMediaList"@,
        ApiName::GetMediaInfo => "getMediaInfo"@,
        ApiName::GetMediaPlayerList => "getMediaPlayerList"@,
        ApiName::GetStatistic => "getStatistic"@,
        ApiName::IsMediaOnline => "isMediaOnline"@,
        ApiName::CloseStreams => "close_streams"@,
        ApiName::CloseStream => "closeStream"@,
        ApiName::KickSession => "kick_session"@,
        ApiName::GetSnap => "getSnap"@,
        ApiName::GetMp4RecordFile => "getMp4RecordFile"@,
        ApiName::GetRecordStatus => "getRecordStatus"@,
        ApiName::StartRecord => "startRecord"@,
        ApiName::StopRecord => "stopRecord"@,
        ApiName::IsRecording => "isRecording"@,
        ApiName::AddStreamPusher => "addStreamPusher"@,
        ApiName::DelStreamPusher => "delStreamPusher"@,
        ApiName::GetStreamPusherList => "getStreamPusherList"@,
        ApiName::AddStreamProxy => "addStreamProxy"@,
        ApiName::DelStreamProxy => "delStreamProxy"@,
        ApiName::GetStreamProxyList => "getStreamProxyList"@,
        ApiName::AddFFmpegSource => "addFFmpegSource"@,
        ApiName::DelFFmpegSource => "delFFmpegSource"@,
        ApiName::GetFFmpegSourceList => "getFFmpegSourceList"@,
        ApiName::OpenRtpServer => "openRtpServer"@,
        ApiName::ConnectRtpServer => "connectRtpServer"@,
        ApiName::CloseRtpServer => "closeRtpServer"@,
        ApiName::ListRtpServer => "listRtpServer"@,
        ApiName::GetRtpInfo => "getRtpInfo"@,
        ApiName::StartSendRtp => "startSendRtp"@,
        ApiName::StartSendRtpPassive => "startSendRtpPassive"@,
        ApiName::ListRtpSender => "listRtpSender"@,
        ApiName::StopSendRtp => "stopSendRtp"@,
        ApiName::StartRtp => "startRtp"@,
        ApiName::StopRtp => "stopRtp"@,
        ApiName::StartTalk => "startTalk"@,
        ApiName::StopTalk => "stopTalk"@,
        ApiName::GetTalkList => "getTalkList"@,
        ApiName::QueryCatalog => "queryCatalog"@,
        ApiName::QueryDeviceInfo => "queryDeviceInfo"@,
        ApiName::GetDeviceList => "getDeviceList"@,
        ApiName::GetDeviceInfo => "getDeviceInfo"@,
        ApiName::GetSipInfo => "getSipInfo"@,
        ApiName::StopSip => "stopSip"@,
        ApiName::AddTranscode => "addTranscode"@,
        ApiName::DelTranscode => "delTranscode"@,
        ApiName::GetTranscode => "getTranscode"@,
        ApiName::GetTranscodeList => "getTranscodeList"@,
        ApiName::Version => "version"@,
    }
}

/// A request is carried out for its own text and for no other.
pub proof fn law_request_has_its_text(text: Seq<char>, name: ApiName)
    requires
        api_named(text) == Some(name),
    ensures
        text == text_of(name),
{
}

/// Whether a parameter is given and not empty.
pub open spec fn given(q: Params, name: Seq<char>) -> bool {
    q.dom().contains(name) && q[name].len() > 0
}

/// The services without which a request is refused.
pub open spec fn served(name: ApiName, s: Services) -> bool {
    match name {
        ApiName::GetAllSession | ApiName::KickSessions | ApiName::KickSession => s.sessions,
        ApiName::AddTranscode
        | ApiName::DelTranscode
        | ApiName::GetTranscode
        | ApiName::GetTranscodeList => s.transcode,
        ApiName::OpenRtpServer
        | ApiName::ConnectRtpServer
        | ApiName::CloseRtpServer
        | ApiName::ListRtpServer
        | ApiName::GetRtpInfo
        | ApiName::StopRtp => s.rtp,
        ApiName::StartRtp
        | ApiName::StartTalk
        | ApiName::StopTalk
        | ApiName::GetTalkList
        | ApiName::QueryCatalog
        | ApiName::QueryDeviceInfo
        | ApiName::GetDeviceList
        | ApiName::GetDeviceInfo
        | ApiName::GetSipInfo
        | ApiName::StopSip => s.sip,
        _ => true,
    }
}

/// What a request must say.
pub open spec fn complete(name: ApiName, q: Params) -> bool {
    &&& crate::http::api::is_about_stream(name) ==> given(q, "stream"@)
    &&& name == ApiName::KickSession ==> given(q, "id"@) || given(q, "stream"@)
    &&& name == ApiName::AddStreamPusher || name == ApiName::AddFFmpegSource || name
        == ApiName::StartSendRtp || name == ApiName::ConnectRtpServer ==> given(q, "dst_url"@)
    &&& name == ApiName::AddFFmpegSource ==> given(q, "src_url"@)
    &&& name == ApiName::AddStreamProxy ==> given(q, "url"@)
    &&& name == ApiName::ConnectRtpServer ==> if q.dom().contains("stream_id"@) {
        given(q, "stream_id"@)
    } else {
        given(q, "stream"@)
    }
    &&& name == ApiName::ConnectRtpServer ==> number_or(q, "dst_port"@, 65535, 0) > 0
    &&& name == ApiName::StartSendRtp ==> number_in(q, "dst_port"@, 65535) is Some
    &&& name == ApiName::StartSendRtp || name == ApiName::StartSendRtpPassive ==> ssrc_in(
        q,
    ) is Some
    &&& name == ApiName::StartTalk ==> given(q, "device_id"@) && given(q, "channel_id"@)
    &&& name == ApiName::GetSnap ==> snap_stream(q).len() > 0
}

/// A request is carried out exactly when it says what it must and the part of
/// the server that it needs is running.
pub proof fn law_complete_requests_are_carried_out(path: Seq<char>, s: Services, name: ApiName)
    requires
        api_named(api_text(path)) == Some(name),
    ensures
        decided(path, s) == StepModel::Run(name) <==> served(name, s) && complete(
            name,
            query_map(path),
        ),
{
    reveal_strlit("");
    let q = query_map(path);
    lemma_number(q, "dst_port"@);
    assert(given(q, "stream"@) <==> text_in(q, "stream"@).len() > 0);
    assert(given(q, "id"@) <==> text_in(q, "id"@).len() > 0);
    assert(given(q, "dst_url"@) <==> text_in(q, "dst_url"@).len() > 0);
    assert(given(q, "src_url"@) <==> text_in(q, "src_url"@).len() > 0);
    assert(given(q, "url"@) <==> text_in(q, "url"@).len() > 0);
    assert(given(q, "device_id"@) <==> text_in(q, "device_id"@).len() > 0);
    assert(given(q, "channel_id"@) <==> text_in(q, "channel_id"@).len() > 0);
}

proof fn lemma_number(q: Params, name: Seq<char>)
    ensures
        number_or(q, name, 65535, 0) >= 0,
{
    if let Some(v) = value_in(q, name) {
        crate::text_laws::lemma_not_negative(v, 65535);
    }
}

// ── parameters ──────────────────────────────────────────────────────────

/// A synchronization source is written in decimal digits, or in hexadecimal
/// ones behind `0x` or `0X`.
pub proof fn law_source_is_read(n: int)
    requires
        0 <= n <= u32::MAX,
    ensures
        source_number(decimal(n)) == Some(n),
        source_number("0x"@ + hexadecimal(n)) == Some(n),
        source_number("0X"@ + hexadecimal(n)) == Some(n),
        source_number("0x"@ + lowered(hexadecimal(n))) == Some(n),
{
    reveal_strlit("0x");
    reveal_strlit("0X");
    law_number_reads_back(n, u32::MAX as int);
    law_hexadecimal_reads_back(n, u32::MAX as int);
    let d = decimal(n);
    assert(without_prefix(d, "0x"@) is None) by {
        if d.len() >= 2 && d.take(2) == "0x"@ {
            assert(d.take(2)[1] == 'x');
            assert(crate::text::is_digit(d[1]));
        }
    }
    assert(without_prefix(d, "0X"@) is None) by {
        if d.len() >= 2 && d.take(2) == "0X"@ {
            assert(d.take(2)[1] == 'X');
            assert(crate::text::is_digit(d[1]));
        }
    }
    law_parts_are_found("0x"@, hexadecimal(n));
    law_parts_are_found("0X"@, hexadecimal(n));
    law_parts_are_found("0x"@, lowered(hexadecimal(n)));
    let big = "0X"@ + hexadecimal(n);
    assert(without_prefix(big, "0x"@) is None) by {
        if big.take(2) == "0x"@ {
            assert(big.take(2)[1] == 'x');
            assert(big[1] == 'X');
        }
    }
}

/// The number behind the last colon of an address is its port, and what
/// precedes it the host; a host in brackets keeps them.
pub proof fn law_address_is_split(host: Seq<char>, port: int)
    requires
        0 <= port <= 65535,
    ensures
        host.len() > 0 && host[0] != '[' ==> address_parts(host.push(':') + decimal(port)) == (
            host,
            port,
        ),
        !host.contains(']') ==> address_parts("["@ + (host + "]:"@ + decimal(port))) == (
            "["@ + host + "]"@,
            port,
        ),
{
    reveal_strlit("[");
    reveal_strlit("]:");
    law_number_reads_back(port, 65535);
    let d = decimal(port);
    let a = host.push(':') + d;
    assert(!d.contains(':')) by {
        if d.contains(':') {
            let i = choose|i: int| 0 <= i < d.len() && d[i] == ':';
            assert(crate::text::is_digit(d[i]));
        }
    }
    law_cut_at_last(host, ':', d);
    if host.len() > 0 && host[0] != '[' {
        assert(a[0] == host[0]);
        assert(without_prefix(a, "["@) is None) by {
            if a.take(1) == "["@ {
                assert(a.take(1)[0] == '[');
            }
        }
    }
    if !host.contains(']') {
        let rest = host + "]:"@ + d;
        law_parts_are_found("["@, rest);
        lemma_bracket(host, d, 0);
        assert(rest.take(host.len() as int) =~= host);
        assert(rest.skip(host.len() as int + 2) =~= d);
    }
}

proof fn lemma_bracket(host: Seq<char>, d: Seq<char>, i: int)
    requires
        !host.contains(']'),
        0 <= i <= host.len(),
    ensures
        first_place(host + "]:"@ + d, "]:"@, i) == Some(host.len() as int),
    decreases host.len() - i,
{
    reveal_strlit("]:");
    let s = host + "]:"@ + d;
    if i < host.len() {
        if stands_at(s, "]:"@, i) {
            assert(s.subrange(i, i + 2)[0] == ']');
            assert(host[i] == ']');
        }
        lemma_bracket(host, d, i + 1);
    } else {
        assert(s.subrange(i, i + 2) =~= "]:"@);
    }
}

/// A session is listed by the address of its peer and by its own port.
pub proof fn law_sessions_are_selected(
    f: SessionFilter,
    ip: Seq<char>,
    peer_port: Seq<char>,
    local_ip: Seq<char>,
    port: int,
)
    requires
        !ip.contains(':'),
        !local_ip.contains(':'),
        0 <= port <= 65535,
    ensures
        is_listed(f, ip.push(':') + peer_port, local_ip.push(':') + decimal(port)) <==> (f.peer_ip
            is None || f.peer_ip->0@ == ip) && (f.local_port is None || f.local_port->0 == port),
{
    law_number_reads_back(port, 65535);
    let d = decimal(port);
    assert(!d.contains(':')) by {
        if d.contains(':') {
            let i = choose|i: int| 0 <= i < d.len() && d[i] == ':';
            assert(crate::text::is_digit(d[i]));
        }
    }
    law_pieces_between(ip, ':', peer_port);
    law_pieces_between(local_ip, ':', d);
    law_pieces_between(d, ':', d);
    let p = pieces(local_ip.push(':') + d, ':');
    assert(p.len() == 2 && p[1] == d);
    assert(pieces(ip.push(':') + peer_port, ':')[0] == ip);
}

/// A picture size is written as width and height with an `x` between them.
pub proof fn law_scale_is_read(w: int, h: int)
    requires
        0 <= w <= u32::MAX,
        0 <= h <= u32::MAX,
    ensures
        scale_of(decimal(w).push('x') + decimal(h)) == Some((w, h)),
        scale_of(decimal(w)) is None,
{
    law_number_reads_back(w, u32::MAX as int);
    law_number_reads_back(h, u32::MAX as int);
    lemma_no_x(w);
    lemma_no_x(h);
    law_pieces_between(decimal(w), 'x', decimal(h));
    law_pieces_between(decimal(h), 'x', decimal(h));
    let p = pieces(decimal(w).push('x') + decimal(h), 'x');
    assert(p[0] == decimal(w) && p[1] == decimal(h));
}

proof fn lemma_no_x(n: int)
    requires
        0 <= n,
    ensures
        !decimal(n).contains('x'),
{
    law_number_reads_back(n, n);
    let d = decimal(n);
    if d.contains('x') {
        let i = choose|i: int| 0 <= i < d.len() && d[i] == 'x';
        assert(crate::text::is_digit(d[i]));
    }
}

/// FFmpeg fills the stream that is named, or else the one that the last part
/// of the destination names.
pub proof fn law_ffmpeg_fills_destination(q: Params, front: Seq<char>, last: Seq<char>)
    requires
        !last.contains('/'),
        q.dom().contains("dst_url"@),
        q["dst_url"@] == front.push('/') + last,
    ensures
        given(q, "stream"@) ==> ffmpeg_stream(q).stream == q["stream"@],
        !given(q, "stream"@) ==> ffmpeg_stream(q).stream == last,
{
    reveal_strlit("");
    law_cut_at_last(front, '/', last);
}

/// `1` and `true`, in any case of letters, say yes; anything else that is given
/// says no.
pub proof fn law_flags_are_read(q: Params, name: Seq<char>, other: bool)
    ensures
        !q.dom().contains(name) ==> flag_in(q, name, other) == other,
        q.dom().contains(name) ==> (flag_in(q, name, other) <==> q[name] == "1"@ || lowered(q[name])
            == "true"@),
        q.dom().contains("use_ps"@) ==> data_type_in(q) == (if flag_in(q, "use_ps"@, other) {
            1int
        } else {
            0
        }),
{
    reveal_strlit("true");
    assert(lowered("true"@) =~= "true"@);
}

/// A request for a picture may carry the suffix of one.
pub proof fn law_picture_suffix_is_taken_off(q: Params, stream: Seq<char>)
    requires
        q.dom().contains("stream"@),
        !finishes_with(stream, ".jpg"@),
        !finishes_with(stream, ".jpeg"@),
        q["stream"@] == stream || q["stream"@] == stream + ".jpg"@ || q["stream"@] == stream
            + ".jpeg"@,
    ensures
        snap_stream(q) == stream,
{
    reveal_strlit(".jpg");
    reveal_strlit(".jpeg");
    law_parts_are_found(stream, ".jpg"@);
    law_parts_are_found(stream, ".jpeg"@);
    let a = stream + ".jpg"@;
    let b = stream + ".jpeg"@;
    assert(!finishes_with(a, ".jpeg"@)) by {
        crate::text_laws::law_prefix_agrees(a, ".jpeg"@);
        if finishes_with(a, ".jpeg"@) {
            assert(a[a.len() - 5 + 3] == ".jpeg"@[3]);
        }
    }
    assert(a.take(a.len() - 4) =~= stream);
    assert(b.take(b.len() - 5) =~= stream);
    reveal_with_fuel(crate::text::trim_back_text, 3);
}

// ── counting ────────────────────────────────────────────────────────────

/// The senders of a stream are found, each once and in order, and what they
/// have sent is added up. Here `sums[i]` is what the first `i` senders have
/// sent of the stream.
pub proof fn law_senders_are_added_up(
    all: Seq<RtpSender>,
    stream: StreamModel,
    n: int,
    sums: Seq<int>,
)
    requires
        0 <= n <= all.len(),
        sums.len() == n + 1,
        sums[0] == 0,
        forall|i: int|
            0 <= i < n ==> sums[i + 1] == sums[i] + (if (#[trigger] all[i]).source@ == stream {
                all[i].bytes as int
            } else {
                0
            }),
    ensures
        bytes_among(all, stream, n) == sums[n],
        forall|i: int|
            0 <= i < n ==> (senders_among(all, stream, n).contains(i) <==> (
            #[trigger] all[i]).source@ == stream),
        forall|i: int, j: int|
            0 <= i < j < senders_among(all, stream, n).len() ==> 0 <= #[trigger] senders_among(
                all,
                stream,
                n,
            )[i] < #[trigger] senders_among(all, stream, n)[j] < n,
    decreases n,
{
    if n > 0 {
        let s = sums.drop_last();
        assert forall|i: int| 0 <= i < n - 1 implies s[i + 1] == s[i] + (if (
        #[trigger] all[i]).source@ == stream {
            all[i].bytes as int
        } else {
            0
        }) by {
            assert(sums[i + 1] == s[i + 1]);
        }
        law_senders_are_added_up(all, stream, n - 1, s);
        let before = senders_among(all, stream, n - 1);
        let now = senders_among(all, stream, n);
        let here = sends(all[n - 1], stream);
        assert(here <==> all[n - 1].source@ == stream);
        assert(sums[n - 1 + 1] == sums[n - 1] + (if all[n - 1].source@ == stream {
            all[n - 1].bytes as int
        } else {
            0
        }));
        lemma_senders_below(all, stream, n - 1);
        assert forall|i: int| 0 <= i < n implies (now.contains(i) <==> (
        #[trigger] all[i]).source@ == stream) by {
            if before.contains(i) {
                let k = choose|k: int| 0 <= k < before.len() && before[k] == i;
                assert(now[k] == i);
            }
            if here && i == n - 1 {
                assert(now[before.len() as int] == i);
            }
            if now.contains(i) && i < n - 1 {
                let k = choose|k: int| 0 <= k < now.len() && now[k] == i;
                assert(before[k] == i);
            }
            if now.contains(i) && i == n - 1 && !here {
                let k = choose|k: int| 0 <= k < now.len() && now[k] == i;
                assert(before[k] < n - 1);
            }
        }
        assert forall|i: int, j: int| 0 <= i < j < now.len() implies 0 <= #[trigger] now[i]
            < #[trigger] now[j] < n by {
            if j < before.len() {
                assert(before[i] < before[j]);
            } else {
                assert(before[i] < n - 1);
            }
        }
    }
}

proof fn lemma_senders_below(all: Seq<RtpSender>, stream: StreamModel, n: int)
    requires
        0 <= n <= all.len(),
    ensures
        forall|k: int|
            0 <= k < senders_among(all, stream, n).len() ==> 0 <= #[trigger] senders_among(
                all,
                stream,
                n,
            )[k] < n,
    decreases n,
{
    if n > 0 {
        lemma_senders_below(all, stream, n - 1);
        let before = senders_among(all, stream, n - 1);
        let now = senders_among(all, stream, n);
        assert forall|k: int| 0 <= k < now.len() implies 0 <= #[trigger] now[k] < n by {
            if k < before.len() {
                assert(now[k] == before[k]);
            }
        }
    }
}

/// Closed streams are counted one by one.
pub proof fn law_closed_streams_are_counted(closed: Seq<bool>, c: bool)
    ensures
        closed_among(closed.push(c), (closed.len() + 1) as int) == closed_among(
            closed,
            closed.len() as int,
        ) + (if c {
            1int
        } else {
            0
        }),
        closed_among(closed, 0) == 0,
{
    lemma_same_count(closed, closed.push(c), closed.len() as int);
    assert(closed.push(c)[closed.len() as int] == c);
}

proof fn lemma_same_count(a: Seq<bool>, b: Seq<bool>, n: int)
    requires
        0 <= n <= a.len(),
        n <= b.len(),
        forall|i: int| 0 <= i < n ==> a[i] == #[trigger] b[i],
    ensures
        closed_among(a, n) == closed_among(b, n),
    decreases n,
{
    if n > 0 {
        lemma_same_count(a, b, n - 1);
        assert(a[n - 1] == b[n - 1]);
    }
}

// ── responses ───────────────────────────────────────────────────────────

/// A response ends with its body behind an empty line, and its header tells
/// how many bytes the body has, which may be more than its characters.
pub proof fn law_length_counts_bytes(
    mime: Seq<char>,
    body: Seq<char>,
    any_origin: bool,
    cache: CachePolicy,
) -> (header: Seq<char>)
    ensures
        text_response(mime, body, any_origin, cache) == header + "\r\n\r\n"@ + body,
        holds_text(
            header,
            "\r\nContent-Length: "@ + decimal(encode_utf8(body).len() as int) + "\r\n"@,
        ),
        holds_text(header, "\r\nContent-Type: "@ + mime + "\r\n"@),
{
    reveal_strlit("HTTP/1.1 200 OK\r\nContent-Type: ");
    reveal_strlit("HTTP/1.1 200 OK");
    reveal_strlit("\r\nContent-Type: ");
    reveal_strlit("\r\nContent-Length: ");
    reveal_strlit("Content-Length: ");
    reveal_strlit("\r\n");
    reveal_strlit("Connection: close\r\n\r\n");
    reveal_strlit("Connection: close");
    reveal_strlit("\r\n\r\n");
    let n = decimal(encode_utf8(body).len() as int);
    let extra = crate::http::responses::origin_line(any_origin)
        + crate::http::responses::cache_line(cache) + "Connection: close"@;
    let a = "HTTP/1.1 200 OK"@ + "\r\nContent-Type: "@ + mime;
    let length = "\r\nContent-Length: "@ + n + "\r\n"@;
    let header = a + length + extra;
    assert("HTTP/1.1 200 OK\r\nContent-Type: "@ =~= "HTTP/1.1 200 OK"@ + "\r\nContent-Type: "@);
    assert("Connection: close\r\n\r\n"@ =~= "Connection: close"@ + "\r\n\r\n"@);
    assert(text_response(mime, body, any_origin, cache) =~= header + "\r\n\r\n"@ + body);
    lemma_held(a, length, extra);
    let kind = "\r\nContent-Type: "@ + mime + "\r\n"@;
    let later = "Content-Length: "@ + n + "\r\n"@ + extra;
    assert("\r\nContent-Length: "@ =~= "\r\n"@ + "Content-Length: "@);
    assert(header =~= "HTTP/1.1 200 OK"@ + kind + later);
    lemma_held("HTTP/1.1 200 OK"@, kind, later);
    header
}

proof fn lemma_held(a: Seq<char>, p: Seq<char>, b: Seq<char>)
    ensures
        holds_text(a + p + b, p),
{
    let s = a + p + b;
    crate::text_laws::law_holds_somewhere(s, p);
    assert(s.subrange(a.len() as int, (a.len() + p.len()) as int) =~= p);
    assert(stands_at(s, p, a.len() as int));
}

/// A failure tells how many bytes its body has, too.
pub proof fn law_failure_is_complete(f: Failure) -> (header: Seq<char>)
    ensures
        failure_text(f) == header + "\r\n\r\n"@ + failure_body(f),
        holds_text(
            header,
            "\r\nContent-Length: "@ + decimal(encode_utf8(failure_body(f)).len() as int)
                + "\r\n"@,
        ),
        begins_status(header, f),
{
    reveal_strlit("\r\nConnection: close\r\n\r\n");
    reveal_strlit("\r\n");
    reveal_strlit("Connection: close");
    reveal_strlit("\r\n\r\n");
    reveal_strlit("\r\nContent-Length: ");
    reveal_strlit("Content-Length: ");
    reveal_strlit("HTTP/1.1 400 Bad Request\r\n");
    reveal_strlit("HTTP/1.1 404 Not Found\r\n");
    reveal_strlit("HTTP/1.1 401 Unauthorized\r\nContent-Type: text/plain\r\n");
    reveal_strlit(
        "HTTP/1.1 401 Unauthorized\r\nContent-Type: application/json\r\nCache-Control: no-store\r\n",
    );
    let head = crate::http::responses::failure_head(f);
    let n = decimal(encode_utf8(failure_body(f)).len() as int);
    let front = head.take(head.len() - 2);
    assert(head =~= front + "\r\n"@);
    let length = "\r\nContent-Length: "@ + n + "\r\n"@;
    assert("\r\nContent-Length: "@ =~= "\r\n"@ + "Content-Length: "@);
    let header = front + length + "Connection: close"@;
    assert("\r\nConnection: close\r\n\r\n"@ =~= "\r\n"@ + "Connection: close"@ + "\r\n\r\n"@);
    assert(failure_text(f) =~= header + "\r\n\r\n"@ + failure_body(f));
    lemma_held(front, length, "Connection: close"@);
    assert(header.subrange(9, 12) =~= match f {
        Failure::BadRequest => seq!['4', '0', '0'],
        Failure::NotFound => seq!['4', '0', '4'],
        Failure::Unauthorized | Failure::ApiUnauthorized => seq!['4', '0', '1'],
    });
    header
}

/// Whether a header begins with the status of a failure.
pub open spec fn begins_status(header: Seq<char>, f: Failure) -> bool {
    let digits = header.subrange(9, 12);
    match f {
        Failure::BadRequest => digits == seq!['4', '0', '0'],
        Failure::NotFound => digits == seq!['4', '0', '4'],
        Failure::Unauthorized | Failure::ApiUnauthorized => digits == seq!['4', '0', '1'],
    }
}

// ── configuration ───────────────────────────────────────────────────────

/// The answer about the configuration has every setting under its own name,
/// each as the first entry of that name shows it.
pub proof fn law_settings_have_their_names(
    config: Seq<(Seq<char>, Seq<char>)>,
    secret: Seq<char>,
)
    ensures
        ({
            let a = answer_about(config, secret);
            &&& a.api_debug == setting(config, "api.apiDebug"@)
            &&& a.api_port == setting(config, "api.port"@)
            &&& a.rtmp_port == setting(config, "rtmp.port"@)
            &&& a.rtsp_port == setting(config, "rtsp.port"@)
            &&& a.http_port == setting(config, "http.port"@)
            &&& a.webrtc_enabled == setting(config, "webrtc.enabled"@)
            &&& a.webrtc_port == setting(config, "webrtc.port"@)
            &&& a.srt_enabled == setting(config, "srt.enabled"@)
            &&& a.srt_port == setting(config, "srt.port"@)
            &&& a.gb28181_enabled == setting(config, "gb28181.enabled"@)
            &&& a.gb28181_sip_port == setting(config, "gb28181.sip_port"@)
            &&& a.gb28181_media_port == setting(config, "gb28181.media_port"@)
            &&& a.record_path == setting(config, "record.path"@)
            &&& a.record_hls == setting(config, "record.hls"@)
            &&& a.record_mp4 == setting(config, "record.mp4"@)
            &&& a.record_flv == setting(config, "record.flv"@)
            &&& a.media_server_id == setting(config, "general.mediaServerId"@)
            &&& a.flow_threshold == setting(config, "general.flowThreshold"@)
            &&& a.secret_configured <==> secret.len() > 0
            &&& a.entries.len() == config.len()
            &&& forall|i: int|
                0 <= i < config.len() ==> (#[trigger] a.entries[i]).0 == config[i].0 && (!secret_key(
                    config[i].0,
                ) ==> a.entries[i].1 == config[i].1)
        }),
{
}

/// An entry that is set counts once, in the list that it belongs to: a rejected
/// one among those, one that counts after a restart among those, and a change
/// is counted.
pub proof fn law_report_lists_entries(
    m: ReportModel,
    key: Seq<char>,
    known: bool,
    t: ConfigAttempt,
)
    requires
        key.len() > 0,
        key != "secret"@,
    ensures
        ({
            let r = reported(m, key, action_of(key, known), t);
            let hook = begins_with(key, "hook."@);
            let taken = known && (hook ==> t.hook_accepted);
            let changes = taken && (t.value_changed || (hook && t.hook_changed));
            &&& r.changed == m.changed + (if changes {
                1int
            } else {
                0
            })
            &&& r.rejected == if taken {
                m.rejected
            } else {
                m.rejected.push(key)
            }
            &&& r.restart_required == if changes && !hook && key != "api.secret"@ {
                m.restart_required.push(key)
            } else {
                m.restart_required
            }
        }),
{
}

} // verus!
