//! The management interface: which request is which, what is refused, and
//! what each is answered.
use vstd::prelude::*;
use vstd::string::*;
use crate::http::query::{NamedValues, parse_query, query_map, value_in, value_or};
use crate::http::reply::{Reply, ReplyModel, refused};
use crate::http::request::{parse_route, route_of};
use crate::text::{
    chars_of, copy_text, is_text, parse_hex, parse_number, parsed_hex, parsed_number, strip_prefix,
    text_of, trim_back_text, trim_end_text, trim_front_text, trim_start_text, without_prefix,
};

verus! {

/// The requests of the management interface.
#[derive(Debug, Clone, Copy, PartialEq, Eq, Structural)]
pub enum ApiName {
    GetApiList,
    UpdateConfig,
    RestartServer,
    GetThreadsLoad,
    GetWorkThreadsLoad,
    GetServerConfig,
    SetServerConfig,
    ReloadCertificate,
    GetAllSession,
    KickSessions,
    GetMediaList,
    GetMediaInfo,
    GetMediaPlayerList,
    GetStatistic,
    IsMediaOnline,
    CloseStreams,
    CloseStream,
    KickSession,
    GetSnap,
    GetMp4RecordFile,
    GetRecordStatus,
    StartRecord,
    StopRecord,
    IsRecording,
    AddStreamPusher,
    DelStreamPusher,
    GetStreamPusherList,
    AddStreamProxy,
    DelStreamProxy,
    GetStreamProxyList,
    AddFFmpegSource,
    DelFFmpegSource,
    GetFFmpegSourceList,
    OpenRtpServer,
    ConnectRtpServer,
    CloseRtpServer,
    ListRtpServer,
    GetRtpInfo,
    StartSendRtp,
    StartSendRtpPassive,
    ListRtpSender,
    StopSendRtp,
    StartRtp,
    StopRtp,
    StartTalk,
    StopTalk,
    GetTalkList,
    QueryCatalog,
    QueryDeviceInfo,
    GetDeviceList,
    GetDeviceInfo,
    GetSipInfo,
    StopSip,
    AddTranscode,
    DelTranscode,
    GetTranscode,
    GetTranscodeList,
    Version,
}

/// The texts of all requests.
pub open spec fn api_texts() -> Seq<Seq<char>> {
    seq![
        "getApiList"@,
        "updateConfig"@,
        "restartServer"@,
        "getThreadsLoad"@,
        "getWorkThreadsLoad"@,
        "getServerConfig"@,
        "setServerConfig"@,
        "reloadCertificate"@,
        "getAllSession"@,
        "kick_sessions"@,
        "getMediaList"@,
        "getMediaInfo"@,
        "getMediaPlayerList"@,
        "getStatistic"@,
        "isMediaOnline"@,
        "close_streams"@,
        "closeStream"@,
        "kick_session"@,
        "getSnap"@,
        "getMp4RecordFile"@,
        "getRecordStatus"@,
        "startRecord"@,
        "stopRecord"@,
        "isRecording"@,
        "addStreamPusher"@,
        "delStreamPusher"@,
        "getStreamPusherList"@,
        "addStreamProxy"@,
        "delStreamProxy"@,
        "getStreamProxyList"@,
        "addFFmpegSource"@,
        "delFFmpegSource"@,
        "getFFmpegSourceList"@,
        "openRtpServer"@,
        "connectRtpServer"@,
        "closeRtpServer"@,
        "listRtpServer"@,
        "getRtpInfo"@,
        "startSendRtp"@,
        "startSendRtpPassive"@,
        "listRtpSender"@,
        "stopSendRtp"@,
        "startRtp"@,
        "stopRtp"@,
        "startTalk"@,
        "stopTalk"@,
        "getTalkList"@,
        "queryCatalog"@,
        "queryDeviceInfo"@,
        "getDeviceList"@,
        "getDeviceInfo"@,
        "getSipInfo"@,
        "stopSip"@,
        "addTranscode"@,
        "delTranscode"@,
        "getTranscode"@,
        "getTranscodeList"@,
        "version"@,
    ]
}

/// The request with the given text.
pub open spec fn api_named(text: Seq<char>) -> Option<ApiName> {
    if text == "getApiList"@ {
        Some(ApiName::GetApiList)
    } else if text == "updateConfig"@ {
        Some(ApiName::UpdateConfig)
    } else if text == "restartServer"@ {
        Some(ApiName::RestartServer)
    } else if text == "getThreadsLoad"@ {
        Some(ApiName::GetThreadsLoad)
    } else if text == "getWorkThreadsLoad"@ {
        Some(ApiName::GetWorkThreadsLoad)
    } else if text == "getServerConfig"@ {
        Some(ApiName::GetServerConfig)
    } else if text == "setServerConfig"@ {
        Some(ApiName::SetServerConfig)
    } else if text == "reloadCertificate"@ {
        Some(ApiName::ReloadCertificate)
    } else if text == "getAllSession"@ {
        Some(ApiName::GetAllSession)
    } else if text == "kick_sessions"@ {
        Some(ApiName::KickSessions)
    } else if text == "getMediaList"@ {
        Some(ApiName::GetMediaList)
    } else if text == "getMediaInfo"@ {
        Some(ApiName::GetMediaInfo)
    } else if text == "getMediaPlayerList"@ {
        Some(ApiName::GetMediaPlayerList)
    } else if text == "getStatistic"@ {
        Some(ApiName::GetStatistic)
    } else if text == "isMediaOnline"@ {
        Some(ApiName::IsMediaOnline)
    } else if text == "close_streams"@ {
        Some(ApiName::CloseStreams)
    } else if text == "closeStream"@ {
        Some(ApiName::CloseStream)
    } else if text == "kick_session"@ {
        Some(ApiName::KickSession)
    } else if text == "getSnap"@ {
        Some(ApiName::GetSnap)
    } else if text == "getMp4RecordFile"@ {
        Some(ApiName::GetMp4RecordFile)
    } else if text == "getRecordStatus"@ {
        Some(ApiName::GetRecordStatus)
    } else if text == "startRecord"@ {
        Some(ApiName::StartRecord)
    } else if text == "stopRecord"@ {
        Some(ApiName::StopRecord)
    } else if text == "isRecording"@ {
        Some(ApiName::IsRecording)
    } else if text == "addStreamPusher"@ {
        Some(ApiName::AddStreamPusher)
    } else if text == "delStreamPusher"@ {
        Some(ApiName::DelStreamPusher)
    } else if text == "getStreamPusherList"@ {
        Some(ApiName::GetStreamPusherList)
    } else if text == "addStreamProxy"@ {
        Some(ApiName::AddStreamProxy)
    } else if text == "delStreamProxy"@ {
        Some(ApiName::DelStreamProxy)
    } else if text == "getStreamProxyList"@ {
        Some(ApiName::GetStreamProxyList)
    } else if text == "addFFmpegSource"@ {
        Some(ApiName::AddFFmpegSource)
    } else if text == "delFFmpegSource"@ {
        Some(ApiName::DelFFmpegSource)
    } else if text == "getFFmpegSourceList"@ {
        Some(ApiName::GetFFmpegSourceList)
    } else if text == "openRtpServer"@ {
        Some(ApiName::OpenRtpServer)
    } else if text == "connectRtpServer"@ {
        Some(ApiName::ConnectRtpServer)
    } else if text == "closeRtpServer"@ {
        Some(ApiName::CloseRtpServer)
    } else if text == "listRtpServer"@ {
        Some(ApiName::ListRtpServer)
    } else if text == "getRtpInfo"@ {
        Some(ApiName::GetRtpInfo)
    } else if text == "startSendRtp"@ {
        Some(ApiName::StartSendRtp)
    } else if text == "startSendRtpPassive"@ {
        Some(ApiName::StartSendRtpPassive)
    } else if text == "listRtpSender"@ {
        Some(ApiName::ListRtpSender)
    } else if text == "stopSendRtp"@ {
        Some(ApiName::StopSendRtp)
    } else if text == "startRtp"@ {
        Some(ApiName::StartRtp)
    } else if text == "stopRtp"@ {
        Some(ApiName::StopRtp)
    } else if text == "startTalk"@ {
        Some(ApiName::StartTalk)
    } else if text == "stopTalk"@ {
        Some(ApiName::StopTalk)
    } else if text == "getTalkList"@ {
        Some(ApiName::GetTalkList)
    } else if text == "queryCatalog"@ {
        Some(ApiName::QueryCatalog)
    } else if text == "queryDeviceInfo"@ {
        Some(ApiName::QueryDeviceInfo)
    } else if text == "getDeviceList"@ {
        Some(ApiName::GetDeviceList)
    } else if text == "getDeviceInfo"@ {
        Some(ApiName::GetDeviceInfo)
    } else if text == "getSipInfo"@ {
        Some(ApiName::GetSipInfo)
    } else if text == "stopSip"@ {
        Some(ApiName::StopSip)
    } else if text == "addTranscode"@ {
        Some(ApiName::AddTranscode)
    } else if text == "delTranscode"@ {
        Some(ApiName::DelTranscode)
    } else if text == "getTranscode"@ {
        Some(ApiName::GetTranscode)
    } else if text == "getTranscodeList"@ {
        Some(ApiName::GetTranscodeList)
    } else if text == "version"@ {
        Some(ApiName::Version)
    } else {
        None
    }
}

/// The request with the given text.
pub fn find_api(text: &[char]) -> (r: Option<ApiName>)
    ensures
        r == api_named(text@),
{
    if is_text(text, "getApiList") {
        Some(ApiName::GetApiList)
    } else if is_text(text, "updateConfig") {
        Some(ApiName::UpdateConfig)
    } else if is_text(text, "restartServer") {
        Some(ApiName::RestartServer)
    } else if is_text(text, "getThreadsLoad") {
        Some(ApiName::GetThreadsLoad)
    } else if is_text(text, "getWorkThreadsLoad") {
        Some(ApiName::GetWorkThreadsLoad)
    } else if is_text(text, "getServerConfig") {
        Some(ApiName::GetServerConfig)
    } else if is_text(text, "setServerConfig") {
        Some(ApiName::SetServerConfig)
    } else if is_text(text, "reloadCertificate") {
        Some(ApiName::ReloadCertificate)
    } else if is_text(text, "getAllSession") {
        Some(ApiName::GetAllSession)
    } else if is_text(text, "kick_sessions") {
        Some(ApiName::KickSessions)
    } else if is_text(text, "getMediaList") {
        Some(ApiName::GetMediaList)
    } else if is_text(text, "getMediaInfo") {
        Some(ApiName::GetMediaInfo)
    } else if is_text(text, "getMediaPlayerList") {
        Some(ApiName::GetMediaPlayerList)
    } else if is_text(text, "getStatistic") {
        Some(ApiName::GetStatistic)
    } else if is_text(text, "isMediaOnline") {
        Some(ApiName::IsMediaOnline)
    } else if is_text(text, "close_streams") {
        Some(ApiName::CloseStreams)
    } else if is_text(text, "closeStream") {
        Some(ApiName::CloseStream)
    } else if is_text(text, "kick_session") {
        Some(ApiName::KickSession)
    } else if is_text(text, "getSnap") {
        Some(ApiName::GetSnap)
    } else if is_text(text, "getMp4RecordFile") {
        Some(ApiName::GetMp4RecordFile)
    } else if is_text(text, "getRecordStatus") {
        Some(ApiName::GetRecordStatus)
    } else if is_text(text, "startRecord") {
        Some(ApiName::StartRecord)
    } else if is_text(text, "stopRecord") {
        Some(ApiName::StopRecord)
    } else if is_text(text, "isRecording") {
        Some(ApiName::IsRecording)
    } else if is_text(text, "addStreamPusher") {
        Some(ApiName::AddStreamPusher)
    } else if is_text(text, "delStreamPusher") {
        Some(ApiName::DelStreamPusher)
    } else if is_text(text, "getStreamPusherList") {
        Some(ApiName::GetStreamPusherList)
    } else if is_text(text, "addStreamProxy") {
        Some(ApiName::AddStreamProxy)
    } else if is_text(text, "delStreamProxy") {
        Some(ApiName::DelStreamProxy)
    } else if is_text(text, "getStreamProxyList") {
        Some(ApiName::GetStreamProxyList)
    } else if is_text(text, "addFFmpegSource") {
        Some(ApiName::AddFFmpegSource)
    } else if is_text(text, "delFFmpegSource") {
        Some(ApiName::DelFFmpegSource)
    } else if is_text(text, "getFFmpegSourceList") {
        Some(ApiName::GetFFmpegSourceList)
    } else if is_text(text, "openRtpServer") {
        Some(ApiName::OpenRtpServer)
    } else if is_text(text, "connectRtpServer") {
        Some(ApiName::ConnectRtpServer)
    } else if is_text(text, "closeRtpServer") {
        Some(ApiName::CloseRtpServer)
    } else if is_text(text, "listRtpServer") {
        Some(ApiName::ListRtpServer)
    } else if is_text(text, "getRtpInfo") {
        Some(ApiName::GetRtpInfo)
    } else if is_text(text, "startSendRtp") {
        Some(ApiName::StartSendRtp)
    } else if is_text(text, "startSendRtpPassive") {
        Some(ApiName::StartSendRtpPassive)
    } else if is_text(text, "listRtpSender") {
        Some(ApiName::ListRtpSender)
    } else if is_text(text, "stopSendRtp") {
        Some(ApiName::StopSendRtp)
    } else if is_text(text, "startRtp") {
        Some(ApiName::StartRtp)
    } else if is_text(text, "stopRtp") {
        Some(ApiName::StopRtp)
    } else if is_text(text, "startTalk") {
        Some(ApiName::StartTalk)
    } else if is_text(text, "stopTalk") {
        Some(ApiName::StopTalk)
    } else if is_text(text, "getTalkList") {
        Some(ApiName::GetTalkList)
    } else if is_text(text, "queryCatalog") {
        Some(ApiName::QueryCatalog)
    } else if is_text(text, "queryDeviceInfo") {
        Some(ApiName::QueryDeviceInfo)
    } else if is_text(text, "getDeviceList") {
        Some(ApiName::GetDeviceList)
    } else if is_text(text, "getDeviceInfo") {
        Some(ApiName::GetDeviceInfo)
    } else if is_text(text, "getSipInfo") {
        Some(ApiName::GetSipInfo)
    } else if is_text(text, "stopSip") {
        Some(ApiName::StopSip)
    } else if is_text(text, "addTranscode") {
        Some(ApiName::AddTranscode)
    } else if is_text(text, "delTranscode") {
        Some(ApiName::DelTranscode)
    } else if is_text(text, "getTranscode") {
        Some(ApiName::GetTranscode)
    } else if is_text(text, "getTranscodeList") {
        Some(ApiName::GetTranscodeList)
    } else if is_text(text, "version") {
        Some(ApiName::Version)
    } else {
        None
    }
}

/// The paths of all requests.
pub fn api_list() -> (r: Vec<String>)
    ensures
        r@.len() == api_texts().len(),
        forall|i: int|
            0 <= i < r@.len() ==> (#[trigger] r@[i])@ == "/index/api/"@ + api_texts()[i],
{
    let texts: Vec<&str> = vec![
        "getApiList",
        "updateConfig",
        "restartServer",
        "getThreadsLoad",
        "getWorkThreadsLoad",
        "getServerConfig",
        "setServerConfig",
        "reloadCertificate",
        "getAllSession",
        "kick_sessions",
        "getMediaList",
        "getMediaInfo",
        "getMediaPlayerList",
        "getStatistic",
        "isMediaOnline",
        "close_streams",
        "closeStream",
        "kick_session",
        "getSnap",
        "getMp4RecordFile",
        "getRecordStatus",
        "startRecord",
        "stopRecord",
        "isRecording",
        "addStreamPusher",
        "delStreamPusher",
        "getStreamPusherList",
        "addStreamProxy",
        "delStreamProxy",
        "getStreamProxyList",
        "addFFmpegSource",
        "delFFmpegSource",
        "getFFmpegSourceList",
        "openRtpServer",
        "connectRtpServer",
        "closeRtpServer",
        "listRtpServer",
        "getRtpInfo",
        "startSendRtp",
        "startSendRtpPassive",
        "listRtpSender",
        "stopSendRtp",
        "startRtp",
        "stopRtp",
        "startTalk",
        "stopTalk",
        "getTalkList",
        "queryCatalog",
        "queryDeviceInfo",
        "getDeviceList",
        "getDeviceInfo",
        "getSipInfo",
        "stopSip",
        "addTranscode",
        "delTranscode",
        "getTranscode",
        "getTranscodeList",
        "version",
    ];
    let mut out: Vec<String> = Vec::new();
    let mut i: usize = 0;
    while i < texts.len()
        invariant
            i <= texts@.len(),
            texts@.len() == api_texts().len(),
            forall|j: int| 0 <= j < texts@.len() ==> (#[trigger] texts@[j])@ == api_texts()[j],
            out@.len() == i,
            forall|j: int| 0 <= j < i ==> (#[trigger] out@[j])@ == "/index/api/"@ + api_texts()[j],
        decreases texts@.len() - i,
    {
        let mut path = copy_text("/index/api/");
        path.append(texts[i]);
        out.push(path);
        i = i + 1;
    }
    out
}

/// Every request that is listed is served, and every one that is served is
/// listed.
pub proof fn law_listed_exactly_when_served(text: Seq<char>)
    ensures
        api_texts().contains(text) == (api_named(text) is Some),
{
    let all = api_texts();
    assert(all[0] == "getApiList"@);
    assert(all[1] == "updateConfig"@);
    assert(all[2] == "restartServer"@);
    assert(all[3] == "getThreadsLoad"@);
    assert(all[4] == "getWorkThreadsLoad"@);
    assert(all[5] == "getServerConfig"@);
    assert(all[6] == "setServerConfig"@);
    assert(all[7] == "reloadCertificate"@);
    assert(all[8] == "getAllSession"@);
    assert(all[9] == "kick_sessions"@);
    assert(all[10] == "getMediaList"@);
    assert(all[11] == "getMediaInfo"@);
    assert(all[12] == "getMediaPlayerList"@);
    assert(all[13] == "getStatistic"@);
    assert(all[14] == "isMediaOnline"@);
    assert(all[15] == "close_streams"@);
    assert(all[16] == "closeStream"@);
    assert(all[17] == "kick_session"@);
    assert(all[18] == "getSnap"@);
    assert(all[19] == "getMp4RecordFile"@);
    assert(all[20] == "getRecordStatus"@);
    assert(all[21] == "startRecord"@);
    assert(all[22] == "stopRecord"@);
    assert(all[23] == "isRecording"@);
    assert(all[24] == "addStreamPusher"@);
    assert(all[25] == "delStreamPusher"@);
    assert(all[26] == "getStreamPusherList"@);
    assert(all[27] == "addStreamProxy"@);
    assert(all[28] == "delStreamProxy"@);
    assert(all[29] == "getStreamProxyList"@);
    assert(all[30] == "addFFmpegSource"@);
    assert(all[31] == "delFFmpegSource"@);
    assert(all[32] == "getFFmpegSourceList"@);
    assert(all[33] == "openRtpServer"@);
    assert(all[34] == "connectRtpServer"@);
    assert(all[35] == "closeRtpServer"@);
    assert(all[36] == "listRtpServer"@);
    assert(all[37] == "getRtpInfo"@);
    assert(all[38] == "startSendRtp"@);
    assert(all[39] == "startSendRtpPassive"@);
    assert(all[40] == "listRtpSender"@);
    assert(all[41] == "stopSendRtp"@);
    assert(all[42] == "startRtp"@);
    assert(all[43] == "stopRtp"@);
    assert(all[44] == "startTalk"@);
    assert(all[45] == "stopTalk"@);
    assert(all[46] == "getTalkList"@);
    assert(all[47] == "queryCatalog"@);
    assert(all[48] == "queryDeviceInfo"@);
    assert(all[49] == "getDeviceList"@);
    assert(all[50] == "getDeviceInfo"@);
    assert(all[51] == "getSipInfo"@);
    assert(all[52] == "stopSip"@);
    assert(all[53] == "addTranscode"@);
    assert(all[54] == "delTranscode"@);
    assert(all[55] == "getTranscode"@);
    assert(all[56] == "getTranscodeList"@);
    assert(all[57] == "version"@);
}

// ── what is refused ─────────────────────────────────────────────────────

/// Which optional parts of the server are running.
#[derive(Debug, Clone, Copy, PartialEq, Eq, Structural)]
pub struct Services {
    pub sessions: bool,
    pub transcode: bool,
    pub rtp: bool,
    pub sip: bool,
}

/// Parameters.
pub type Params = Map<Seq<char>, Seq<char>>;

/// The value of a parameter; the empty text when it is absent.
pub open spec fn text_in(q: Params, name: Seq<char>) -> Seq<char> {
    value_or(q, name, ""@)
}

/// The number of a parameter, up to `max`.
pub open spec fn number_in(q: Params, name: Seq<char>, max: int) -> Option<int> {
    match value_in(q, name) {
        Some(v) => parsed_number(v, max),
        None => None,
    }
}

/// The number of a parameter, or what stands in for it.
pub open spec fn number_or(q: Params, name: Seq<char>, max: int, other: int) -> int {
    match number_in(q, name, max) {
        Some(n) => n,
        None => other,
    }
}

/// The synchronization source of a parameter: a decimal number, or a
/// hexadecimal one behind `0x`.
pub open spec fn source_number(v: Seq<char>) -> Option<int> {
    match without_prefix(v, "0x"@) {
        Some(hex) => parsed_hex(hex, u32::MAX as int),
        None => match without_prefix(v, "0X"@) {
            Some(hex) => parsed_hex(hex, u32::MAX as int),
            None => parsed_number(v, u32::MAX as int),
        },
    }
}

/// The synchronization source that a request names.
pub open spec fn ssrc_in(q: Params) -> Option<int> {
    match value_in(q, "ssrc"@) {
        Some(v) => source_number(v),
        None => None,
    }
}

/// The stream that a request for an RTP server names.
pub open spec fn rtp_stream(q: Params) -> Option<Seq<char>> {
    match value_in(q, "stream_id"@) {
        Some(v) => Some(v),
        None => value_in(q, "stream"@),
    }
}

/// The stream of which a snapshot is asked, without the suffix of a picture.
pub open spec fn snap_stream(q: Params) -> Seq<char> {
    trim_back_text(trim_back_text(text_in(q, "stream"@), ".jpeg"@), ".jpg"@)
}

/// Why a request is refused before anything is done; nothing when it is not.
pub open spec fn rejection(name: ApiName, q: Params, s: Services) -> Option<(int, Seq<char>)> {
    let no_stream = text_in(q, "stream"@).len() == 0;
    match name {
        ApiName::KickSession => if !s.sessions {
            Some((-400, "session manager not available"@))
        } else if text_in(q, "id"@).len() == 0 && no_stream {
            Some((-400, "missing id or stream param"@))
        } else {
            None
        },
        ApiName::GetAllSession | ApiName::KickSessions => if !s.sessions {
            Some((-400, "session manager not available"@))
        } else {
            None
        },
        ApiName::GetMediaInfo
        | ApiName::IsMediaOnline
        | ApiName::GetMediaPlayerList
        | ApiName::GetRecordStatus
        | ApiName::GetMp4RecordFile
        | ApiName::CloseStream
        | ApiName::StartRecord
        | ApiName::StopRecord
        | ApiName::IsRecording
        | ApiName::DelStreamPusher
        | ApiName::DelFFmpegSource
        | ApiName::DelStreamProxy => if no_stream {
            Some((-400, "missing stream param"@))
        } else {
            None
        },
        ApiName::GetSnap => if snap_stream(q).len() == 0 {
            Some((-400, "missing stream param"@))
        } else {
            None
        },
        ApiName::AddTranscode => if !s.transcode {
            Some((-1, "transcode disabled"@))
        } else if no_stream {
            Some((-400, "missing stream"@))
        } else {
            None
        },
        ApiName::DelTranscode | ApiName::GetTranscode | ApiName::GetTranscodeList => if
        !s.transcode {
            Some((-1, "transcode disabled"@))
        } else {
            None
        },
        ApiName::AddStreamPusher => if text_in(q, "dst_url"@).len() == 0 || no_stream {
            Some((-400, "missing dst_url or stream param"@))
        } else {
            None
        },
        ApiName::AddFFmpegSource => if text_in(q, "src_url"@).len() == 0 || text_in(
            q,
            "dst_url"@,
        ).len() == 0 {
            Some((-400, "missing src_url or dst_url param"@))
        } else {
            None
        },
        ApiName::AddStreamProxy => if text_in(q, "url"@).len() == 0 || no_stream {
            Some((-400, "missing url or stream param"@))
        } else {
            None
        },
        ApiName::OpenRtpServer
        | ApiName::CloseRtpServer
        | ApiName::ListRtpServer
        | ApiName::GetRtpInfo
        | ApiName::StopRtp => if !s.rtp {
            Some((-1, "rtp server disabled"@))
        } else {
            None
        },
        ApiName::ConnectRtpServer => if !s.rtp {
            Some((-1, "rtp server disabled"@))
        } else if rtp_stream(q).unwrap_or(""@).len() == 0 || text_in(q, "dst_url"@).len() == 0
            || number_or(q, "dst_port"@, 65535, 0) == 0 {
            Some((-300, "stream_id, dst_url and dst_port are required"@))
        } else {
            None
        },
        ApiName::StartSendRtp => if no_stream || ssrc_in(q) is None || text_in(q, "dst_url"@).len()
            == 0 || number_in(q, "dst_port"@, 65535) is None {
            Some((-300, "stream, ssrc, dst_url and dst_port are required"@))
        } else {
            None
        },
        ApiName::StartSendRtpPassive => if no_stream || ssrc_in(q) is None {
            Some((-300, "stream and ssrc are required"@))
        } else {
            None
        },
        ApiName::ListRtpSender | ApiName::StopSendRtp => if no_stream {
            Some((-300, "stream is required"@))
        } else {
            None
        },
        ApiName::StartRtp
        | ApiName::StopTalk
        | ApiName::GetTalkList
        | ApiName::QueryCatalog
        | ApiName::QueryDeviceInfo
        | ApiName::GetDeviceList
        | ApiName::GetDeviceInfo
        | ApiName::GetSipInfo
        | ApiName::StopSip => if !s.sip {
            Some((-1, "gb28181 disabled"@))
        } else {
            None
        },
        ApiName::StartTalk => if !s.sip {
            Some((-1, "gb28181 disabled"@))
        } else if text_in(q, "device_id"@).len() == 0 || text_in(q, "channel_id"@).len() == 0
            || no_stream {
            Some((-300, "device_id, channel_id and stream are required"@))
        } else {
            None
        },
        _ => None,
    }
}

/// What is done about a request.
pub enum ApiStep {
    /// There is no such request.
    NotFound,
    /// It is refused.
    Reject(Reply),
    /// It is carried out.
    Run(ApiName),
}

/// The model of what is done about a request.
pub enum StepModel {
    NotFound,
    Reject(ReplyModel),
    Run(ApiName),
}

impl View for ApiStep {
    type V = StepModel;

    open spec fn view(&self) -> StepModel {
        match self {
            ApiStep::NotFound => StepModel::NotFound,
            ApiStep::Reject(r) => StepModel::Reject(r@),
            ApiStep::Run(n) => StepModel::Run(*n),
        }
    }
}

/// The text of the request that a path names.
pub open spec fn api_text(path: Seq<char>) -> Seq<char> {
    trim_front_text(route_of(path), "/index/api/"@)
}

/// What is done about a request.
pub open spec fn decided(path: Seq<char>, s: Services) -> StepModel {
    match api_named(api_text(path)) {
        None => StepModel::NotFound,
        Some(name) => match rejection(name, query_map(path), s) {
            Some((code, msg)) => StepModel::Reject(ReplyModel::Refused { code, msg }),
            None => StepModel::Run(name),
        },
    }
}

fn lacks(q: &NamedValues, name: &str) -> (r: bool)
    ensures
        r == (text_in(q@, name@).len() == 0),
{
    q.get_or(name, "").as_str().is_empty()
}

/// The number of a parameter, up to `max`.
pub fn number(q: &NamedValues, name: &str, max: u64) -> (r: Option<u64>)
    ensures
        match (r, number_in(q@, name@, max as int)) {
            (Some(a), Some(b)) => a == b && a <= max,
            (None, None) => true,
            _ => false,
        },
{
    match q.get(name) {
        Some(v) => {
            let chars = chars_of(v.as_str());
            parse_number(chars.as_slice(), max)
        },
        None => None,
    }
}

/// The number of a parameter, or what stands in for it.
pub fn number_or_else(q: &NamedValues, name: &str, max: u64, other: u64) -> (r: u64)
    requires
        other <= max,
    ensures
        r == number_or(q@, name@, max as int, other as int),
        r <= max,
{
    match number(q, name, max) {
        Some(n) => n,
        None => other,
    }
}

/// The synchronization source that a request names.
pub fn find_ssrc(q: &NamedValues) -> (r: Option<u32>)
    ensures
        match (r, ssrc_in(q@)) {
            (Some(a), Some(b)) => a == b,
            (None, None) => true,
            _ => false,
        },
{
    let v = match q.get("ssrc") {
        Some(v) => v,
        None => {
            return None;
        },
    };
    let chars = chars_of(v.as_str());
    let n = match strip_prefix(chars.as_slice(), "0x") {
        Some(hex) => parse_hex(hex, u32::MAX as u64),
        None => match strip_prefix(chars.as_slice(), "0X") {
            Some(hex) => parse_hex(hex, u32::MAX as u64),
            None => parse_number(chars.as_slice(), u32::MAX as u64),
        },
    };
    match n {
        Some(v) => Some(v as u32),
        None => None,
    }
}

/// The stream that a request for an RTP server names.
pub fn find_rtp_stream(q: &NamedValues) -> (r: Option<String>)
    ensures
        crate::text::same_text(r, rtp_stream(q@)),
{
    match q.get("stream_id") {
        Some(v) => Some(v),
        None => q.get("stream"),
    }
}

/// The stream of which a snapshot is asked.
pub fn find_snap_stream(q: &NamedValues) -> (r: String)
    ensures
        r@ == snap_stream(q@),
{
    let chars = chars_of(q.get_or("stream", "").as_str());
    text_of(trim_end_text(trim_end_text(chars.as_slice(), ".jpeg"), ".jpg"))
}

fn rtp_stream_lacks(q: &NamedValues) -> (r: bool)
    ensures
        r == (rtp_stream(q@).unwrap_or(""@).len() == 0),
{
    match find_rtp_stream(q) {
        Some(v) => v.as_str().is_empty(),
        None => "".is_empty(),
    }
}

/// Why a request is refused before anything is done.
fn reject(name: ApiName, q: &NamedValues, s: Services) -> (r: Option<(i32, &'static str)>)
    ensures
        match (r, rejection(name, q@, s)) {
            (Some(a), Some(b)) => a.0 == b.0 && a.1@ == b.1,
            (None, None) => true,
            _ => false,
        },
{
    let no_stream: bool = lacks(q, "stream");
    match name {
        ApiName::KickSession => if !s.sessions {
            Some((-400, "session manager not available"))
        } else if lacks(q, "id") && no_stream {
            Some((-400, "missing id or stream param"))
        } else {
            None
        },
        ApiName::GetAllSession | ApiName::KickSessions => if !s.sessions {
            Some((-400, "session manager not available"))
        } else {
            None
        },
        ApiName::GetMediaInfo
        | ApiName::IsMediaOnline
        | ApiName::GetMediaPlayerList
        | ApiName::GetRecordStatus
        | ApiName::GetMp4RecordFile
        | ApiName::CloseStream
        | ApiName::StartRecord
        | ApiName::StopRecord
        | ApiName::IsRecording
        | ApiName::DelStreamPusher
        | ApiName::DelFFmpegSource
        | ApiName::DelStreamProxy => if no_stream {
            Some((-400, "missing stream param"))
        } else {
            None
        },
        ApiName::GetSnap => if find_snap_stream(q).as_str().is_empty() {
            Some((-400, "missing stream param"))
        } else {
            None
        },
        ApiName::AddTranscode => if !s.transcode {
            Some((-1, "transcode disabled"))
        } else if no_stream {
            Some((-400, "missing stream"))
        } else {
            None
        },
        ApiName::DelTranscode | ApiName::GetTranscode | ApiName::GetTranscodeList => if
        !s.transcode {
            Some((-1, "transcode disabled"))
        } else {
            None
        },
        ApiName::AddStreamPusher => if lacks(q, "dst_url") || no_stream {
            Some((-400, "missing dst_url or stream param"))
        } else {
            None
        },
        ApiName::AddFFmpegSource => if lacks(q, "src_url") || lacks(q, "dst_url") {
            Some((-400, "missing src_url or dst_url param"))
        } else {
            None
        },
        ApiName::AddStreamProxy => if lacks(q, "url") || no_stream {
            Some((-400, "missing url or stream param"))
        } else {
            None
        },
        ApiName::OpenRtpServer
        | ApiName::CloseRtpServer
        | ApiName::ListRtpServer
        | ApiName::GetRtpInfo
        | ApiName::StopRtp => if !s.rtp {
            Some((-1, "rtp server disabled"))
        } else {
            None
        },
        ApiName::ConnectRtpServer => if !s.rtp {
            Some((-1, "rtp server disabled"))
        } else if rtp_stream_lacks(q) || lacks(q, "dst_url") || number_or_else(
            q,
            "dst_port",
            65535,
            0,
        ) == 0 {
            Some((-300, "stream_id, dst_url and dst_port are required"))
        } else {
            None
        },
        ApiName::StartSendRtp => if no_stream || find_ssrc(q).is_none() || lacks(q, "dst_url")
            || number(q, "dst_port", 65535).is_none() {
            Some((-300, "stream, ssrc, dst_url and dst_port are required"))
        } else {
            None
        },
        ApiName::StartSendRtpPassive => if no_stream || find_ssrc(q).is_none() {
            Some((-300, "stream and ssrc are required"))
        } else {
            None
        },
        ApiName::ListRtpSender | ApiName::StopSendRtp => if no_stream {
            Some((-300, "stream is required"))
        } else {
            None
        },
        ApiName::StartRtp
        | ApiName::StopTalk
        | ApiName::GetTalkList
        | ApiName::QueryCatalog
        | ApiName::QueryDeviceInfo
        | ApiName::GetDeviceList
        | ApiName::GetDeviceInfo
        | ApiName::GetSipInfo
        | ApiName::StopSip => if !s.sip {
            Some((-1, "gb28181 disabled"))
        } else {
            None
        },
        ApiName::StartTalk => if !s.sip {
            Some((-1, "gb28181 disabled"))
        } else if lacks(q, "device_id") || lacks(q, "channel_id") || no_stream {
            Some((-300, "device_id, channel_id and stream are required"))
        } else {
            None
        },
        _ => None,
    }
}

/// What is done about a request.
pub fn decide(path: &str, s: Services) -> (r: ApiStep)
    ensures
        r@ == decided(path@, s),
{
    let route = parse_route(path);
    let chars = chars_of(route.as_str());
    let name = match find_api(trim_start_text(chars.as_slice(), "/index/api/")) {
        Some(n) => n,
        None => {
            return ApiStep::NotFound;
        },
    };
    let q = parse_query(path);
    match reject(name, &q, s) {
        Some((code, msg)) => ApiStep::Reject(refused(code, msg)),
        None => ApiStep::Run(name),
    }
}

/// Whether a request is about one stream, which it names by `stream`.
pub open spec fn is_about_stream(name: ApiName) -> bool {
    match name {
        ApiName::GetMediaInfo
        | ApiName::IsMediaOnline
        | ApiName::GetMediaPlayerList
        | ApiName::GetRecordStatus
        | ApiName::GetMp4RecordFile
        | ApiName::CloseStream
        | ApiName::StartRecord
        | ApiName::StopRecord
        | ApiName::IsRecording
        | ApiName::AddStreamPusher
        | ApiName::DelStreamPusher
        | ApiName::DelFFmpegSource
        | ApiName::AddStreamProxy
        | ApiName::DelStreamProxy
        | ApiName::AddTranscode
        | ApiName::StartSendRtp
        | ApiName::StartSendRtpPassive
        | ApiName::ListRtpSender
        | ApiName::StopSendRtp
        | ApiName::StartTalk => true,
        _ => false,
    }
}

/// A request about one stream is carried out only when it names the stream.
pub proof fn law_stream_is_named(path: Seq<char>, s: Services, name: ApiName)
    requires
        decided(path, s) == StepModel::Run(name),
        is_about_stream(name),
    ensures
        text_in(query_map(path), "stream"@).len() > 0,
{
}

/// What needs an optional part of the server is refused while that part is
/// not running.
pub proof fn law_disabled_parts_refuse(path: Seq<char>, s: Services, name: ApiName)
    requires
        decided(path, s) == StepModel::Run(name),
    ensures
        !s.sessions ==> name != ApiName::KickSession && name != ApiName::KickSessions && name
            != ApiName::GetAllSession,
        !s.transcode ==> name != ApiName::AddTranscode && name != ApiName::DelTranscode && name
            != ApiName::GetTranscode && name != ApiName::GetTranscodeList,
        !s.rtp ==> name != ApiName::OpenRtpServer && name != ApiName::ConnectRtpServer && name
            != ApiName::CloseRtpServer && name != ApiName::ListRtpServer && name
            != ApiName::GetRtpInfo && name != ApiName::StopRtp,
        !s.sip ==> name != ApiName::StartRtp && name != ApiName::StartTalk && name
            != ApiName::StopTalk && name != ApiName::GetTalkList && name != ApiName::QueryCatalog
            && name != ApiName::QueryDeviceInfo && name != ApiName::GetDeviceList && name
            != ApiName::GetDeviceInfo && name != ApiName::GetSipInfo && name != ApiName::StopSip,
{
}

} // verus!
