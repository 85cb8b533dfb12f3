//! What the management interface answers.
use vstd::prelude::*;
use vstd::string::*;
use crate::bytes::views;
use crate::http::api::ApiName;
use crate::http::query::{is_secret_config_key, secret_key};
use crate::http::reply::{Reply, ReplyModel, done, refused};
use crate::media::CodecId;
use crate::text::{begins_with, chars_of, copy_text, decimal, push_decimal, starts_with, text_eq};

verus! {

// ── done or not ─────────────────────────────────────────────────────────

/// Whether a request is answered by whether it was carried out.
pub open spec fn is_plain_request(name: ApiName) -> bool {
    match name {
        ApiName::CloseStream
        | ApiName::StartRecord
        | ApiName::StopRecord
        | ApiName::AddStreamPusher
        | ApiName::DelStreamPusher
        | ApiName::AddFFmpegSource
        | ApiName::DelFFmpegSource
        | ApiName::AddStreamProxy
        | ApiName::DelStreamProxy
        | ApiName::CloseRtpServer
        | ApiName::StopRtp
        | ApiName::StopSip => true,
        _ => false,
    }
}

/// What a request is answered that was carried out.
pub open spec fn success_text(name: ApiName) -> Seq<char> {
    match name {
        ApiName::CloseStream => "stream closed"@,
        ApiName::StartRecord => "record started"@,
        ApiName::StopRecord => "record stopped"@,
        ApiName::AddStreamPusher => "stream pusher started"@,
        ApiName::DelStreamPusher => "stream pusher stopped"@,
        ApiName::AddFFmpegSource => "ffmpeg source started"@,
        ApiName::DelFFmpegSource => "ffmpeg source stopped"@,
        ApiName::AddStreamProxy => "stream proxy started"@,
        ApiName::DelStreamProxy => "stream proxy stopped"@,
        ApiName::StopSip => "sip stopped"@,
        _ => "ok"@,
    }
}

/// What a request is answered that could not be carried out; nothing for one
/// that cannot fail.
pub open spec fn failure_reason(name: ApiName) -> Option<(int, Seq<char>)> {
    match name {
        ApiName::CloseStream | ApiName::StartRecord => Some((-404, "stream not found"@)),
        ApiName::AddStreamPusher => Some((-1, "pusher already exists"@)),
        ApiName::DelStreamPusher => Some((-404, "pusher not found"@)),
        ApiName::AddFFmpegSource => Some((-1, "ffmpeg source already exists"@)),
        ApiName::DelFFmpegSource => Some((-404, "ffmpeg source not found"@)),
        ApiName::AddStreamProxy => Some((-1, "proxy already exists"@)),
        ApiName::DelStreamProxy => Some((-404, "proxy not found"@)),
        _ => None,
    }
}

/// What a request is answered.
pub open spec fn outcome_of(name: ApiName, ok: bool) -> ReplyModel {
    match failure_reason(name) {
        Some((code, msg)) => if ok {
            ReplyModel::Done { result: success_text(name) }
        } else {
            ReplyModel::Refused { code, msg }
        },
        None => ReplyModel::Done { result: success_text(name) },
    }
}

/// What a request is answered, given whether it was carried out.
pub fn outcome(name: ApiName, ok: bool) -> (r: Reply)
    requires
        is_plain_request(name),
    ensures
        r@ == outcome_of(name, ok),
{
    match name {
        ApiName::CloseStream => if ok {
            done("stream closed")
        } else {
            refused(-404, "stream not found")
        },
        ApiName::StartRecord => if ok {
            done("record started")
        } else {
            refused(-404, "stream not found")
        },
        ApiName::StopRecord => done("record stopped"),
        ApiName::AddStreamPusher => if ok {
            done("stream pusher started")
        } else {
            refused(-1, "pusher already exists")
        },
        ApiName::DelStreamPusher => if ok {
            done("stream pusher stopped")
        } else {
            refused(-404, "pusher not found")
        },
        ApiName::AddFFmpegSource => if ok {
            done("ffmpeg source started")
        } else {
            refused(-1, "ffmpeg source already exists")
        },
        ApiName::DelFFmpegSource => if ok {
            done("ffmpeg source stopped")
        } else {
            refused(-404, "ffmpeg source not found")
        },
        ApiName::AddStreamProxy => if ok {
            done("stream proxy started")
        } else {
            refused(-1, "proxy already exists")
        },
        ApiName::DelStreamProxy => if ok {
            done("stream proxy stopped")
        } else {
            refused(-404, "proxy not found")
        },
        ApiName::StopSip => done("sip stopped"),
        _ => done("ok"),
    }
}

/// Why a request for something that is not there is refused.
pub open spec fn absence_of(name: ApiName) -> ReplyModel {
    if name == ApiName::GetTranscode {
        ReplyModel::Refused { code: -404, msg: "not found"@ }
    } else {
        ReplyModel::Refused { code: -404, msg: "stream not found"@ }
    }
}

/// Why a request for something that is not there is refused.
pub fn absent(name: ApiName) -> (r: Reply)
    ensures
        r@ == absence_of(name),
{
    if name == ApiName::GetTranscode {
        refused(-404, "not found")
    } else {
        refused(-404, "stream not found")
    }
}

/// How an error of another part of the server is answered: RTP that cannot be
/// packed as asked is a mistake of the client.
pub fn failed(bad_data_type: bool, msg: &str) -> (r: Reply)
    ensures
        r@ == (ReplyModel::Refused {
            code: if bad_data_type {
                -300
            } else {
                -1
            },
            msg: msg@,
        }),
{
    refused(
        if bad_data_type {
            -300
        } else {
            -1
        },
        msg,
    )
}

// ── counts and states ───────────────────────────────────────────────────

/// How many sessions were ended, in words.
pub fn kicked_text(count: u64) -> (r: String)
    ensures
        r@ == "kicked "@ + decimal(count as int) + " session(s)"@,
{
    let mut out = copy_text("kicked ");
    push_decimal(&mut out, count);
    out.append(" session(s)");
    out
}

/// How many streams were closed, in words.
pub fn closed_text(count: u64) -> (r: String)
    ensures
        r@ == "closed "@ + decimal(count as int) + " stream(s)"@,
{
    let mut out = copy_text("closed ");
    push_decimal(&mut out, count);
    out.append(" stream(s)");
    out
}

/// What of a stream is recorded.
#[derive(Debug, Clone, Copy, PartialEq, Eq, Structural)]
pub struct RecordState {
    pub recording: bool,
    pub hls: bool,
    pub flv: bool,
    pub mp4: bool,
}

/// What of a stream is recorded; nothing when the recorder does not know it.
pub fn record_state(state: Option<(bool, bool, bool)>) -> (r: RecordState)
    ensures
        r == match state {
            Some((hls, flv, mp4)) => RecordState { recording: hls || flv || mp4, hls, flv, mp4 },
            None => RecordState { recording: false, hls: false, flv: false, mp4: false },
        },
{
    match state {
        Some((hls, flv, mp4)) => RecordState { recording: hls || flv || mp4, hls, flv, mp4 },
        None => RecordState { recording: false, hls: false, flv: false, mp4: false },
    }
}

/// How long something lives, never less than nothing.
pub fn alive_seconds(elapsed: i64) -> (r: i64)
    ensures
        r == if elapsed >= 0 {
            elapsed as int
        } else {
            0
        },
{
    if elapsed >= 0 {
        elapsed
    } else {
        0
    }
}

/// A time in whole seconds, given in milliseconds.
pub fn stamp_seconds(millis: i64) -> (r: i64)
    ensures
        r == millis as int / 1000,
{
    if millis >= 0 {
        millis / 1000
    } else {
        let below: i64 = -(millis + 1);
        -(below / 1000) - 1
    }
}

/// How many of the first `n` streams were closed.
pub open spec fn closed_among(closed: Seq<bool>, n: int) -> int
    decreases n,
{
    if n <= 0 {
        0
    } else if closed[n - 1] {
        closed_among(closed, n - 1) + 1
    } else {
        closed_among(closed, n - 1)
    }
}

/// How many streams were closed, given whether each was.
pub fn closed_count(closed: &Vec<bool>) -> (r: u64)
    ensures
        r == closed_among(closed@, closed@.len() as int),
{
    let mut count: u64 = 0;
    let mut i: usize = 0;
    while i < closed.len()
        invariant
            i <= closed@.len(),
            count <= i,
            count == closed_among(closed@, i as int),
        decreases closed@.len() - i,
    {
        if closed[i] {
            count = count + 1;
        }
        i = i + 1;
    }
    count
}

/// The address of a transcoded stream.
pub fn transcode_url(vhost: &str, dst_app: &str, dst_stream: &str) -> (r: String)
    ensures
        r@ == vhost@ + "/"@ + dst_app@ + "/"@ + dst_stream@,
{
    let mut out = copy_text(vhost);
    out.append("/");
    out.append(dst_app);
    out.append("/");
    out.append(dst_stream);
    out
}

/// The name of a codec.
pub open spec fn codec_text_of(codec: CodecId) -> Seq<char> {
    match codec {
        CodecId::H264 => "H264"@,
        CodecId::H265 => "H265"@,
        CodecId::AV1 => "AV1"@,
        CodecId::VP8 => "VP8"@,
        CodecId::VP9 => "VP9"@,
        CodecId::AAC => "AAC"@,
        CodecId::Opus => "Opus"@,
        CodecId::Mp3 => "Mp3"@,
        CodecId::G711A => "G711A"@,
        CodecId::G711U => "G711U"@,
        CodecId::L16 => "L16"@,
    }
}

/// The name of a codec.
pub fn codec_name(codec: CodecId) -> (r: &'static str)
    ensures
        r@ == codec_text_of(codec),
{
    match codec {
        CodecId::H264 => "H264",
        CodecId::H265 => "H265",
        CodecId::AV1 => "AV1",
        CodecId::VP8 => "VP8",
        CodecId::VP9 => "VP9",
        CodecId::AAC => "AAC",
        CodecId::Opus => "Opus",
        CodecId::Mp3 => "Mp3",
        CodecId::G711A => "G711A",
        CodecId::G711U => "G711U",
        CodecId::L16 => "L16",
    }
}

/// What the renewal of certificates is answered: the code, and a message when
/// any could not be renewed.
pub fn reload_outcome(failed: usize) -> (r: Option<Reply>)
    ensures
        failed == 0 ==> r is None,
        failed > 0 ==> r is Some && r->0@ == (ReplyModel::Refused {
            code: -1,
            msg:
                "one or more TLS certificates could not be reloaded; previous certificates remain active"@,
        }),
{
    if failed == 0 {
        None
    } else {
        Some(
            refused(
                -1,
                "one or more TLS certificates could not be reloaded; previous certificates remain active",
            ),
        )
    }
}

// ── configuration ───────────────────────────────────────────────────────

/// The value of a configuration entry as it is shown.
pub open spec fn shown(key: Seq<char>, value: Seq<char>) -> Seq<char> {
    if secret_key(key) {
        "******"@
    } else {
        value
    }
}

/// The value of a configuration entry as it is shown.
pub fn shown_value(key: &str, value: &str) -> (r: String)
    ensures
        r@ == shown(key@, value@),
{
    if is_secret_config_key(key) {
        copy_text("******")
    } else {
        copy_text(value)
    }
}

/// What is shown of a secret does not depend on it.
pub proof fn law_secret_is_not_shown(key: Seq<char>, a: Seq<char>, b: Seq<char>)
    requires
        secret_key(key),
    ensures
        shown(key, a) == shown(key, b),
{
}

/// What is done about a configuration entry that a request sets.
#[derive(Debug, Clone, Copy, PartialEq, Eq, Structural)]
pub enum ConfigAction {
    /// It is no configuration entry.
    Ignore,
    /// There is no such entry.
    Reject,
    /// It is handed to the hooks, and set when they take it.
    SetHook,
    /// It is set, and is the management secret from then on.
    SetSecret,
    /// It is set, and counts after a restart.
    SetValue,
}

/// What is done about an entry; `known` says whether there is one.
pub open spec fn action_of(key: Seq<char>, known: bool) -> ConfigAction {
    if key == "secret"@ || key.len() == 0 {
        ConfigAction::Ignore
    } else if !known {
        ConfigAction::Reject
    } else if begins_with(key, "hook."@) {
        ConfigAction::SetHook
    } else if key == "api.secret"@ {
        ConfigAction::SetSecret
    } else {
        ConfigAction::SetValue
    }
}

/// What is done about an entry.
pub fn config_action(key: &str, known: bool) -> (r: ConfigAction)
    ensures
        r == action_of(key@, known),
{
    let chars = chars_of(key);
    if text_eq(key, "secret") || key.is_empty() {
        ConfigAction::Ignore
    } else if !known {
        ConfigAction::Reject
    } else if starts_with(chars.as_slice(), "hook.") {
        ConfigAction::SetHook
    } else if text_eq(key, "api.secret") {
        ConfigAction::SetSecret
    } else {
        ConfigAction::SetValue
    }
}

/// Whether the value of an entry is written: of a hook only when the hooks
/// took it.
pub fn writes_value(action: ConfigAction, hook_accepted: bool) -> (r: bool)
    ensures
        r == match action {
            ConfigAction::Ignore | ConfigAction::Reject => false,
            ConfigAction::SetHook => hook_accepted,
            ConfigAction::SetSecret | ConfigAction::SetValue => true,
        },
{
    match action {
        ConfigAction::Ignore | ConfigAction::Reject => false,
        ConfigAction::SetHook => hook_accepted,
        ConfigAction::SetSecret | ConfigAction::SetValue => true,
    }
}

/// What became of the entries that a request sets.
pub struct ConfigReport {
    pub changed: u64,
    pub restart_required: Vec<String>,
    pub rejected: Vec<String>,
}

/// The model of a report.
#[verifier::ext_equal]
pub struct ReportModel {
    pub changed: int,
    pub restart_required: Seq<Seq<char>>,
    pub rejected: Seq<Seq<char>>,
}

impl View for ConfigReport {
    type V = ReportModel;

    open spec fn view(&self) -> ReportModel {
        ReportModel {
            changed: self.changed as int,
            restart_required: views(self.restart_required@),
            rejected: views(self.rejected@),
        }
    }
}

/// What was tried with an entry: whether the hooks took it and changed, and
/// whether its value changed.
#[derive(Debug, Clone, Copy, PartialEq, Eq, Structural)]
pub struct ConfigAttempt {
    pub hook_accepted: bool,
    pub hook_changed: bool,
    pub value_changed: bool,
}

/// A report with one more entry.
pub open spec fn reported(
    m: ReportModel,
    key: Seq<char>,
    action: ConfigAction,
    t: ConfigAttempt,
) -> ReportModel {
    match action {
        ConfigAction::Ignore => m,
        ConfigAction::Reject => ReportModel { rejected: m.rejected.push(key), ..m },
        ConfigAction::SetHook => if !t.hook_accepted {
            ReportModel { rejected: m.rejected.push(key), ..m }
        } else if t.hook_changed || t.value_changed {
            ReportModel { changed: m.changed + 1, ..m }
        } else {
            m
        },
        ConfigAction::SetSecret => if t.value_changed {
            ReportModel { changed: m.changed + 1, ..m }
        } else {
            m
        },
        ConfigAction::SetValue => if t.value_changed {
            ReportModel {
                changed: m.changed + 1,
                restart_required: m.restart_required.push(key),
                ..m
            }
        } else {
            m
        },
    }
}

impl ConfigReport {
    pub fn new() -> (r: Self)
        ensures
            r@ == (ReportModel { changed: 0, restart_required: Seq::empty(), rejected: Seq::empty() }),
    {
        let r = Self { changed: 0, restart_required: Vec::new(), rejected: Vec::new() };
        assert(r@ =~= ReportModel {
            changed: 0,
            restart_required: Seq::empty(),
            rejected: Seq::empty(),
        });
        r
    }

    /// Takes what became of an entry; says whether its value is the management
    /// secret from now on.
    pub fn record(&mut self, key: String, action: ConfigAction, t: ConfigAttempt) -> (r: bool)
        requires
            old(self).changed < u64::MAX,
        ensures
            final(self)@ == reported(old(self)@, key@, action, t),
            r == (action == ConfigAction::SetSecret && t.value_changed),
    {
        let ghost before = self@;
        let ghost k = key@;
        match action {
            ConfigAction::Ignore => {},
            ConfigAction::Reject => {
                self.rejected.push(key);
                assert(self@.rejected =~= before.rejected.push(k));
            },
            ConfigAction::SetHook => {
                if !t.hook_accepted {
                    self.rejected.push(key);
                    assert(self@.rejected =~= before.rejected.push(k));
                } else if t.hook_changed || t.value_changed {
                    self.changed = self.changed + 1;
                }
            },
            ConfigAction::SetSecret => {
                if t.value_changed {
                    self.changed = self.changed + 1;
                }
            },
            ConfigAction::SetValue => {
                if t.value_changed {
                    self.changed = self.changed + 1;
                    self.restart_required.push(key);
                    assert(self@.restart_required =~= before.restart_required.push(k));
                }
            },
        }
        action == ConfigAction::SetSecret && t.value_changed
    }
}

/// An entry that counts after a restart counts as changed, and an entry that
/// is rejected changes nothing.
pub proof fn law_report_counts_changes(
    m: ReportModel,
    key: Seq<char>,
    action: ConfigAction,
    t: ConfigAttempt,
)
    requires
        m.restart_required.len() <= m.changed,
    ensures
        reported(m, key, action, t).restart_required.len() <= reported(m, key, action, t).changed,
        reported(m, key, action, t).rejected.len() > m.rejected.len() ==> reported(
            m,
            key,
            action,
            t,
        ).changed == m.changed,
{
}

} // verus!
