//! What the management interface tells of the configuration.
use vstd::prelude::*;
use crate::http::api_answers::{shown, shown_value};
use crate::http::query::secret_key;
use crate::text::{copy_text, finishes_with, lower_char, lowered, text_eq};

verus! {

/// The answer about the configuration: every entry as it is shown, whether a
/// management secret is set, and the settings of the parts of the server.
pub struct ServerConfig {
    pub entries: Vec<(String, String)>,
    /// What is shown in place of the management secret.
    pub secret: String,
    pub secret_configured: bool,
    pub api_debug: String,
    pub api_port: String,
    pub rtmp_port: String,
    pub rtsp_port: String,
    pub http_port: String,
    pub webrtc_enabled: String,
    pub webrtc_port: String,
    pub srt_enabled: String,
    pub srt_port: String,
    pub gb28181_enabled: String,
    pub gb28181_sip_port: String,
    pub gb28181_media_port: String,
    pub record_path: String,
    pub record_hls: String,
    pub record_mp4: String,
    pub record_flv: String,
    pub media_server_id: String,
    pub flow_threshold: String,
}

/// The model of the answer about the configuration.
#[verifier::ext_equal]
pub struct ServerConfigModel {
    pub entries: Seq<(Seq<char>, Seq<char>)>,
    pub secret: Seq<char>,
    pub secret_configured: bool,
    pub api_debug: Seq<char>,
    pub api_port: Seq<char>,
    pub rtmp_port: Seq<char>,
    pub rtsp_port: Seq<char>,
    pub http_port: Seq<char>,
    pub webrtc_enabled: Seq<char>,
    pub webrtc_port: Seq<char>,
    pub srt_enabled: Seq<char>,
    pub srt_port: Seq<char>,
    pub gb28181_enabled: Seq<char>,
    pub gb28181_sip_port: Seq<char>,
    pub gb28181_media_port: Seq<char>,
    pub record_path: Seq<char>,
    pub record_hls: Seq<char>,
    pub record_mp4: Seq<char>,
    pub record_flv: Seq<char>,
    pub media_server_id: Seq<char>,
    pub flow_threshold: Seq<char>,
}

/// Names and values as texts.
pub open spec fn texts(entries: Seq<(String, String)>) -> Seq<(Seq<char>, Seq<char>)> {
    Seq::new(entries.len(), |i: int| (entries[i].0@, entries[i].1@))
}

impl View for ServerConfig {
    type V = ServerConfigModel;

    open spec fn view(&self) -> ServerConfigModel {
        ServerConfigModel {
            entries: texts(self.entries@),
            secret: self.secret@,
            secret_configured: self.secret_configured,
            api_debug: self.api_debug@,
            api_port: self.api_port@,
            rtmp_port: self.rtmp_port@,
            rtsp_port: self.rtsp_port@,
            http_port: self.http_port@,
            webrtc_enabled: self.webrtc_enabled@,
            webrtc_port: self.webrtc_port@,
            srt_enabled: self.srt_enabled@,
            srt_port: self.srt_port@,
            gb28181_enabled: self.gb28181_enabled@,
            gb28181_sip_port: self.gb28181_sip_port@,
            gb28181_media_port: self.gb28181_media_port@,
            record_path: self.record_path@,
            record_hls: self.record_hls@,
            record_mp4: self.record_mp4@,
            record_flv: self.record_flv@,
            media_server_id: self.media_server_id@,
            flow_threshold: self.flow_threshold@,
        }
    }
}

/// The entries of a configuration as they are shown.
pub open spec fn shown_entries(config: Seq<(Seq<char>, Seq<char>)>) -> Seq<
    (Seq<char>, Seq<char>),
> {
    Seq::new(config.len(), |i: int| (config[i].0, shown(config[i].0, config[i].1)))
}

/// The shown value of the first entry from `i` on with the given name; empty
/// when there is none.
pub open spec fn setting_from(
    config: Seq<(Seq<char>, Seq<char>)>,
    key: Seq<char>,
    i: int,
) -> Seq<char>
    decreases config.len() - i,
{
    if i < 0 || i >= config.len() {
        ""@
    } else if config[i].0 == key {
        shown(key, config[i].1)
    } else {
        setting_from(config, key, i + 1)
    }
}

/// The shown value of a setting; empty when it is not configured.
pub open spec fn setting(config: Seq<(Seq<char>, Seq<char>)>, key: Seq<char>) -> Seq<char> {
    setting_from(config, key, 0)
}

/// The answer about a configuration, given the management secret.
pub open spec fn answer_about(
    config: Seq<(Seq<char>, Seq<char>)>,
    secret: Seq<char>,
) -> ServerConfigModel {
    ServerConfigModel {
        entries: shown_entries(config),
        secret: "******"@,
        secret_configured: secret.len() > 0,
        api_debug: setting(config, "api.apiDebug"@),
        api_port: setting(config, "api.port"@),
        rtmp_port: setting(config, "rtmp.port"@),
        rtsp_port: setting(config, "rtsp.port"@),
        http_port: setting(config, "http.port"@),
        webrtc_enabled: setting(config, "webrtc.enabled"@),
        webrtc_port: setting(config, "webrtc.port"@),
        srt_enabled: setting(config, "srt.enabled"@),
        srt_port: setting(config, "srt.port"@),
        gb28181_enabled: setting(config, "gb28181.enabled"@),
        gb28181_sip_port: setting(config, "gb28181.sip_port"@),
        gb28181_media_port: setting(config, "gb28181.media_port"@),
        record_path: setting(config, "record.path"@),
        record_hls: setting(config, "record.hls"@),
        record_mp4: setting(config, "record.mp4"@),
        record_flv: setting(config, "record.flv"@),
        media_server_id: setting(config, "general.mediaServerId"@),
        flow_threshold: setting(config, "general.flowThreshold"@),
    }
}

fn find_setting(config: &Vec<(String, String)>, key: &str) -> (r: String)
    ensures
        r@ == setting(texts(config@), key@),
{
    let ghost models = texts(config@);
    let mut i: usize = 0;
    while i < config.len()
        invariant
            i <= config@.len(),
            models == texts(config@),
            setting_from(models, key@, i as int) == setting(models, key@),
        decreases config@.len() - i,
    {
        assert(models[i as int] == (config@[i as int].0@, config@[i as int].1@));
        if text_eq(config[i].0.as_str(), key) {
            return shown_value(key, config[i].1.as_str());
        }
        i = i + 1;
    }
    copy_text("")
}

fn show_entries(config: &Vec<(String, String)>) -> (r: Vec<(String, String)>)
    ensures
        texts(r@) == shown_entries(texts(config@)),
{
    let mut out: Vec<(String, String)> = Vec::new();
    let mut i: usize = 0;
    while i < config.len()
        invariant
            i <= config@.len(),
            out@.len() == i,
            forall|j: int|
                0 <= j < i ==> (#[trigger] out@[j]).0@ == config@[j].0@ && out@[j].1@ == shown(
                    config@[j].0@,
                    config@[j].1@,
                ),
        decreases config@.len() - i,
    {
        let key = config[i].0.as_str();
        out.push((copy_text(key), shown_value(key, config[i].1.as_str())));
        i = i + 1;
    }
    assert(texts(out@) =~= shown_entries(texts(config@)));
    out
}

/// The answer about a configuration, given the management secret.
pub fn config_report(config: &Vec<(String, String)>, secret: &str) -> (r: ServerConfig)
    ensures
        r@ == answer_about(texts(config@), secret@),
{
    ServerConfig {
        entries: show_entries(config),
        secret: copy_text("******"),
        secret_configured: !secret.is_empty(),
        api_debug: find_setting(config, "api.apiDebug"),
        api_port: find_setting(config, "api.port"),
        rtmp_port: find_setting(config, "rtmp.port"),
        rtsp_port: find_setting(config, "rtsp.port"),
        http_port: find_setting(config, "http.port"),
        webrtc_enabled: find_setting(config, "webrtc.enabled"),
        webrtc_port: find_setting(config, "webrtc.port"),
        srt_enabled: find_setting(config, "srt.enabled"),
        srt_port: find_setting(config, "srt.port"),
        gb28181_enabled: find_setting(config, "gb28181.enabled"),
        gb28181_sip_port: find_setting(config, "gb28181.sip_port"),
        gb28181_media_port: find_setting(config, "gb28181.media_port"),
        record_path: find_setting(config, "record.path"),
        record_hls: find_setting(config, "record.hls"),
        record_mp4: find_setting(config, "record.mp4"),
        record_flv: find_setting(config, "record.flv"),
        media_server_id: find_setting(config, "general.mediaServerId"),
        flow_threshold: find_setting(config, "general.flowThreshold"),
    }
}

// ── laws ────────────────────────────────────────────────────────────────

/// Whether two configurations differ only in the texts of secrets.
pub open spec fn differ_in_secrets(
    a: Seq<(Seq<char>, Seq<char>)>,
    b: Seq<(Seq<char>, Seq<char>)>,
) -> bool {
    a.len() == b.len() && forall|i: int|
        0 <= i < a.len() ==> (#[trigger] a[i]).0 == b[i].0 && (secret_key(a[i].0) || a[i].1
            == b[i].1)
}

proof fn lemma_setting_hides(
    a: Seq<(Seq<char>, Seq<char>)>,
    b: Seq<(Seq<char>, Seq<char>)>,
    key: Seq<char>,
    i: int,
)
    requires
        differ_in_secrets(a, b),
        0 <= i <= a.len(),
    ensures
        setting_from(a, key, i) == setting_from(b, key, i),
    decreases a.len() - i,
{
    if i < a.len() {
        assert(a[i].0 == b[i].0);
        lemma_setting_hides(a, b, key, i + 1);
    }
}

/// The whole answer shows no secret: configurations that differ only in the
/// texts of secrets are answered alike, whatever management secret is set;
/// and every secret entry is masked.
pub proof fn law_answer_hides_secrets(
    a: Seq<(Seq<char>, Seq<char>)>,
    b: Seq<(Seq<char>, Seq<char>)>,
    secret_a: Seq<char>,
    secret_b: Seq<char>,
)
    requires
        differ_in_secrets(a, b),
        (secret_a.len() > 0) == (secret_b.len() > 0),
    ensures
        answer_about(a, secret_a) == answer_about(b, secret_b),
        answer_about(a, secret_a).secret == "******"@,
        forall|i: int|
            0 <= i < a.len() && secret_key((#[trigger] answer_about(a, secret_a).entries[i]).0)
                ==> answer_about(a, secret_a).entries[i].1 == "******"@,
{
    assert forall|key: Seq<char>| #[trigger] setting(a, key) == setting(b, key) by {
        lemma_setting_hides(a, b, key, 0);
    }
    assert forall|i: int| 0 <= i < a.len() implies shown_entries(a)[i] == shown_entries(b)[i] by {
        assert(a[i].0 == b[i].0);
    }
    assert(shown_entries(a) =~= shown_entries(b));
}

proof fn lemma_no_secret(key: Seq<char>)
    requires
        key.len() > 7,
        lower_char(key[key.len() - 7]) != '.',
    ensures
        !secret_key(key),
{
    reveal_strlit("secret");
    reveal_strlit(".secret");
    let low = lowered(key);
    assert(lowered("secret"@).len() == 6);
    if finishes_with(low, ".secret"@) {
        assert(low.skip(low.len() - 7)[0] == low[low.len() - 7]);
    }
}

/// The settings that the answer names.
pub open spec fn setting_keys() -> Seq<Seq<char>> {
    seq![
        "api.apiDebug"@,
        "api.port"@,
        "rtmp.port"@,
        "rtsp.port"@,
        "http.port"@,
        "webrtc.enabled"@,
        "webrtc.port"@,
        "srt.enabled"@,
        "srt.port"@,
        "gb28181.enabled"@,
        "gb28181.sip_port"@,
        "gb28181.media_port"@,
        "record.path"@,
        "record.hls"@,
        "record.mp4"@,
        "record.flv"@,
        "general.mediaServerId"@,
        "general.flowThreshold"@,
    ]
}

proof fn lemma_keys_are_no_secrets(n: int)
    requires
        0 <= n < setting_keys().len(),
    ensures
        !secret_key(setting_keys()[n]),
{
    let all = setting_keys();
    reveal_strlit("api.apiDebug");
    reveal_strlit("api.port");
    reveal_strlit("rtmp.port");
    reveal_strlit("rtsp.port");
    reveal_strlit("http.port");
    reveal_strlit("webrtc.enabled");
    reveal_strlit("webrtc.port");
    reveal_strlit("srt.enabled");
    reveal_strlit("srt.port");
    reveal_strlit("gb28181.enabled");
    reveal_strlit("gb28181.sip_port");
    reveal_strlit("gb28181.media_port");
    reveal_strlit("record.path");
    reveal_strlit("record.hls");
    reveal_strlit("record.mp4");
    reveal_strlit("record.flv");
    reveal_strlit("general.mediaServerId");
    reveal_strlit("general.flowThreshold");
    assert(all[0] == "api.apiDebug"@);
    assert(all[1] == "api.port"@);
    assert(all[2] == "rtmp.port"@);
    assert(all[3] == "rtsp.port"@);
    assert(all[4] == "http.port"@);
    assert(all[5] == "webrtc.enabled"@);
    assert(all[6] == "webrtc.port"@);
    assert(all[7] == "srt.enabled"@);
    assert(all[8] == "srt.port"@);
    assert(all[9] == "gb28181.enabled"@);
    assert(all[10] == "gb28181.sip_port"@);
    assert(all[11] == "gb28181.media_port"@);
    assert(all[12] == "record.path"@);
    assert(all[13] == "record.hls"@);
    assert(all[14] == "record.mp4"@);
    assert(all[15] == "record.flv"@);
    assert(all[16] == "general.mediaServerId"@);
    assert(all[17] == "general.flowThreshold"@);
    lemma_no_secret(all[n]);
}

/// A setting that the answer names is no secret: it is shown as its first
/// entry has it.
pub proof fn law_settings_are_as_configured(
    config: Seq<(Seq<char>, Seq<char>)>,
    key: Seq<char>,
    k: int,
)
    requires
        setting_keys().contains(key),
        0 <= k < config.len(),
        config[k].0 == key,
        forall|j: int| 0 <= j < k ==> (#[trigger] config[j]).0 != key,
    ensures
        setting(config, key) == config[k].1,
{
    let n = choose|n: int| 0 <= n < setting_keys().len() && setting_keys()[n] == key;
    lemma_keys_are_no_secrets(n);
    lemma_setting_at(config, key, 0, k);
}

proof fn lemma_setting_at(config: Seq<(Seq<char>, Seq<char>)>, key: Seq<char>, i: int, k: int)
    requires
        0 <= i <= k < config.len(),
        config[k].0 == key,
        forall|j: int| i <= j < k ==> (#[trigger] config[j]).0 != key,
    ensures
        setting_from(config, key, i) == shown(key, config[k].1),
    decreases k - i,
{
    if i < k {
        assert(config[i].0 != key);
        lemma_setting_at(config, key, i + 1, k);
    }
}

} // verus!
