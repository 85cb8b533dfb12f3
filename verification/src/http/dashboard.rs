//! The built-in start page.
use vstd::prelude::*;
use vstd::string::*;
use crate::http::responses::{CachePolicy, content_response, text_response};
use crate::text::{copy_text, decimal, push_decimal};

verus! {

/// The page up to the port of the RTMP address.
pub const PAGE_START: &'static str = r##"<!DOCTYPE html>
<html lang="en">
<head>
<meta charset="UTF-8">
<meta name="viewport" content="width=device-width, initial-scale=1.0">
<title>ZLMediaKit-RS</title>
<script src="https://cdn.jsdelivr.net/npm/hls.js@latest"></script>
<script src="https://cdn.jsdelivr.net/npm/flv.js@latest"></script>
<style>
* { margin:0; padding:0; box-sizing:border-box; }
body { font:14px/1.4 monospace; background:#0d1117; color:#c9d1d9; padding:16px; }
h1 { color:#58a6ff; font-size:20px; margin-bottom:12px; }
h2 { color:#8b949e; font-size:14px; text-transform:uppercase; letter-spacing:1px; margin:16px 0 8px; }
.card { background:#161b22; border:1px solid #30363d; border-radius:6px; padding:12px; margin-bottom:12px; }
table { width:100%; border-collapse:collapse; font-size:13px; }
th,td { text-align:left; padding:6px 8px; border-bottom:1px solid #21262d; }
th { color:#8b949e; }
tr:hover td { background:#1c2128; }
.badge { display:inline-block; padding:2px 8px; border-radius:10px; font-size:11px; }
.badge-green { background:#238636; color:#fff; }
.badge-red { background:#da3633; color:#fff; }
.badge-blue { background:#1f6feb; color:#fff; }
input { background:#0d1117; border:1px solid #30363d; color:#c9d1d9; padding:6px 8px; border-radius:4px; font:13px monospace; width:300px; }
button { background:#238636; color:#fff; border:none; padding:6px 14px; border-radius:4px; cursor:pointer; font:13px monospace; }
button:hover { background:#2ea043; }
button.danger { background:#da3633; }
button.danger:hover { background:#f85149; }
#player-container video { width:100%; max-width:640px; background:#000; border-radius:4px; }
.status-dot { display:inline-block; width:8px; height:8px; border-radius:50%; margin-right:6px; }
.status-dot.on { background:#3fb950; }
.status-dot.off { background:#da3633; }
.toolbar { display:flex; gap:8px; align-items:center; flex-wrap:wrap; }
</style>
</head>
<body>

<h1>ZLMediaKit-RS &middot; Monitoring Dashboard</h1>

<div class="card" style="display:flex; gap:24px; flex-wrap:wrap;">
  <div><span class="status-dot on"></span><strong id="server-name">zlmediakit-rs</strong> <span id="server-version">v0.1.0</span></div>
  <div><strong>Streams:</strong> <span id="stream-count">0</span></div>
  <div><strong>Players:</strong> <span id="player-count">0</span></div>
  <div><button onclick="refreshStreams()" style="font-size:11px; padding:3px 10px;">&#x21bb; Refresh</button></div>
</div>

<div class="card">
  <h2>Active Streams</h2>
  <table><thead><tr>
    <th>App</th><th>Stream</th><th>Status</th><th>Viewers</th><th>Alive</th><th>Video</th><th>Audio</th><th>Actions</th>
  </tr></thead><tbody id="stream-table-body">
    <tr><td colspan="8" style="text-align:center; color:#8b949e;">No active streams</td></tr>
  </tbody></table>
</div>

<div class="card">
  <h2>Player</h2>
  <div class="toolbar">
    <input id="stream-url" type="text" value="/live/test/hls.m3u8" placeholder="Stream URL" />
    <button onclick="playStream()">&#x25b6; Play</button>
    <button class="danger" onclick="stopPlayer()">&#x25a0; Stop</button>
    <select id="player-type" style="background:#0d1117; border:1px solid #30363d; color:#c9d1d9; padding:6px; border-radius:4px;">
      <option value="auto">Auto</option>
      <option value="hls">HLS</option>
      <option value="flv">HTTP-FLV</option>
      <option value="wsflv">WebSocket-FLV</option>
    </select>
  </div>
  <div id="player-container" style="margin-top:8px;display:none;">
    <video id="video-player" controls autoplay muted></video>
    <div id="player-info" style="font-size:12px; color:#8b949e; margin-top:4px;"></div>
  </div>
  <div id="player-error" style="color:#f85149; font-size:13px; margin-top:4px; display:none;"></div>
</div>

<div class="card">
  <h2>Stream URLs</h2>
  <table><tr><td>RTMP</td><td><code>rtmp://host:"##;

/// Between the ports of the RTMP and RTSP addresses.
pub const RTMP_TO_RTSP: &'static str = r##"/live/stream</code></td></tr>
  <tr><td>RTSP</td><td><code>rtsp://host:"##;

/// Between the ports of the RTSP and HTTP-FLV addresses.
pub const RTSP_TO_FLV: &'static str = r##"/live/stream</code></td></tr>
  <tr><td>HTTP-FLV</td><td><code>http://host:"##;

/// Between the ports of the HTTP-FLV and HLS addresses.
pub const FLV_TO_HLS: &'static str = r##"/live/stream.flv</code></td></tr>
  <tr><td>HLS</td><td><code>http://host:"##;

/// Between the ports of the two HLS addresses.
pub const HLS_TO_ALTERNATIVE: &'static str = r##"/live/stream/hls.m3u8</code></td></tr>
  <tr><td>HLS (alt)</td><td><code>http://host:"##;

/// Between the ports of the second HLS and the WebSocket addresses.
pub const ALTERNATIVE_TO_WEBSOCKET: &'static str = r##"/live/stream.m3u8</code></td></tr>
  <tr><td>WebSocket-FLV</td><td><code>ws://host:"##;

/// Between the ports of the WebSocket and management addresses.
pub const WEBSOCKET_TO_API: &'static str = r##"/live/stream.flv</code></td></tr>
  <tr><td>API</td><td><code>http://host:"##;

/// The page behind the port of the management address.
pub const PAGE_END: &'static str = r##"/index/api/getMediaList</code></td></tr>
</table>
</div>

<script>
let refreshTimer = null;
let currentPlayer = null;

function refreshStreams() {
  fetch('/index/api/getMediaList')
    .then(r => r.json())
    .then(data => {
      const list = data.result || [];
      document.getElementById('stream-count').textContent = list.length;
      const tb = document.getElementById('stream-table-body');
      if (list.length === 0) {
        tb.innerHTML = '<tr><td colspan="8" style="text-align:center;color:#8b949e;">No active streams</td></tr>';
        document.getElementById('player-count').textContent = '0';
        return;
      }
      let totalViewers = 0;
      tb.innerHTML = list.map(function(s) {
        totalViewers += s.readerCount || 0;
        var vtracks = (s.tracks || []).filter(function(t) { return t.codec_type === 'video'; });
        var atracks = (s.tracks || []).filter(function(t) { return t.codec_type === 'audio'; });
        var vinfo = vtracks.map(function(t) { return t.codec_id + ' ' + (t.width||'?')+'x'+(t.height||'?'); }).join(', ') || '-';
        var ainfo = atracks.map(function(t) { return t.codec_id+' '+((t.sample_rate||0)/1000).toFixed(1)+'kHz '+((t.channels||0))+'ch'; }).join(', ') || '-';
        var alive = s.createTime ? Math.floor((Date.now() - s.createTime) / 1000) + 's' : '-';
        var app = s.app || 'live';
        var stream = s.stream || '';
        var streamDisp = s.stream || '-';
        return '<tr>' +
          '<td>' + (s.app||'-') + '</td>' +
          '<td><a href="#" onclick="setStreamUrl(\'' + app + '\',\'' + stream + '\');return false;">' + streamDisp + '</a></td>' +
          '<td><span class="badge badge-green">live</span></td>' +
          '<td>' + (s.readerCount||0) + '</td>' +
          '<td>' + alive + '</td>' +
          '<td style="font-size:11px;">' + vinfo + '</td>' +
          '<td style="font-size:11px;">' + ainfo + '</td>' +
          '<td><button class="danger" style="font-size:11px;padding:2px 6px;" onclick="closeStream(\'' + app + '\',\'' + stream + '\')">X</button></td>' +
          '</tr>';
      }).join('');
      document.getElementById('player-count').textContent = totalViewers;
    })
    .catch(() => {});
}

function closeStream(app, stream) {
  if (!confirm('Close stream: ' + app + '/' + stream + '?')) return;
  fetch('/index/api/closeStream?app='+app+'&stream='+stream+'&vhost=__defaultVhost__')
    .then(r => r.json()).then(() => refreshStreams()).catch(() => {});
}

function setStreamUrl(app, stream) {
  const sel = document.getElementById('player-type').value;
  if (sel === 'wsflv')
    document.getElementById('stream-url').value = 'ws://' + window.location.host + '/' + app + '/' + stream + '.flv';
  else if (sel === 'hls' || sel === 'auto')
    document.getElementById('stream-url').value = '/' + app + '/' + stream + '/hls.m3u8';
  else
    document.getElementById('stream-url').value = '/' + app + '/' + stream + '.flv';
  playStream();
}

function playStream() {
  stopPlayer();
  const url = document.getElementById('stream-url').value.trim();
  if (!url) return;
  const playerType = document.getElementById('player-type').value;

  const container = document.getElementById('player-container');
  const video = document.getElementById('video-player');
  const info = document.getElementById('player-info');
  const errEl = document.getElementById('player-error');
  errEl.style.display = 'none';
  container.style.display = 'block';

  const isAbsolute = url.startsWith('http://') || url.startsWith('https://') || url.startsWith('ws://');
  const fullUrl = isAbsolute ? url : window.location.protocol + '//' + window.location.host + url;

  if (url.endsWith('.m3u8') || playerType === 'hls') {
    info.textContent = 'HLS: ' + fullUrl;
    if (Hls.isSupported()) {
      const hls = new Hls();
      hls.loadSource(fullUrl);
      hls.attachMedia(video);
      hls.on(Hls.Events.MANIFEST_PARSED, () => video.play().catch(() => {}));
      hls.on(Hls.Events.ERROR, (e, d) => {
        if (d.fatal) { errEl.textContent = 'HLS error: ' + d.type + ' ' + d.details; errEl.style.display = 'block'; }
      });
      currentPlayer = hls;
    } else if (video.canPlayType('application/vnd.apple.mpegurl')) {
      video.src = fullUrl;
      currentPlayer = video;
    } else {
      errEl.textContent = 'HLS not supported in this browser';
      errEl.style.display = 'block';
    }
  } else if (url.startsWith('ws://') || url.endsWith('.flv') || playerType === 'flv' || playerType === 'wsflv') {
    const label = url.startsWith('ws://') ? 'WebSocket-FLV' : 'HTTP-FLV';
    info.textContent = label + ': ' + (url.startsWith('ws://') ? url : fullUrl);
    if (flvjs.isSupported()) {
      const f = flvjs.createPlayer({ type: 'flv', url: url.startsWith('ws://') ? url : fullUrl, isLive: true }, { enableWorker: false });
      f.attachMediaElement(video);
      f.load();
      f.play();
      currentPlayer = f;
    } else {
      errEl.textContent = 'FLV not supported in this browser';
      errEl.style.display = 'block';
    }
  } else {
    info.textContent = url;
    video.src = fullUrl;
    currentPlayer = video;
  }
}

function stopPlayer() {
  const video = document.getElementById('video-player');
  if (currentPlayer) {
    if (currentPlayer.destroy) currentPlayer.destroy();
    else if (currentPlayer.pause) currentPlayer.pause();
    video.src = '';
    currentPlayer = null;
  }
  document.getElementById('player-container').style.display = 'none';
}

refreshStreams();
if (refreshTimer) clearInterval(refreshTimer);
refreshTimer = setInterval(refreshStreams, 3000);
</script>
</body>
</html>"##;

/// The page of a server that listens at the given port.
pub open spec fn dashboard(port: int) -> Seq<char> {
    PAGE_START@ + decimal(port) + RTMP_TO_RTSP@ + decimal(port) + RTSP_TO_FLV@ + decimal(port)
        + FLV_TO_HLS@ + decimal(port) + HLS_TO_ALTERNATIVE@ + decimal(port)
        + ALTERNATIVE_TO_WEBSOCKET@ + decimal(port) + WEBSOCKET_TO_API@ + decimal(port)
        + PAGE_END@
}

/// The page of a server that listens at the given port.
pub fn build_dashboard_html(port: u16) -> (r: String)
    ensures
        r@ == dashboard(port as int),
{
    let mut out = copy_text(PAGE_START);
    push_decimal(&mut out, port as u64);
    out.append(RTMP_TO_RTSP);
    push_decimal(&mut out, port as u64);
    out.append(RTSP_TO_FLV);
    push_decimal(&mut out, port as u64);
    out.append(FLV_TO_HLS);
    push_decimal(&mut out, port as u64);
    out.append(HLS_TO_ALTERNATIVE);
    push_decimal(&mut out, port as u64);
    out.append(ALTERNATIVE_TO_WEBSOCKET);
    push_decimal(&mut out, port as u64);
    out.append(WEBSOCKET_TO_API);
    push_decimal(&mut out, port as u64);
    out.append(PAGE_END);
    out
}

/// The response with the page.
pub fn dashboard_response(port: u16) -> (r: String)
    ensures
        r@ == text_response("text/html"@, dashboard(port as int), false, CachePolicy::Unsaid),
{
    let html = build_dashboard_html(port);
    content_response("text/html", html.as_str(), false, CachePolicy::Unsaid)
}

} // verus!
