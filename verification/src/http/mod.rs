//! The HTTP front end: WebSocket framing, requests, the management interface
//! and the pull client.
pub mod api;
pub mod api_answers;
pub mod api_laws;
pub mod api_params;
pub mod body;
pub mod dash_window;
pub mod dashboard;
pub mod file_laws;
pub mod files;
pub mod live;
pub mod play_laws;
pub mod pull;
pub mod pull_laws;
pub mod query;
pub mod query_laws;
pub mod recordings;
pub mod reply;
pub mod request;
pub mod responses;
pub mod router;
pub mod server_config;
pub mod snapshot;
pub mod upstream;
pub mod url;
pub mod url_laws;
pub mod ws;
pub mod ws_laws;
pub mod ws_session;
