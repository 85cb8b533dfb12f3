//! Verified core of a streaming media server: the MP4 / fragmented MP4
//! containers, DASH manifests, WebSocket framing, and the request handling
//! rules of the HTTP front end.
pub mod bytes;
pub mod http;
pub mod media;
pub mod mp4;
pub mod order;
pub mod text;
pub mod text_laws;
