//! ISO base media files: boxes, sample tables, muxing and demuxing.
pub mod audio_record;
pub mod boxes;
pub mod dash;
pub mod demuxer;
pub mod demuxer_laws;
pub mod entries;
pub mod fmp4;
pub mod fmp4_laws;
pub mod fragment_laws;
pub mod fragment_roundtrip;
pub mod fragmented_demuxer;
pub mod head_laws;
pub mod header_laws;
pub mod layout;
pub mod layout_laws;
pub mod manifest_laws;
pub mod muxer;
pub mod muxer_laws;
pub mod record_laws;
pub mod recorder;
pub mod records;
pub mod roundtrip;
pub mod segment_laws;
pub mod tables;
pub mod vod;
pub mod vod_laws;
pub mod writer;
