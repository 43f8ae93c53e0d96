//! Text compression that looks at the shape of its input first.
pub mod base64_strip;
pub mod cascade_dedup;
pub mod compaction;
pub mod content_detect;
pub mod diff_compress;
pub mod doctor;
pub mod error_keywords;
pub mod invariants;
pub mod json;
pub mod json_compress;
pub mod kompress;
pub mod line_dedup;
pub mod line_number_strip;
pub mod log_compress;
pub mod order;
pub mod patterns;
pub mod pixel;
pub mod prune_laws;
pub mod punctuation_restore;
pub mod report;
pub mod route;
pub mod search_compress;
pub mod semantic_dedup;
pub mod sentences;
pub mod session_digest;
pub mod session_prune;
pub mod session_stats;
pub mod stage_timing;
pub mod text;
pub mod toon;
pub mod toon_laws;
pub mod toon_round_trip;
