//! Packs a source tree's files into size-bounded text chunks: pattern
//! filtering, priority scoring with a recency boost, ordering, and packing
//! by bytes or by whitespace-delimited tokens.
pub mod binary;
pub mod chunk;
pub mod config;
pub mod glob;
pub mod history;
pub mod order;
pub mod paths;
pub mod pattern;
pub mod priority;
pub mod size;
pub mod text;

pub use binary::{file_extension, is_binary_extension, looks_binary};
pub use chunk::{
    can_pack, chunk_file_name, pack_chunks, threshold_of, Chunk, DEFAULT_CHUNK_SIZE,
    HEADER_OVERHEAD,
};
pub use config::{validate_config, ConfigError, IgnorePatterns, YekConfig};
pub use glob::glob_to_regex;
pub use history::parse_commit_log;
pub use order::{entry_less, sort_entries};
pub use paths::{is_effectively_absolute, is_vcs_metadata, normalize_path};
pub use pattern::{keep_path, pattern_to_regex, IgnoreMatchers, Matcher};
pub use priority::{
    combined_priority, compute_recentness_boost, get_file_priority, CompiledRules, PriorityRule, MAX_RECENCY_BOOST,
};
pub use size::{parse_size_input, SizeError};
