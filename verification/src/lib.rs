//! Reversible sanitization of password-vault JSON exports, and analysis and
//! merging of duplicate login items.
use vstd::prelude::*;

pub mod analyze;
pub mod apply;
pub mod endpoint;
pub mod group;
pub mod json;
pub mod laws;
pub mod mapfile;
pub mod markdown;
pub mod merge;
pub mod merge_laws;
pub mod records;
pub mod relate;
pub mod report;
pub mod restore;
pub mod reviews;
pub mod sanitize;
pub mod serial;
pub mod strmap;
pub mod strset;
pub mod text;
pub mod tree;

pub use analyze::{
    analyze_merge_candidates, AnalysisSummary, AnalyzeOptions, MergeAnalysis, MergeCandidate,
    PasswordConflict, PasswordVariant, ReviewGroup,
};
pub use apply::{apply_recommended_merges, parse_manual_groups, MergeApplyOptions, MergeApplyReport};
pub use json::{JsonNumber, JsonValue};
pub use mapfile::{check_mapping_version, is_blank, MappingError};
pub use markdown::analysis_to_markdown;
pub use report::ReportItem;
pub use restore::{restore_json, sanitize_fits_exec, string_value_count};
pub use sanitize::{sanitize_json, MappingFile, RestoreReport, SanitizeReport, Sanitizer};

verus! {

} // verus!
