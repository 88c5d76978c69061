//! Harvesting bookkeeping for a catalog of coding problems: catalog parsing,
//! recovery of what is already stored, the fetch decision loop, extraction of
//! the categorical "type" field and the coupon-collector coverage estimate.
pub mod catalog;
pub mod coverage;
pub mod fetch_state;
pub mod orchestrator;
pub mod text;
pub mod vocabulary;

pub use catalog::{parse_catalog, parse_u16, CatalogError, Problem};
pub use coverage::{compute_coupon_probability, coverage_estimate, nth_harmonic, CouponReport, Coverage};
pub use fetch_state::{file_id_of, get_fetched_problems, metadata_file_name};
pub use orchestrator::{FetchRun, Outcome, Step};
pub use text::{chars_of, contains, lines, split_chars, string_of};
pub use vocabulary::{extract_type_token, get_true_types, insert_unique, is_modified_type, scan_types, ScanReport};
