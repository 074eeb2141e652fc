//! Discovery of "tags" release roots in a recursive repository listing, and
//! aggregation of the externals references that do not themselves point at a
//! tagged location.

pub mod aggregate;
pub mod index;
pub mod segments;
pub mod tags;

pub use aggregate::aggregate;
pub use aggregate::author_for_root;
pub use aggregate::member_paths;
pub use aggregate::parse_violations;
pub use aggregate::AggregationResult;
pub use index::full_path;
pub use index::get_tags_map;
pub use index::ListingEntry;
pub use index::PathKind;
pub use tags::find_valid_tag_name;
pub use tags::remove_last_slash;
