//! Domain categorization engine: a verified firewall-style classifier that
//! assigns security/ads/tracking/gambling categories to hostnames.
//!
//! The crate builds an immutable, sorted domain dictionary from normalized
//! list sources, prunes entries whose classification an ancestor domain
//! already implies, and answers category queries by walking a hostname up
//! through its parent domains.  A write-once override registry extends the
//! dictionary with caller-supplied exact-match sets.

pub mod aggregate;
pub mod artifact;
pub mod category;
pub mod chars;
pub mod dict;
pub mod normalize;
pub mod prune;
pub mod store;
pub mod url;

pub use aggregate::Aggregator;
pub use artifact::{deserialize, serialize, try_serialize, MalformedArtifact};
pub use category::Category;
pub use chars::str_to_chars;
pub use dict::{BuildError, Dictionary, DomainEntry};
pub use normalize::{normalize_line, Dialect};
pub use prune::{build_dictionary, prune_entries};
pub use store::{CategoryStore, OverrideSet, OverrideTag, RegistrationConflict};
pub use url::get_host_from_url;
