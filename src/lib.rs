//! Zero-copy parser for mail-message header blocks, with case-insensitive
//! header lookup and a marker-pair extractor.
pub mod breaker;
pub mod error;
pub mod header;
pub mod utils;

pub use breaker::EmailBreaker;
pub use error::ParseError;
pub use header::{MailHeader, MailHeaderMap};
pub use utils::extract_between_pair_marks;
