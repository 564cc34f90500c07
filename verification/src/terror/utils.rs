//! Tracker helpers shared with the client: the percent-encoding of an info
//! hash and the tracker request.
pub use crate::client::{percent_encode_hash, TrackerRequest};
