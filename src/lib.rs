//! Canonical JSON values and device key identifier validation.

pub mod error;
pub mod device_key_id;
pub mod text;
pub mod json;
pub mod canonical_json;

pub use error::Error;
pub use device_key_id::validate;
pub use json::{JsonNumber, JsonValue};
pub use canonical_json::{CanonicalJsonError, CanonicalJsonValue};
