//! Inference-API gateway core: request admission, tenant quota accounting,
//! and outbound redaction of sensitive text, with a verified streaming
//! transform over the upstream event protocol.

pub mod config;
pub mod provider;
pub mod quota;
pub mod redact;
pub mod stream;
pub mod text;

pub use redact::luhn_check;
pub use redact::redact_text;
pub use redact::RedactionStats;
