//! Delta plans: what they are made of, and how one is applied.
pub mod base64_text;
pub mod patch;
pub mod protocol;
pub mod rebuild;
