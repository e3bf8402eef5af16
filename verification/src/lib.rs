//! Append-only containers behind categorical (dictionary-encoded) string arrays:
//! a bucketed append-only vector with stable slot placement, and an append-only
//! string dictionary that assigns dense integer codes.

pub mod append_only_vec;
pub mod dictionary;
pub mod dictionary_spec;
pub mod integer;
pub mod category_dispatch;
