//! An in-memory store of localized messages, keyed by namespace, code and
//! language, together with a codec between the store's records and a flat
//! tabular shape (a header row naming the language columns, one row per
//! namespace and code).

pub mod codec;
pub mod i18n;
pub mod laws;
pub mod order;
pub mod text_map;
