//! A texture bag: a registry of texture identifiers mapped to image locators,
//! and a cache of materialized texture handles with lazy or eager loading
//! and explicit eviction.

mod bag;
mod laws;
mod registry;

pub use bag::{cache_after_get, lookup, made_by, BagError, Lookup, TextureBag};
pub use laws::{
    lemma_forget_absent_is_noop, lemma_forget_then_get_reloads, lemma_second_get_hits,
    lemma_unregistered_is_unknown,
};
pub use registry::{
    config_path_or_default, entries_map, entries_view, field_view, ids_distinct, is_json,
    object_field, ConfigError, Registry,
    DEFAULT_CONFIG_PATH,
};
