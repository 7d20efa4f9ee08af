//! Incremental analysis core: interned identities, a revision-stamped query
//! store, the symbol index with its transducer-backed search, module and name
//! resolution, function scopes, and the caller-facing analysis operations.

pub mod base;
pub mod cancel;
pub mod db;
pub mod engine;
pub mod extend_selection;
pub mod imp;
pub mod input;
pub mod intern;
pub mod model;
pub mod module;
pub mod nameres;
pub mod query_definitions;
pub mod scope;
pub mod source_change;
pub mod symbol_index;
pub mod syntax;
pub mod text;
