//! An embeddable, typed key-value database core layered over an ordered
//! key-value store: byte-buffer entries, a typed byte codec, packed integers,
//! the reversible ordinal suffix of non-unique index keys, comparators, an
//! index-maintaining primary database with cursors, a named-handle cache pool
//! with tri-criterion eviction, and the schema and instance catalog on top.

pub mod cache;
pub mod comparator;
pub mod config;
pub mod cursor;
pub mod daemon;
pub mod database;
pub mod entry;
pub mod error;
pub mod instance;
pub mod io;
pub mod model;
pub mod packed_int;
pub mod schema;
pub mod store;
pub mod suffix;
pub mod table;
