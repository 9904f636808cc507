//! Configuration shapes for instances, schemas and tables.
//!
//! Cache-related settings are optional: `max_cache` caps how many handles a
//! pool keeps, `min_live_time` protects recently used handles from eviction,
//! and `max_idle_time` evicts handles idle for too long.  Times are in
//! milliseconds.

use vstd::prelude::*;

verus! {

/// Optional cache-eviction settings, read by the pool's cleanup pass.
pub trait CacheConfig {
    /// The configured handle cap.
    spec fn spec_max_cache(&self) -> Option<usize>;

    /// The configured protection window, in milliseconds.
    spec fn spec_min_live_time(&self) -> Option<u64>;

    /// The configured idle bound, in milliseconds.
    spec fn spec_max_idle_time(&self) -> Option<u64>;

    /// Largest number of handles the pool should keep.
    fn max_cache(&self) -> (r: Option<usize>)
        ensures
            r == self.spec_max_cache(),
    ;

    /// Handles used within this many milliseconds are protected.
    fn min_live_time(&self) -> (r: Option<u64>)
        ensures
            r == self.spec_min_live_time(),
    ;

    /// Handles idle beyond this many milliseconds are evicted.
    fn max_idle_time(&self) -> (r: Option<u64>)
        ensures
            r == self.spec_max_idle_time(),
    ;
}

/// Settings of a database instance: its directory and its schema-cache
/// policy.
#[derive(Debug, Clone)]
pub struct InstanceConfig {
    pub dir: String,
    pub max_cache: Option<usize>,
    pub min_live_time: Option<u64>,
    pub max_idle_time: Option<u64>,
}

impl InstanceConfig {
    /// Settings rooted at `dir`, with no cache policy.
    pub fn new(dir: String) -> (r: InstanceConfig)
        ensures
            r.dir@ == dir@,
            r.max_cache is None,
            r.min_live_time is None,
            r.max_idle_time is None,
    {
        InstanceConfig { dir, max_cache: None, min_live_time: None, max_idle_time: None }
    }

    /// The instance's root directory.
    pub fn dir(&self) -> (r: &String)
        ensures
            r == &self.dir,
    {
        &self.dir
    }

    /// Replaces the handle cap.
    pub fn set_max_cache(self, max_cache: Option<usize>) -> (r: InstanceConfig)
        ensures
            r == (InstanceConfig { max_cache, ..self }),
    {
        InstanceConfig { max_cache, ..self }
    }

    /// Replaces the protection window.
    pub fn set_min_live_time(self, min_live_time: Option<u64>) -> (r: InstanceConfig)
        ensures
            r == (InstanceConfig { min_live_time, ..self }),
    {
        InstanceConfig { min_live_time, ..self }
    }

    /// Replaces the idle bound.
    pub fn set_max_idle_time(self, max_idle_time: Option<u64>) -> (r: InstanceConfig)
        ensures
            r == (InstanceConfig { max_idle_time, ..self }),
    {
        InstanceConfig { max_idle_time, ..self }
    }
}

impl CacheConfig for InstanceConfig {
    open spec fn spec_max_cache(&self) -> Option<usize> {
        self.max_cache
    }

    open spec fn spec_min_live_time(&self) -> Option<u64> {
        self.min_live_time
    }

    open spec fn spec_max_idle_time(&self) -> Option<u64> {
        self.max_idle_time
    }

    fn max_cache(&self) -> (r: Option<usize>) {
        self.max_cache
    }

    fn min_live_time(&self) -> (r: Option<u64>) {
        self.min_live_time
    }

    fn max_idle_time(&self) -> (r: Option<u64>) {
        self.max_idle_time
    }
}

/// Settings of a schema: access flags and its table-cache policy.
#[derive(Debug, Clone)]
pub struct SchemaConfig {
    pub readonly: bool,
    pub temporary: bool,
    pub max_cache: Option<usize>,
    pub min_live_time: Option<u64>,
    pub max_idle_time: Option<u64>,
}

impl SchemaConfig {
    /// Settings with the given access flags and no cache policy.
    pub fn new(readonly: bool, temporary: bool) -> (r: SchemaConfig)
        ensures
            r.readonly == readonly,
            r.temporary == temporary,
            r.max_cache is None,
            r.min_live_time is None,
            r.max_idle_time is None,
    {
        SchemaConfig {
            readonly,
            temporary,
            max_cache: None,
            min_live_time: None,
            max_idle_time: None,
        }
    }

    /// Whether the schema forbids mutation.
    pub fn readonly(&self) -> (r: bool)
        ensures
            r == self.readonly,
    {
        self.readonly
    }

    /// Whether the schema is deleted at close.
    pub fn temporary(&self) -> (r: bool)
        ensures
            r == self.temporary,
    {
        self.temporary
    }

    /// Replaces the readonly flag.
    pub fn set_readonly(self, readonly: bool) -> (r: SchemaConfig)
        ensures
            r == (SchemaConfig { readonly, ..self }),
    {
        SchemaConfig { readonly, ..self }
    }

    /// Replaces the temporary flag.
    pub fn set_temporary(self, temporary: bool) -> (r: SchemaConfig)
        ensures
            r == (SchemaConfig { temporary, ..self }),
    {
        SchemaConfig { temporary, ..self }
    }

    /// Replaces the handle cap.
    pub fn set_max_cache(self, max_cache: Option<usize>) -> (r: SchemaConfig)
        ensures
            r == (SchemaConfig { max_cache, ..self }),
    {
        SchemaConfig { max_cache, ..self }
    }

    /// Replaces the protection window.
    pub fn set_min_live_time(self, min_live_time: Option<u64>) -> (r: SchemaConfig)
        ensures
            r == (SchemaConfig { min_live_time, ..self }),
    {
        SchemaConfig { min_live_time, ..self }
    }

    /// Replaces the idle bound.
    pub fn set_max_idle_time(self, max_idle_time: Option<u64>) -> (r: SchemaConfig)
        ensures
            r == (SchemaConfig { max_idle_time, ..self }),
    {
        SchemaConfig { max_idle_time, ..self }
    }
}

impl CacheConfig for SchemaConfig {
    open spec fn spec_max_cache(&self) -> Option<usize> {
        self.max_cache
    }

    open spec fn spec_min_live_time(&self) -> Option<u64> {
        self.min_live_time
    }

    open spec fn spec_max_idle_time(&self) -> Option<u64> {
        self.max_idle_time
    }

    fn max_cache(&self) -> (r: Option<usize>) {
        self.max_cache
    }

    fn min_live_time(&self) -> (r: Option<u64>) {
        self.min_live_time
    }

    fn max_idle_time(&self) -> (r: Option<u64>) {
        self.max_idle_time
    }
}

/// Settings of a table: its access flags.
#[derive(Debug, Clone, PartialEq, Eq, Structural)]
pub struct TableConfig {
    pub readonly: bool,
    pub temporary: bool,
}

impl TableConfig {
    /// Settings with the given access flags.
    pub fn new(readonly: bool, temporary: bool) -> (r: TableConfig)
        ensures
            r.readonly == readonly,
            r.temporary == temporary,
    {
        TableConfig { readonly, temporary }
    }

    /// Whether the table forbids mutation.
    pub fn readonly(&self) -> (r: bool)
        ensures
            r == self.readonly,
    {
        self.readonly
    }

    /// Whether the table is deleted at close.
    pub fn temporary(&self) -> (r: bool)
        ensures
            r == self.temporary,
    {
        self.temporary
    }

    /// Replaces the readonly flag.
    pub fn set_readonly(self, readonly: bool) -> (r: TableConfig)
        ensures
            r == (TableConfig { readonly, ..self }),
    {
        TableConfig { readonly, ..self }
    }

    /// Replaces the temporary flag.
    pub fn set_temporary(self, temporary: bool) -> (r: TableConfig)
        ensures
            r == (TableConfig { temporary, ..self }),
    {
        TableConfig { temporary, ..self }
    }
}

} // verus!
