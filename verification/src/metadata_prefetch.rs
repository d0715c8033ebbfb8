//! Configuration of the metadata pre-fetching pipeline that fetches object
//! sizes ahead of I/O operations.

use vstd::prelude::*;
use vstd::string::*;
use crate::fs_metadata::{local_path_spec, strip_local_scheme};

verus! {

broadcast use vstd::string::group_string_axioms;

/// Metadata information for an object.
#[derive(Debug, Clone)]
pub struct ObjectMetadata {
    /// Full URI of the object.
    pub uri: String,
    /// Size in bytes (if available).
    pub size: Option<u64>,
    /// Whether this is a local file (file:// or direct://).
    pub is_local: bool,
}

impl ObjectMetadata {
    /// Metadata of a URI given the size fetched for it (if any): local
    /// exactly when the URI has a local scheme.
    pub fn for_uri(uri: &str, size: Option<u64>) -> (r: Self)
        ensures
            r.uri@ == uri@,
            r.size == size,
            r.is_local == local_path_spec(uri@) is Some,
    {
        let is_local = strip_local_scheme(uri).is_some();
        ObjectMetadata { uri: String::from_str(uri), size, is_local }
    }
}

/// Configuration for metadata pre-fetching.
#[derive(Debug, Clone)]
pub struct MetadataPrefetchConfig {
    /// Number of worker tasks for fetching metadata.
    pub num_workers: usize,
    /// Channel buffer size (how many metadata items to buffer).
    pub buffer_size: usize,
}

impl Default for MetadataPrefetchConfig {
    fn default() -> (r: Self)
        ensures
            r.num_workers == 8,
            r.buffer_size == 64,
    {
        MetadataPrefetchConfig { num_workers: 8, buffer_size: 64 }
    }
}

/// Metadata pre-fetcher that runs ahead of I/O operations.
pub struct MetadataPrefetcher {
    config: MetadataPrefetchConfig,
}

impl MetadataPrefetcher {
    /// The configuration of the pre-fetcher.
    pub closed spec fn config_spec(&self) -> MetadataPrefetchConfig {
        self.config
    }

    /// Create a new metadata pre-fetcher with a configuration.
    pub fn new(config: MetadataPrefetchConfig) -> (r: Self)
        ensures
            r.config_spec() == config,
    {
        MetadataPrefetcher { config }
    }

    /// Create with the default configuration (8 workers, 64 buffered entries).
    pub fn with_default_config() -> (r: Self)
        ensures
            r.config_spec().num_workers == 8,
            r.config_spec().buffer_size == 64,
    {
        Self::new(MetadataPrefetchConfig::default())
    }

    /// The configuration in use.
    pub fn config(&self) -> (r: &MetadataPrefetchConfig)
        ensures
            *r == self.config_spec(),
    {
        &self.config
    }
}

} // verus!
