//! Configuration records: where data lives, how large segments grow, the
//! vector dimensionality, and the model endpoints the surrounding
//! application may call.

use vstd::prelude::*;

verus! {

/// The default request timeout against a model endpoint, in milliseconds.
pub fn default_timeout_ms() -> (r: u64)
    ensures
        r == 30000,
{
    30_000
}

/// How to reach one model endpoint.
pub struct ModelEndpointConfig {
    pub base_url: String,
    pub path: String,
    pub model: String,
    pub api_key: Option<String>,
    pub auth_header: Option<String>,
    pub headers: Vec<(String, String)>,
    pub timeout_ms: u64,
}

/// The store's configuration.
pub struct Config {
    pub data_dir: String,
    pub wal_dir: String,
    pub segment_size_mb: usize,
    pub vector_dims: usize,
    pub embedding: Option<ModelEndpointConfig>,
    pub reasoning: Option<ModelEndpointConfig>,
}

impl Default for Config {
    /// The defaults: local data and log directories, 128 MiB segments,
    /// 384-dimensional vectors, and localhost model endpoints for both
    /// embedding and reasoning.
    fn default() -> (r: Self)
        ensures
            r.data_dir@ == "data"@,
            r.wal_dir@ == "wal"@,
            r.segment_size_mb == 128,
            r.vector_dims == 384,
            match r.embedding {
                Some(e) => e.base_url@ == "http://localhost:8080"@ && e.path@ == "/embed"@
                    && e.model@ == "demo-embedding"@ && e.api_key is None && e.timeout_ms == 30000,
                None => false,
            },
            match r.reasoning {
                Some(e) => e.base_url@ == "http://localhost:8080"@ && e.path@ == "/reason"@
                    && e.model@ == "demo-reasoner"@ && e.api_key is None && e.timeout_ms == 30000,
                None => false,
            },
    {
        let embedding = ModelEndpointConfig {
            base_url: "http://localhost:8080".to_owned(),
            path: "/embed".to_owned(),
            model: "demo-embedding".to_owned(),
            api_key: None,
            auth_header: Some("Authorization".to_owned()),
            headers: Vec::new(),
            timeout_ms: default_timeout_ms(),
        };
        let reasoning = ModelEndpointConfig {
            base_url: "http://localhost:8080".to_owned(),
            path: "/reason".to_owned(),
            model: "demo-reasoner".to_owned(),
            api_key: None,
            auth_header: Some("Authorization".to_owned()),
            headers: Vec::new(),
            timeout_ms: default_timeout_ms(),
        };
        Config {
            data_dir: "data".to_owned(),
            wal_dir: "wal".to_owned(),
            segment_size_mb: 128,
            vector_dims: 384,
            embedding: Some(embedding),
            reasoning: Some(reasoning),
        }
    }
}

} // verus!
