//! Settings of the search service.
use vstd::prelude::*;

use crate::settings::{lookup_var, var_or, var_or_default, var_value};
use crate::text::{parse_u16, parse_u16_str};

verus! {

/// Where the search service listens, the services it calls, and its store.
#[derive(Debug, Clone)]
pub struct Config {
    pub host: String,
    pub port: u16,
    pub api_key: String,
    pub dense_url: String,
    pub reranker_url: String,
    pub qdrant_url: String,
    pub collection: String,
    pub dense_vec_name: String,
    pub sparse_vec_name: String,
    pub model_dir: String,
}

/// A setting that is missing or cannot be used.
#[derive(Debug, Clone)]
pub enum ConfigError {
    /// `PORT` is not a number from 0 to 65535.
    InvalidPort,
    /// A required variable is not set.
    Missing(String),
}

/// The message of a settings error.
pub open spec fn config_error_message(e: ConfigError) -> Seq<char> {
    match e {
        ConfigError::InvalidPort => "PORT must be u16"@,
        ConfigError::Missing(k) => k@ + " not set"@,
    }
}

impl ConfigError {
    /// What went wrong, in words.
    pub fn message(&self) -> (r: String)
        ensures
            r@ == config_error_message(*self),
    {
        match self {
            ConfigError::InvalidPort => "PORT must be u16".to_owned(),
            ConfigError::Missing(k) => {
                let mut out = k.clone();
                out.append(" not set");
                out
            },
        }
    }
}

/// The required variables, in the order in which they are read.
pub open spec fn required_keys() -> Seq<Seq<char>> {
    seq![
        "API_KEY"@,
        "EMBEDDINGS_DENSE_URL"@,
        "RERANKER_URL"@,
        "QDRANT_URL"@,
        "QDRANT_COLLECTION_NAME"@,
    ]
}

/// The first required variable of `keys` that `vars` does not set.
pub open spec fn first_missing(vars: Seq<(String, String)>, keys: Seq<Seq<char>>) -> Option<Seq<char>>
    decreases keys.len(),
{
    if keys.len() == 0 {
        None
    } else if var_value(vars, keys[0]) is None {
        Some(keys[0])
    } else {
        first_missing(vars, keys.drop_first())
    }
}

/// The value of a variable that is set.
pub open spec fn required(vars: Seq<(String, String)>, key: Seq<char>) -> Seq<char> {
    var_value(vars, key).unwrap()
}

fn require_var(vars: &Vec<(String, String)>, key: &str) -> (r: Result<String, ConfigError>)
    ensures
        match var_value(vars@, key@) {
            Some(v) => r matches Ok(s) && s@ == v,
            None => r matches Err(ConfigError::Missing(k)) && k@ == key@,
        },
{
    match lookup_var(vars, key) {
        Some(v) => Ok(v),
        None => Err(ConfigError::Missing(key.to_owned())),
    }
}

/// `c` holds the settings that `vars` gives, with port `port`.
pub open spec fn settings_of(vars: Seq<(String, String)>, c: Config, port: u16) -> bool {
    &&& c.port == port
    &&& c.host@ == var_or(vars, "HOST"@, "0.0.0.0"@)
    &&& c.api_key@ == required(vars, "API_KEY"@)
    &&& c.dense_url@ == required(vars, "EMBEDDINGS_DENSE_URL"@)
    &&& c.reranker_url@ == required(vars, "RERANKER_URL"@)
    &&& c.qdrant_url@ == required(vars, "QDRANT_URL"@)
    &&& c.collection@ == required(vars, "QDRANT_COLLECTION_NAME"@)
    &&& c.dense_vec_name@ == var_or(vars, "QDRANT_DENSE_VECTOR_NAME"@, "dense"@)
    &&& c.sparse_vec_name@ == var_or(vars, "QDRANT_SPARSE_VECTOR_NAME"@, "sparse"@)
    &&& c.model_dir@ == var_or(vars, "MODEL_DIR"@, "/app/models"@)
}

impl Config {
    /// The settings from the environment variables `vars`. `PORT` (default
    /// `8080`) is read first; then `API_KEY`, `EMBEDDINGS_DENSE_URL`,
    /// `RERANKER_URL`, `QDRANT_URL` and `QDRANT_COLLECTION_NAME` must be set;
    /// `HOST`, `QDRANT_DENSE_VECTOR_NAME`, `QDRANT_SPARSE_VECTOR_NAME` and
    /// `MODEL_DIR` default to `0.0.0.0`, `dense`, `sparse` and `/app/models`.
    pub fn from_vars(vars: &Vec<(String, String)>) -> (r: Result<Config, ConfigError>)
        ensures
            match (parse_u16(var_or(vars@, "PORT"@, "8080"@)), first_missing(vars@, required_keys())) {
                (None, _) => r matches Err(ConfigError::InvalidPort),
                (Some(_), Some(key)) => r matches Err(ConfigError::Missing(k)) && k@ == key,
                (Some(port), None) => r matches Ok(c) && settings_of(vars@, c, port),
            },
    {
        let host = var_or_default(vars, "HOST", "0.0.0.0");
        let port_text = var_or_default(vars, "PORT", "8080");
        let port = match parse_u16_str(port_text.as_str()) {
            Some(p) => p,
            None => {
                return Err(ConfigError::InvalidPort);
            },
        };
        proof {
            reveal_with_fuel(first_missing, 6);
        }
        let api_key = require_var(vars, "API_KEY")?;
        let dense_url = require_var(vars, "EMBEDDINGS_DENSE_URL")?;
        let reranker_url = require_var(vars, "RERANKER_URL")?;
        let qdrant_url = require_var(vars, "QDRANT_URL")?;
        let collection = require_var(vars, "QDRANT_COLLECTION_NAME")?;
        let dense_vec_name = var_or_default(vars, "QDRANT_DENSE_VECTOR_NAME", "dense");
        let sparse_vec_name = var_or_default(vars, "QDRANT_SPARSE_VECTOR_NAME", "sparse");
        let model_dir = var_or_default(vars, "MODEL_DIR", "/app/models");
        Ok(
            Config {
                host,
                port,
                api_key,
                dense_url,
                reranker_url,
                qdrant_url,
                collection,
                dense_vec_name,
                sparse_vec_name,
                model_dir,
            },
        )
    }
}

} // verus!
