//! Settings of the indexing service.
use vstd::prelude::*;

use crate::settings::{var_or, var_or_default};
use crate::text::{parse_u16, parse_u16_str};

verus! {

/// Where the indexing service listens and where its model weights are.
#[derive(Debug, Clone)]
pub struct Config {
    pub host: String,
    pub port: u16,
    pub model_dir: String,
}

/// A setting that cannot be used.
#[derive(Debug, Clone, Copy, PartialEq, Eq, Structural)]
pub enum ConfigError {
    /// `PORT` is not a number from 0 to 65535.
    InvalidPort,
}

impl ConfigError {
    /// What went wrong, in words.
    pub fn message(&self) -> (r: &'static str)
        ensures
            r@ == "PORT must be a u16"@,
    {
        "PORT must be a u16"
    }
}

/// The port that `PORT` names, `8080` when it is not set.
pub open spec fn port_setting(vars: Seq<(String, String)>) -> Option<u16> {
    parse_u16(var_or(vars, "PORT"@, "8080"@))
}

impl Config {
    /// The settings from the environment variables `vars`: `HOST` (default
    /// `0.0.0.0`), `PORT` (default `8080`), `MODEL_DIR` (default `/app/models`).
    pub fn from_vars(vars: &Vec<(String, String)>) -> (r: Result<Config, ConfigError>)
        ensures
            match port_setting(vars@) {
                None => r == Err::<Config, ConfigError>(ConfigError::InvalidPort),
                Some(port) => r matches Ok(c) && c.port == port
                    && c.host@ == var_or(vars@, "HOST"@, "0.0.0.0"@)
                    && c.model_dir@ == var_or(vars@, "MODEL_DIR"@, "/app/models"@),
            },
    {
        let host = var_or_default(vars, "HOST", "0.0.0.0");
        let port_text = var_or_default(vars, "PORT", "8080");
        let port = match parse_u16_str(port_text.as_str()) {
            Some(p) => p,
            None => {
                return Err(ConfigError::InvalidPort);
            },
        };
        let model_dir = var_or_default(vars, "MODEL_DIR", "/app/models");
        Ok(Config { host, port, model_dir })
    }
}

} // verus!
