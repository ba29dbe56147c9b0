//! Errors of loading, parsing and resolving a configuration.
use std::io;

use vstd::prelude::*;
use vstd::std_specs::convert::FromSpecImpl;

verus! {

/// `std::io::Error`, carried as an opaque value.
#[verifier::external_type_specification]
#[verifier::external_body]
pub struct ExIoError(io::Error);

/// `serde_json::Error`, carried as an opaque value.
#[verifier::external_type_specification]
#[verifier::external_body]
pub struct ExJsonError(serde_json::Error);

/// `serde_yaml::Error`, carried as an opaque value.
#[verifier::external_type_specification]
#[verifier::external_body]
pub struct ExYamlError(serde_yaml::Error);

/// The configuration text could not be parsed.
#[derive(Debug)]
pub enum ParseError {
    Json(serde_json::Error),
    Yaml(serde_yaml::Error),
}

/// Everything that can go wrong while finding, loading or resolving a configuration.
#[derive(Debug)]
pub enum ConfigError {
    IoError(std::io::Error),
    ParseError(ParseError),
    InvalidConfig(String),
    ConfigNotFound,
}

impl From<io::Error> for ConfigError {
    fn from(err: io::Error) -> (res: Self) {
        ConfigError::IoError(err)
    }
}

impl FromSpecImpl<io::Error> for ConfigError {
    open spec fn obeys_from_spec() -> bool {
        true
    }

    open spec fn from_spec(err: io::Error) -> Self {
        ConfigError::IoError(err)
    }
}

impl From<serde_json::Error> for ConfigError {
    fn from(err: serde_json::Error) -> (res: Self) {
        ConfigError::ParseError(ParseError::Json(err))
    }
}

impl FromSpecImpl<serde_json::Error> for ConfigError {
    open spec fn obeys_from_spec() -> bool {
        true
    }

    open spec fn from_spec(err: serde_json::Error) -> Self {
        ConfigError::ParseError(ParseError::Json(err))
    }
}

impl From<serde_yaml::Error> for ConfigError {
    fn from(err: serde_yaml::Error) -> (res: Self) {
        ConfigError::ParseError(ParseError::Yaml(err))
    }
}

impl FromSpecImpl<serde_yaml::Error> for ConfigError {
    open spec fn obeys_from_spec() -> bool {
        true
    }

    open spec fn from_spec(err: serde_yaml::Error) -> Self {
        ConfigError::ParseError(ParseError::Yaml(err))
    }
}

} // verus!
