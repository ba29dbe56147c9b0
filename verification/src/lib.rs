//! Configuration model of edlint: schema types, their resolution into a tree of
//! abstractions, and the search for the configuration file.
pub mod config;
pub mod config_format;
pub mod config_schema;
pub mod error;
pub mod find_config;
pub mod index_map;
pub mod laws;
pub mod resolution;
pub mod schema_to_config;
pub mod user;

pub use config::{
    AbstractionConfig, AbstractionConfigRef, AbstractionMatcher, AbstractionName, Config,
    RuleConfig, Severity,
};
pub use config_schema::ConfigSchema;
pub use error::ConfigError;
pub use find_config::find_config;
pub use schema_to_config::{convert_schema_to_config, ConfigDefaults};
