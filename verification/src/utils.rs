//! Project configuration, packages and log levels.

pub mod configs;
pub mod log;
pub mod manifest;
pub mod package;

pub use configs::{BuildConfig, ConfigError, Platform, TargetConfig};
pub use log::{log, LogLevel};
pub use manifest::{parse_config, read_config};
pub use package::Package;
