pub mod parser;
pub mod task;

pub use parser::{validate_config, ConfigError};
pub use task::{default_cache_dir, BuildConfig, TaskConfig, TaskMap};
