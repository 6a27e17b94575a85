pub mod cache;
pub mod config;
pub mod dag;
pub mod engine;
pub mod report;
pub mod text;
pub mod watch;
