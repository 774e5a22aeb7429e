pub mod access;
pub mod error;
pub mod laws;
pub mod log_event;
pub mod log_target;
pub mod metric;
pub mod metric_target;
pub mod path;
pub mod sink_config;
pub mod value;
pub mod vrl_target;
