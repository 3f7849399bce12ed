//! Emit-on-window-close evaluation of window functions over append-only,
//! order-key-ascending input streams.
pub mod aws_config;
pub mod executor;
pub mod memcmp;
pub mod partition;
pub mod partition_cache;
pub mod state_key;
pub mod state_table;
pub mod table_function;
pub mod window_state;
