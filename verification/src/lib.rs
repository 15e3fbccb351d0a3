//! A hierarchical timing wheel: a lower layer with fine ticks for short
//! delays and an upper layer with coarse ticks (and rounds) for long ones.
//! The data structure, its configuration and the decisions around it are
//! verified here; the tokio-driven runtime around it lives in the app crate.
pub mod config;
pub mod duration;
pub mod error;
pub mod index;
pub mod laws;
pub mod notify;
pub mod oneshot;
pub mod ringbuf;
pub mod service;
pub mod spsc;
pub mod task;
pub mod text;
pub mod wheel;

pub use config::{BatchConfig, ServiceConfig, TimerConfig, WheelConfig};
pub use error::TimerError;
