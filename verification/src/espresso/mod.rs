//! Minimiser configuration and the errors of minimiser instances and cube validation.
pub mod config;
pub mod error;
pub mod instance;

pub use config::EspressoConfig;
pub use error::{CubeError, ErrorSource, InstanceError, MinimizationError};
