//! The dependency-injection container and the runtime's bookkeeping.
pub mod dispatch;
pub mod http;
pub mod registry;
pub mod telemetry;
pub mod toposort;
pub mod wiring;
pub mod assemble;
