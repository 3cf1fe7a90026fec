//! Daily active-time limiter: day boundaries, extension records, duration text,
//! activity query framing and the edge-triggered overage state machine.

pub mod decimal;
pub mod duration;
pub mod clock;
pub mod store;
pub mod limiter;
pub mod query;
