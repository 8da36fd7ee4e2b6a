//! Building blocks for time-based audio effects: a multi-channel circular
//! delay line whose addressing is verified.

mod delay_line;
pub mod history;

pub use delay_line::DelayLine;
