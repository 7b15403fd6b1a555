//! A variable-ratio sample-rate conversion engine: the streaming state machine that
//! decides, call by call, how much input a conversion context takes in and at which
//! input positions it emits output frames.

pub mod engine;
pub mod factor;
