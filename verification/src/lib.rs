//! DShot waveform generation on a programmable timing engine.
//!
//! One short timing program turns a 16-bit frame into pulses on a pin. Up to
//! four state machines of one engine block run that program side by side,
//! each with its own pin, clock divisor and transmit queue.
//!
//! - [`program`]: the instructions, their machine words, the DShot program.
//! - [`wave`]: the waveform a frame must have, cycle by cycle.
//! - [`queue`]: the transmit queue of a channel.
//! - [`machine`]: one state machine, executing a program cycle by cycle.
//! - [`timing`]: the proof that the program makes of each word the waveform
//!   of its frame.
//! - [`cadence`]: the same for words submitted at any moment.
//! - [`channel`], [`block`], [`driver`]: channels, the block that holds
//!   four of them, and the drivers of one to four motors.
//! - [`laws`]: what holds of a driver as a whole.

pub mod program;
pub mod wave;
pub mod queue;
pub mod machine;
pub mod timing;
pub mod cadence;
pub mod channel;
pub mod block;
pub mod driver;
pub mod laws;
