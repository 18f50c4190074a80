//! Social golfer style schedule generation: a bit-packed exhaustive solver, a
//! hill-climbing schedule improver, the wire format that distributes solver work,
//! and the player/group/event database.

pub mod batch;
pub mod bits;
pub mod buffers;
pub mod client;
pub mod compact;
pub mod database;
pub mod schedule;
pub mod scheduler;
pub mod search;
pub mod solve;
pub mod text;
pub mod word;
