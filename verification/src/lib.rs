//! Client-side command prediction and rollback core for a tick-based
//! networked state-replication library.
//!
//! Local commands are queued for immediate predicted execution and retained
//! in a bounded per-pawn history. When the server reports that authoritative
//! state diverged from the prediction at some past tick, the command receiver
//! resets the pawn through its state-manager collaborator and replays the
//! retained commands in ascending tick order so that predicted state
//! reconverges.

pub mod manifest;
pub mod pawn;
pub mod receiver;
pub mod sequence_buffer;
pub mod tick;
