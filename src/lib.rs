//! An incremental, zero-copy pull parser for the NBT (Named Binary Tag) format.
//!
//! Input arrives in chunks of any size; the parser yields flat fragments as soon
//! as they can be decoded, borrowing payloads from the caller's buffer, and asks
//! for more input with `Needs(n)` instead of buffering it.
pub mod buf;
pub mod error;
pub mod fsm;
pub mod properties;
pub mod tag;
pub mod view;

pub use fsm::{FsmResult, NbtFragment, NbtFsm};
