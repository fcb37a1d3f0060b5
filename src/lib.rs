//! A roster of meeting participants and the draw that picks the next chair
//! and note taker, avoiding the previous holder and any hidden participant.

pub mod fold;
pub mod roster;
pub mod engine;
pub mod run;
