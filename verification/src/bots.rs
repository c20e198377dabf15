//! Players that choose a move.

pub mod attackdepth;
pub mod pick_first;
