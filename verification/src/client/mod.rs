//! Client-side logic: input sampling decisions, connection and ping state,
//! reconciliation and interpolation buffers, and the heads-up display summary.

pub mod game;
pub mod input;
pub mod network;
pub mod rendering;
