//! A verified Go board engine: stone placement, group discovery and
//! liberty-based capture removal, driven one decoded game-record operation at
//! a time.

pub mod board;
pub mod laws;
pub mod model;
pub mod ops;

pub use crate::board::{Goban, GobanError, Stone};
pub use crate::model::StoneColor;
pub use crate::ops::Operation;
