//! The layers of the overlay.

pub mod vicinity;

pub use crate::poldercast::vicinity::Vicinity;
