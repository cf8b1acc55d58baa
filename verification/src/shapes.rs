//! The annotation shapes: what each contains and the box that bounds it.

pub mod cylinder;
pub mod oriented_box;
pub mod shape;
