//! The plugins of an inseam node: what each of them decides, stated and
//! proved.

pub mod operations;
pub mod order;
pub mod roster;
pub mod routing;
pub mod seam;
pub mod settings;
pub mod sweep;
pub mod sync;
pub mod text;
pub mod transforms;
