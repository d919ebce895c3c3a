//! The layered keymap engine: key groups, layers, the layer switcher, its
//! model and the laws proved of it.

pub mod held;
pub mod keys;
pub mod layer;
pub mod laws;
pub mod mirror;
pub mod model;
pub mod switcher;
pub mod types;
