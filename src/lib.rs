//! A falling-sand animation engine: a grid of cells, a text stencil stamped
//! into it, and a stepper that lets mobile glyphs fall and disperse until
//! nothing moves any more.
pub mod cell;
pub mod commit;
mod chance;
pub mod grid;
pub mod render;
pub mod scene;
pub mod session;
pub mod stencil;
pub mod stepper;
