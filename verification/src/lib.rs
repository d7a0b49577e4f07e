//! A verified engine for Conway's Game of Life on a bounded rectangular grid.
//!
//! The engine keeps a dense grid of cell values (`0` dead, `1` alive) together
//! with an explicit list of live coordinates, and advances one generation at a
//! time by scanning only the neighborhoods of currently-live cells.  All of the
//! update logic is specified against the mathematical transition rule in
//! [`rules`] and proved with Verus; presentation concerns (windows, sprites,
//! input devices) are left to whatever driver owns the [`game::Game`] value.

pub mod coord;
pub mod game;
pub mod laws;
pub mod pattern;
pub mod rules;
