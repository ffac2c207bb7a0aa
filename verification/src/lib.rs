//! Number-grid and calendar geometry of the Natural Squares clock.
pub mod calendar;
pub mod engine;
pub mod spiral;

pub use calendar::CivilDate;
pub use engine::NaturalSquaresEngine;
pub use spiral::{Direction, SpiralIterator};
