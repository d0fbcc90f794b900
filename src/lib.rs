//! Rules of a particle-chemistry simulation: the randomly drawn conversion graph between
//! species, the catalyzable-flag state machine of a particle, and the toroidal grid of cells
//! that partitions the particles.

pub mod chemistry;
pub mod conversion;
pub mod grid;
pub mod rng;

pub use chemistry::{draw_catalysts, draw_successors, new_chemistry};
pub use conversion::{
    catalyzed_on_contact, commit_conversion, conversion_types, initially_catalyzable,
    ConversionType,
};
pub use grid::Grid;
