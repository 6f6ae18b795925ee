//! Rules engine of a falling-block puzzle game: piece geometry and rotation
//! tables, a bag randomizer for the queue of upcoming pieces, the playfield
//! grid with collision detection, wall-kick rotation, ghost-piece projection,
//! line clearing and scoring, and the orchestrator that ties them together.
//!
//! Rendering, input capture and timers live outside this crate; the engine
//! only consumes abstract events and exposes plain state.

mod bag;
mod errors;
mod field;
mod game;
mod geom;
mod laws;

pub use errors::{MinoesError, OutOfBoundsError, OverlappingMinoesError};
pub use game::{Event, Game};
pub use field::lemma_fill_then_clear;
pub use geom::{lemma_piece_cells_distinct, lemma_rotation_round_trip};
pub use geom::{Piece, PieceType, Point, RelPoint, Rotation, TetrisDirection};
pub use laws::{lemma_bag_fairness, lemma_clear_lines_no_full};
