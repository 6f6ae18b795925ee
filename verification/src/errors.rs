use vstd::prelude::*;

verus! {

/// A position would leave the playfield grid.
#[derive(Debug, Default)]
pub struct OutOfBoundsError;

/// A position collides with a cell that already holds a block.
#[derive(Debug, Default)]
pub struct OverlappingMinoesError;

/// The two failures the engine reports: either a piece would leave the grid,
/// or it would overlap an already occupied cell.
#[derive(Debug)]
pub enum MinoesError {
    OutOfBounds(OutOfBoundsError),
    OverlappingMinoes(OverlappingMinoesError),
}

impl From<OutOfBoundsError> for MinoesError {
    fn from(_e: OutOfBoundsError) -> (r: MinoesError) {
        MinoesError::OutOfBounds(OutOfBoundsError)
    }
}

impl vstd::std_specs::convert::FromSpecImpl<OutOfBoundsError> for MinoesError {
    open spec fn obeys_from_spec() -> bool {
        true
    }

    open spec fn from_spec(_e: OutOfBoundsError) -> Self {
        MinoesError::OutOfBounds(OutOfBoundsError)
    }
}

} // verus!
