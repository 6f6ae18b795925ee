use vstd::prelude::*;

use crate::errors::{MinoesError, OutOfBoundsError, OverlappingMinoesError};
use crate::field::{
    clear_grid, clear_ok, clear_seq, erased, fill_grid, fill_out, fill_seq, full_count, grid_at,
    grid_set, in_pts, lemma_clear_in_grid, lemma_fill_blocked, lemma_fill_free, lemma_fill_no_oob,
    lemma_fill_writes, lemma_in_pts_take, lemma_nonfull_cells, lemma_nonfull_len,
    lemma_pass_keep_row, lemma_probe_iff, lemma_shift_clears_full, line_cleared_grid, nonfull_rows,
    painted, pass_shape, probe_seq, pt_in, pts_free_for, pts_in_grid, row_full, shift_down,
    FillOutcome,
};
use crate::geom::{
    is_some_spawn_piece, piece_point, piece_points, piece_sums_fit, points_ok, pt_of, shape_wf,
    spec_moved_piece, Piece, PieceType, Point, Rotation, TetrisDirection,
};

verus! {

/// The abstract events the orchestrator consumes, pushed in by outside
/// producers (a gravity timer and an input source).
#[derive(Debug)]
pub enum Event {
    TimePassed,
    MovePiece(TetrisDirection),
    RotatePiece(Rotation),
    HardDropPiece,
    HoldPiece,
    TogglePause,
    Quit,
}

/// The whole engine state: the playfield grid, the moving piece and its
/// ghost projection, score counters, the queue of upcoming pieces and the
/// held piece.
///
/// Cell values: `0` empty, `1..=7` the moving piece's color, `8` a locked
/// block, `-1` the ghost marker.
#[derive(Debug)]
pub struct Game {
    pub ghost_piece: Option<Piece>,
    pub moving_piece: Piece,
    pub playfield: [[i16; 10]; 22],
    pub score: u16,
    pub level: u16,
    pub lines_cleared: u16,
    pub next_pieces: Vec<Piece>,
    pub held_piece: Option<Piece>,
}

/// The cells of an array of four points, as integer pairs.
pub open spec fn pts_of_arr(a: [Point; 4]) -> Seq<(int, int)> {
    Seq::new(4, |i: int| pt_of(a[i]))
}

/// The empty playfield: 22 rows of 10 zeroed cells.
pub open spec fn empty_field() -> Seq<Seq<i16>> {
    Seq::new(22, |r: int| Seq::new(10, |c: int| 0i16))
}

/// The piece's rotation index is valid and its coordinate sums fit in `i16`,
/// so `get_piece_points` can be called on it.
pub open spec fn piece_usable(p: Piece) -> bool {
    p.current_rotation_id < 4 && piece_sums_fit(p)
}

/// The piece's four cells all lie inside the grid.
pub open spec fn piece_in_grid(p: Piece) -> bool {
    points_ok(p) && pts_in_grid(piece_points(p))
}

/// The piece lowered by `k` rows.
pub open spec fn lowered(p: Piece, k: int) -> Piece {
    Piece { center: Point((p.center.0 + k) as i16, p.center.1), ..p }
}

/// The piece lowered by `k` rows is off the grid or touches a locked block:
/// the ghost projector's descent must stop before this offset.
pub open spec fn blocked(g: Seq<Seq<i16>>, p: Piece, k: int) -> bool {
    !piece_in_grid(lowered(p, k)) || exists|i: int|
        0 <= i < 4 && grid_at(g, #[trigger] piece_points(lowered(p, k))[i]) == 8
}

/// The least blocked offset at or above `k` (the search is capped at 25; for
/// any piece on the grid an offset of 22 is already off the bottom).
pub open spec fn first_blocked_from(g: Seq<Seq<i16>>, p: Piece, k: int) -> int
    decreases 25 - k,
{
    if k >= 25 {
        k
    } else if blocked(g, p, k) {
        k
    } else {
        first_blocked_from(g, p, k + 1)
    }
}

pub open spec fn first_blocked(g: Seq<Seq<i16>>, p: Piece) -> int {
    first_blocked_from(g, p, 0)
}

/// The ghost piece for `moving` over grid `g`: its copy with the ghost
/// marker color, dropped to the last offset before the descent is blocked
/// (or left in place if the descent is blocked at once).
pub open spec fn spec_ghost_piece(g: Seq<Seq<i16>>, moving: Piece) -> Piece {
    let gm = Piece { color: -1i16, ..moving };
    let fb = first_blocked(g, gm);
    if fb == 0 {
        gm
    } else {
        lowered(gm, fb - 1)
    }
}

/// The grid after the ghost projector runs over grid `g`: the previous ghost
/// footprint is cleared, the new ghost footprint is drawn (cells the moving
/// piece already covers are left to it), and the moving piece's footprint is
/// re-drawn on top.
pub open spec fn ghost_pass_grid(
    g: Seq<Seq<i16>>,
    moving: Piece,
    old_ghost: Option<Piece>,
) -> Seq<Seq<i16>> {
    let g1 = match old_ghost {
        Some(op) => clear_grid(g, piece_points(op), -1i16),
        None => g,
    };
    let gp = spec_ghost_piece(g1, moving);
    let g2 = fill_grid(g1, piece_points(gp), -1i16);
    fill_grid(g2, piece_points(moving), moving.color)
}

/// The ghost piece the projector leaves behind.
pub open spec fn ghost_pass_piece(
    g: Seq<Seq<i16>>,
    moving: Piece,
    old_ghost: Option<Piece>,
) -> Piece {
    let g1 = match old_ghost {
        Some(op) => clear_grid(g, piece_points(op), -1i16),
        None => g,
    };
    spec_ghost_piece(g1, moving)
}

/// The shape of the grid while the line-clear scan stands at line `l` with
/// `count` rows already removed: while the scan is inside the original
/// prefix, that prefix ends at original row `l - count`; afterwards the
/// grid has reached its final shape.
pub open spec fn clear_scan_inv(orig: Seq<Seq<i16>>, g: Seq<Seq<i16>>, l: int, count: int) -> bool {
    if count <= l {
        &&& g == pass_shape(orig, count, l - count)
        &&& count == full_count(orig.subrange(l - count + 1, 22))
    } else {
        &&& g == pass_shape(orig, count, 0)
        &&& count == full_count(orig.subrange(1, 22))
    }
}

/// The grid after a hard drop locks the piece, before lines are cleared:
/// the moving piece's and the ghost's footprints are erased, and the locked
/// marker is written over the ghost's cells (where the piece comes to rest).
pub open spec fn lock_grid(s: Game) -> Seq<Seq<i16>> {
    let gp = s.ghost_piece.unwrap();
    let g1 = clear_grid(s.field(), piece_points(s.moving_piece), s.moving_piece.color);
    let g2 = clear_grid(g1, piece_points(gp), -1i16);
    painted(g2, piece_points(gp), 8i16)
}

/// The grid after a hold operation erases the moving piece's and the
/// ghost's footprints, before the swapped-in piece is drawn.
pub open spec fn hold_cleared_grid(s: Game) -> Seq<Seq<i16>> {
    let g1 = clear_grid(s.field(), piece_points(s.moving_piece), s.moving_piece.color);
    clear_grid(g1, piece_points(s.ghost_piece.unwrap()), -1i16)
}

/// The piece that a hold operation swaps in can be drawn where it stands:
/// the held piece at the position it was parked at, or the next piece of
/// the queue at its spawn position (any of the seven types, if the queue
/// must first be replenished). Where this fails the swap would panic, as a
/// caller bug.
pub open spec fn hold_swap_ok(s: Game) -> bool {
    let g2 = hold_cleared_grid(s);
    match s.held_piece {
        Some(hp) => points_ok(hp) && pts_free_for(g2, piece_points(hp), hp.color),
        None => if s.next_pieces@.len() > 0 {
            pts_free_for(g2, piece_points(s.next_pieces@.last()), s.next_pieces@.last().color)
        } else {
            forall|p: Piece|
                is_some_spawn_piece(p) ==> pts_free_for(g2, #[trigger] piece_points(p), p.color)
        },
    }
}

/// The score bonus for clearing `cleared` lines at once at level `level`.
pub open spec fn spec_bonus(cleared: int, level: int) -> int {
    if cleared == 1 {
        100 * level
    } else if cleared == 2 {
        300 * level
    } else if cleared == 3 {
        500 * level
    } else if cleared == 4 {
        800 * level
    } else {
        0
    }
}

/// The piece's position is legal on grid `g`: its cells can be computed,
/// all lie inside the grid, and none holds a positive value.
pub open spec fn piece_allowed(g: Seq<Seq<i16>>, p: Piece) -> bool {
    points_ok(p) && probe_seq(g, piece_points(p)) == FillOutcome::Filled
}

/// The five wall-kick offsets tried in order when rotating; their order
/// decides which kick is preferred and must not be altered.
pub open spec fn kick_offsets() -> Seq<(int, int)> {
    seq![(0, 0), (-1, 0), (-1, 1), (0, -2), (-1, -2)]
}

/// The piece translated by kick `k` and then rotated.
pub open spec fn kicked_piece(p: Piece, rot: Rotation, k: (int, int)) -> Piece {
    crate::geom::spec_rotated_piece(
        Piece { center: Point((p.center.0 + k.0) as i16, (p.center.1 + k.1) as i16), ..p },
        rot,
    )
}

/// The first kick offset (searching from index `i`) whose kicked position is
/// legal on `g`, if any.
pub open spec fn first_good_kick_from(
    g: Seq<Seq<i16>>,
    p: Piece,
    rot: Rotation,
    i: int,
) -> Option<int>
    decreases 5 - i,
{
    if i >= 5 {
        None
    } else if piece_allowed(g, kicked_piece(p, rot, kick_offsets()[i])) {
        Some(i)
    } else {
        first_good_kick_from(g, p, rot, i + 1)
    }
}

pub open spec fn first_good_kick(g: Seq<Seq<i16>>, p: Piece, rot: Rotation) -> Option<int> {
    first_good_kick_from(g, p, rot, 0)
}

/// `first_blocked_from` finds the least blocked offset: given that offset 22
/// is blocked, the result is at most 22, is blocked, and every smaller
/// offset at or above `k` is not.
proof fn lemma_first_blocked_from(g: Seq<Seq<i16>>, p: Piece, k: int)
    requires
        0 <= k <= 22,
        blocked(g, p, 22),
    ensures
        k <= first_blocked_from(g, p, k) <= 22,
        blocked(g, p, first_blocked_from(g, p, k)),
        forall|j: int| k <= j < first_blocked_from(g, p, k) ==> !blocked(g, p, j),
    decreases 22 - k,
{
    if !blocked(g, p, k) {
        lemma_first_blocked_from(g, p, k + 1);
    }
}

/// A piece whose cells are on the grid is blocked 22 rows further down: its
/// center row would leave the grid.
proof fn lemma_blocked_below(g: Seq<Seq<i16>>, p: Piece)
    requires
        piece_in_grid(p),
    ensures
        blocked(g, p, 22),
        0 <= first_blocked(g, p) <= 22,
        blocked(g, p, first_blocked(g, p)),
        forall|j: int| 0 <= j < first_blocked(g, p) ==> !blocked(g, p, j),
{
    assert(pt_in(piece_points(p)[3]));
    assert(piece_points(lowered(p, 22))[3].0 == p.center.0 + 22);
    assert(!pt_in(piece_points(lowered(p, 22))[3]));
    assert(!pts_in_grid(piece_points(lowered(p, 22))));
    lemma_first_blocked_from(g, p, 0);
}

impl Game {
    /// Mathematical view of the playfield.
    pub open spec fn field(&self) -> Seq<Seq<i16>> {
        Seq::new(22, |r: int| Seq::new(10, |c: int| self.playfield[r][c]))
    }

    /// The moving piece is well formed, colored 1..=7, and entirely on the
    /// grid.
    pub open spec fn moving_wf(&self) -> bool {
        &&& shape_wf(self.moving_piece)
        &&& 1 <= self.moving_piece.color <= 7
        &&& piece_usable(self.moving_piece)
        &&& piece_in_grid(self.moving_piece)
    }

    /// The ghost piece, when present, is well formed, carries the ghost
    /// marker color, and is entirely on the grid.
    pub open spec fn ghost_wf(&self) -> bool {
        match self.ghost_piece {
            Some(gp) => shape_wf(gp) && gp.color == -1 && piece_usable(gp) && piece_in_grid(gp),
            None => true,
        }
    }

    /// Unambiguous cell ownership: every positive cell that is not a locked
    /// block belongs to the moving piece's footprint and holds its color.
    pub open spec fn cells_owned(&self) -> bool {
        forall|r: int, c: int|
            0 <= r < 22 && 0 <= c < 10 && 0 < #[trigger] self.field()[r][c] && self.field()[r][c]
                != 8 ==> in_pts(piece_points(self.moving_piece), (r, c)) && self.field()[r][c]
                == self.moving_piece.color
    }

    /// Every negative cell is the ghost marker `-1` and lies in the current
    /// ghost piece's footprint.
    pub open spec fn ghost_cells_marked(&self) -> bool {
        forall|r: int, c: int|
            0 <= r < 22 && 0 <= c < 10 && #[trigger] self.field()[r][c] < 0 ==> self.field()[r][c]
                == -1 && (self.ghost_piece matches Some(gp) && in_pts(piece_points(gp), (r, c)))
    }

    /// The moving piece's footprint is currently drawn on the grid: all four
    /// of its cells show its color. This holds after every operation; only a
    /// freshly constructed game has its first piece not yet drawn.
    pub open spec fn footprint_drawn(&self) -> bool {
        forall|i: int|
            0 <= i < 4 ==> grid_at(self.field(), #[trigger] piece_points(self.moving_piece)[i])
                == self.moving_piece.color
    }

    /// No locked block sits under the moving piece's footprint.
    pub open spec fn moving_cells_clear(&self) -> bool {
        forall|i: int|
            0 <= i < 4 ==> grid_at(self.field(), #[trigger] piece_points(self.moving_piece)[i])
                != 8
    }

    /// Every queued piece is a freshly spawned piece of some type, and no
    /// two queued pieces share a color: the queue is always part of one
    /// shuffled bag of the seven types.
    pub open spec fn queue_wf(&self) -> bool {
        &&& forall|i: int|
            0 <= i < self.next_pieces@.len() ==> is_some_spawn_piece(
                #[trigger] self.next_pieces@[i],
            )
        &&& forall|i: int, j: int|
            0 <= i < j < self.next_pieces@.len() ==> #[trigger] self.next_pieces@[i].color
                != #[trigger] self.next_pieces@[j].color
    }

    /// The held piece, when present, is well formed and colored 1..=7.
    pub open spec fn held_wf(&self) -> bool {
        match self.held_piece {
            Some(hp) => shape_wf(hp) && 1 <= hp.color <= 7 && piece_usable(hp),
            None => true,
        }
    }

    /// The grid-related part of the engine invariant.
    pub open spec fn grid_inv(&self) -> bool {
        &&& self.moving_wf()
        &&& self.ghost_wf()
        &&& self.cells_owned()
        &&& self.ghost_cells_marked()
        &&& self.moving_cells_clear()
    }

    /// The engine invariant: every public operation preserves it (except
    /// that a fatal spawn overlap, the game-over signal, may leave the
    /// overlapping spawn footprint partially drawn).
    pub open spec fn inv(&self) -> bool {
        &&& self.grid_inv()
        &&& self.queue_wf()
        &&& self.held_wf()
        &&& self.level >= 1
    }

    /// All fields other than the grid, the moving piece and the ghost piece
    /// are equal.
    pub open spec fn same_counters(a: Game, b: Game) -> bool {
        &&& a.score == b.score
        &&& a.level == b.level
        &&& a.lines_cleared == b.lines_cleared
        &&& a.next_pieces == b.next_pieces
        &&& a.held_piece == b.held_piece
    }

    /// Write `piece`'s color to its four cells, in order. A cell outside the
    /// grid stops the walk with `OutOfBounds`; a cell already holding the
    /// piece's color is skipped; a cell holding another positive value stops
    /// the walk with `OverlappingMinoes`. Earlier writes survive an error.
    #[verifier::loop_isolation(false)]
    pub fn fill_piece_points(&mut self, piece: &Piece) -> (r: Result<(), MinoesError>)
        requires
            piece_usable(*piece),
            points_ok(*piece),
        ensures
            final(self).field() == fill_grid(old(self).field(), piece_points(*piece), piece.color),
            final(self).moving_piece == old(self).moving_piece,
            final(self).ghost_piece == old(self).ghost_piece,
            Game::same_counters(*final(self), *old(self)),
            match r {
                Ok(()) => fill_out(old(self).field(), piece_points(*piece), piece.color)
                    == FillOutcome::Filled,
                Err(MinoesError::OutOfBounds(_)) => fill_out(
                    old(self).field(),
                    piece_points(*piece),
                    piece.color,
                ) == FillOutcome::HitOutOfBounds,
                Err(MinoesError::OverlappingMinoes(_)) => fill_out(
                    old(self).field(),
                    piece_points(*piece),
                    piece.color,
                ) == FillOutcome::HitOverlap,
            },
    {
        let piece_points_arr = piece.get_piece_points().unwrap();
        let ghost pts = piece_points(*piece);
        let mut i: usize = 0;
        proof {
            assert(pts.skip(0) =~= pts);
        }
        while i < 4
            invariant
                0 <= i <= 4,
                fill_seq(old(self).field(), pts, piece.color) == fill_seq(
                    self.field(),
                    pts.skip(i as int),
                    piece.color,
                ),
                self.moving_piece == old(self).moving_piece,
                self.ghost_piece == old(self).ghost_piece,
                Game::same_counters(*self, *old(self)),
            decreases 4 - i,
        {
            proof {
                assert(pts.skip(i as int)[0] == pts[i as int]);
                assert(pts.skip(i as int).drop_first() =~= pts.skip(i as int + 1));
            }
            let point = piece_points_arr[i];
            if point.0 < 0 || point.1 < 0 {
                return Err(MinoesError::OutOfBounds(OutOfBoundsError));
            }
            if point.0 >= 22 || point.1 >= 10 {
                return Err(MinoesError::OutOfBounds(OutOfBoundsError));
            }
            let v = self.playfield[point.0 as usize][point.1 as usize];
            if v == piece.color {
                // the cell already shows this piece
            } else if v > 0 {
                return Err(MinoesError::OverlappingMinoes(OverlappingMinoesError));
            } else {
                let prev = Ghost(self.field());
                self.playfield[point.0 as usize][point.1 as usize] = piece.color;
                proof {
                    assert(self.field() =~~= grid_set(prev@, pts[i as int], piece.color));
                }
            }
            i = i + 1;
        }
        Ok(())
    }

    /// Zero every cell of `piece`'s footprint that still holds exactly the
    /// piece's color, in order; a cell outside the grid stops the walk with
    /// `OutOfBounds`. Cells holding any other value are left alone, so a
    /// piece that has since been overwritten is not erased by accident.
    #[verifier::loop_isolation(false)]
    pub fn clear_piece_points(&mut self, piece: &Piece) -> (r: Result<(), OutOfBoundsError>)
        requires
            piece_usable(*piece),
            points_ok(*piece),
        ensures
            final(self).field() == clear_grid(
                old(self).field(),
                piece_points(*piece),
                piece.color,
            ),
            final(self).moving_piece == old(self).moving_piece,
            final(self).ghost_piece == old(self).ghost_piece,
            Game::same_counters(*final(self), *old(self)),
            r is Ok <==> clear_ok(old(self).field(), piece_points(*piece), piece.color),
    {
        let piece_points_arr = piece.get_piece_points().unwrap();
        let ghost pts = piece_points(*piece);
        let mut i: usize = 0;
        proof {
            assert(pts.skip(0) =~= pts);
        }
        while i < 4
            invariant
                0 <= i <= 4,
                clear_seq(old(self).field(), pts, piece.color) == clear_seq(
                    self.field(),
                    pts.skip(i as int),
                    piece.color,
                ),
                self.moving_piece == old(self).moving_piece,
                self.ghost_piece == old(self).ghost_piece,
                Game::same_counters(*self, *old(self)),
            decreases 4 - i,
        {
            proof {
                assert(pts.skip(i as int)[0] == pts[i as int]);
                assert(pts.skip(i as int).drop_first() =~= pts.skip(i as int + 1));
            }
            let point = piece_points_arr[i];
            if point.0 < 0 || point.1 < 0 {
                return Err(OutOfBoundsError);
            }
            if point.0 >= 22 || point.1 >= 10 {
                return Err(OutOfBoundsError);
            }
            if self.playfield[point.0 as usize][point.1 as usize] == piece.color {
                let prev = Ghost(self.field());
                self.playfield[point.0 as usize][point.1 as usize] = 0;
                proof {
                    assert(self.field() =~~= grid_set(prev@, pts[i as int], 0));
                }
            }
            i = i + 1;
        }
        Ok(())
    }

    /// Check whether the piece's position is legal: `Ok` when every one of
    /// its four cells lies on the grid and holds no positive value;
    /// `OutOfBounds` when a cell (or the relative-cell computation itself)
    /// leaves the grid; `OverlappingMinoes` when a cell holds a positive
    /// value. Cells are checked in order and the first violation decides
    /// which error is reported.
    #[verifier::loop_isolation(false)]
    pub fn piece_is_in_allowed_position(&self, piece: &Piece) -> (r: Result<(), MinoesError>)
        requires
            piece_usable(*piece),
        ensures
            r is Ok <==> points_ok(*piece) && probe_seq(self.field(), piece_points(*piece))
                == FillOutcome::Filled,
            r matches Err(MinoesError::OutOfBounds(_)) <==> (!points_ok(*piece) || probe_seq(
                self.field(),
                piece_points(*piece),
            ) == FillOutcome::HitOutOfBounds),
            r matches Err(MinoesError::OverlappingMinoes(_)) <==> (points_ok(*piece) && probe_seq(
                self.field(),
                piece_points(*piece),
            ) == FillOutcome::HitOverlap),
    {
        let piece_points_arr = match piece.get_piece_points() {
            Ok(points) => points,
            Err(_) => {
                return Err(MinoesError::OutOfBounds(OutOfBoundsError));
            },
        };
        let ghost pts = piece_points(*piece);
        let mut i: usize = 0;
        proof {
            assert(pts.skip(0) =~= pts);
        }
        while i < 4
            invariant
                0 <= i <= 4,
                points_ok(*piece),
                probe_seq(self.field(), pts) == probe_seq(self.field(), pts.skip(i as int)),
            decreases 4 - i,
        {
            proof {
                assert(pts.skip(i as int)[0] == pts[i as int]);
                assert(pts.skip(i as int).drop_first() =~= pts.skip(i as int + 1));
            }
            let point = piece_points_arr[i];
            if point.0 < 0 || point.1 < 0 {
                return Err(MinoesError::OutOfBounds(OutOfBoundsError));
            }
            if point.0 >= 22 || point.1 >= 10 {
                return Err(MinoesError::OutOfBounds(OutOfBoundsError));
            }
            if self.playfield[point.0 as usize][point.1 as usize] > 0 {
                return Err(MinoesError::OverlappingMinoes(OverlappingMinoesError));
            }
            i = i + 1;
        }
        Ok(())
    }

    /// Bounds-only predicate used by the ghost projector's descent: true
    /// when the piece's cells cannot be computed or one of them leaves the
    /// grid.
    #[verifier::loop_isolation(false)]
    pub fn piece_is_out_of_bounds(&self, piece: &Piece) -> (r: bool)
        requires
            piece_usable(*piece),
        ensures
            r == !piece_in_grid(*piece),
    {
        let piece_points_arr = match piece.get_piece_points() {
            Ok(points) => points,
            Err(_) => {
                return true;
            },
        };
        let ghost pts = piece_points(*piece);
        let mut i: usize = 0;
        while i < 4
            invariant
                0 <= i <= 4,
                points_ok(*piece),
                forall|k: int| 0 <= k < i ==> pt_in(#[trigger] pts[k]),
            decreases 4 - i,
        {
            let point = piece_points_arr[i];
            if point.0 < 0 || point.1 < 0 {
                return true;
            }
            if point.0 >= 22 || point.1 >= 10 {
                return true;
            }
            i = i + 1;
        }
        false
    }

    /// Whether any of the piece's four cells currently holds the value
    /// `checked`.
    #[verifier::loop_isolation(false)]
    pub fn piece_is_overlapping_with(&self, piece: &Piece, checked: i16) -> (r: bool)
        requires
            piece_usable(*piece),
            piece_in_grid(*piece),
        ensures
            r == exists|k: int|
                0 <= k < 4 && grid_at(self.field(), #[trigger] piece_points(*piece)[k]) == checked,
    {
        let piece_points_arr = piece.get_piece_points().unwrap();
        let ghost pts = piece_points(*piece);
        let mut i: usize = 0;
        while i < 4
            invariant
                0 <= i <= 4,
                forall|k: int|
                    0 <= k < i ==> grid_at(self.field(), #[trigger] pts[k]) != checked,
            decreases 4 - i,
        {
            let point = piece_points_arr[i];
            if self.playfield[point.0 as usize][point.1 as usize] == checked {
                proof {
                    assert(grid_at(self.field(), pts[i as int]) == checked);
                }
                return true;
            }
            i = i + 1;
        }
        false
    }

    /// Write the locked-block marker `8` to the four given cells,
    /// unconditionally.
    #[verifier::loop_isolation(false)]
    pub fn fill_field_with_dropped_points(&mut self, points: [Point; 4])
        requires
            pts_in_grid(pts_of_arr(points)),
        ensures
            final(self).field() == painted(old(self).field(), pts_of_arr(points), 8),
            final(self).moving_piece == old(self).moving_piece,
            final(self).ghost_piece == old(self).ghost_piece,
            Game::same_counters(*final(self), *old(self)),
    {
        let ghost pts = pts_of_arr(points);
        let mut i: usize = 0;
        proof {
            assert(self.field() =~~= painted(old(self).field(), pts.take(0), 8));
        }
        while i < 4
            invariant
                0 <= i <= 4,
                self.field() == painted(old(self).field(), pts.take(i as int), 8),
                self.moving_piece == old(self).moving_piece,
                self.ghost_piece == old(self).ghost_piece,
                Game::same_counters(*self, *old(self)),
            decreases 4 - i,
        {
            let point = points[i];
            let prev = Ghost(self.field());
            proof {
                assert(pt_in(pts[i as int]));
            }
            self.playfield[point.0 as usize][point.1 as usize] = 8;
            proof {
                assert(self.field() =~~= grid_set(prev@, pts[i as int], 8));
                assert(self.field() =~~= painted(old(self).field(), pts.take(i as int + 1), 8))
                    by {
                    assert forall|r: int, c: int|
                        0 <= r < 22 && 0 <= c < 10 implies grid_set(prev@, pts[i as int], 8)[r][c]
                        == painted(old(self).field(), pts.take(i as int + 1), 8)[r][c] by {
                        lemma_in_pts_take(pts, i as int, (r, c));
                    }
                }
            }
            i = i + 1;
        }
        proof {
            assert(pts.take(4) =~= pts);
        }
    }

    /// Recompute the ghost piece: clear the previous ghost footprint, drop a
    /// marker-colored copy of the moving piece until it would leave the grid
    /// or rest on a locked block, back up one row, draw it (silently leaving
    /// alone cells the moving piece already holds), and re-draw the moving
    /// piece's footprint on top.
    #[verifier::loop_isolation(false)]
    #[verifier::rlimit(60)]
    pub fn update_ghost_piece(&mut self)
        requires
            old(self).grid_inv(),
        ensures
            final(self).grid_inv(),
            final(self).field() == ghost_pass_grid(
                old(self).field(),
                old(self).moving_piece,
                old(self).ghost_piece,
            ),
            final(self).ghost_piece == Some(
                ghost_pass_piece(old(self).field(), old(self).moving_piece, old(self).ghost_piece),
            ),
            final(self).moving_piece == old(self).moving_piece,
            final(self).footprint_drawn(),
            Game::same_counters(*final(self), *old(self)),
    {
        let ghost g0 = old(self).field();
        let moving = self.moving_piece;
        if let Some(old_gp) = self.ghost_piece {
            proof {
                lemma_clear_in_grid(g0, piece_points(old_gp), -1i16);
            }
            self.clear_piece_points(&old_gp).unwrap();
        }
        let ghost g1 = self.field();
        proof {
            // after the clear, no ghost marker cells remain anywhere
            assert forall|r: int, c: int| 0 <= r < 22 && 0 <= c < 10 implies g1[r][c] >= 0 by {
                if old(self).ghost_piece is Some {
                    let op = old(self).ghost_piece.unwrap();
                    assert(g1 == erased(g0, piece_points(op), -1i16));
                    if g0[r][c] < 0 {
                        assert(g0[r][c] == -1 && in_pts(piece_points(op), (r, c)));
                    }
                } else {
                    if g0[r][c] < 0 {
                        assert(false);
                    }
                }
            }
            // positive cells are untouched by the clear
            assert forall|r: int, c: int|
                0 <= r < 22 && 0 <= c < 10 && g1[r][c] > 0 implies g1[r][c] == g0[r][c] by {
                if old(self).ghost_piece is Some {
                    let op = old(self).ghost_piece.unwrap();
                    assert(g1 == erased(g0, piece_points(op), -1i16));
                }
            }
        }
        let mut ghost_piece = moving;
        ghost_piece.color = -1;
        let ghost gm = ghost_piece;
        proof {
            assert forall|j: int| true implies #[trigger] crate::geom::piece_rel(gm, j)
                == crate::geom::piece_rel(moving, j) by {}
            assert forall|i: int| true implies #[trigger] piece_point(gm, i) == piece_point(
                moving,
                i,
            ) by {}
            assert(piece_points(gm) =~= piece_points(moving));
            assert(points_ok(gm));
            assert(piece_sums_fit(gm));
            assert(piece_in_grid(gm));
            lemma_blocked_below(g1, gm);
        }
        let ghost fb = first_blocked(g1, gm);
        let mut lowered_counter: usize = 0;
        proof {
            assert(lowered(gm, 0) == gm);
        }
        while !self.piece_is_out_of_bounds(&ghost_piece) && !self.piece_is_overlapping_with(
            &ghost_piece,
            8,
        )
            invariant
                0 <= lowered_counter <= 22,
                ghost_piece == lowered(gm, lowered_counter as int),
                piece_usable(ghost_piece),
                forall|j: int| 0 <= j < lowered_counter ==> !blocked(g1, gm, j),
            decreases 22 - lowered_counter,
        {
            proof {
                assert(!blocked(g1, gm, lowered_counter as int));
                assert(lowered_counter < 22);
            }
            ghost_piece.move_piece(&TetrisDirection::Down);
            lowered_counter = lowered_counter + 1;
            proof {
                assert(ghost_piece == lowered(gm, lowered_counter as int));
                assert(piece_in_grid(lowered(gm, lowered_counter as int - 1)));
                assert(0 <= gm.center.0 <= 21 && 0 <= gm.center.1 <= 9) by {
                    assert(pt_in(piece_points(gm)[3]));
                }
                assert(piece_sums_fit(ghost_piece)) by {
                    assert forall|j: int|
                        0 <= j < 3 implies -32768 <= ghost_piece.center.0 + (
                        #[trigger] crate::geom::piece_rel(ghost_piece, j)).0 <= 32767 && -32768
                        <= ghost_piece.center.1 + crate::geom::piece_rel(ghost_piece, j).1
                        <= 32767 by {
                        assert(crate::geom::rel_ok(
                            ghost_piece.rotations[ghost_piece.current_rotation_id as int][j],
                        ));
                    }
                }
            }
        }
        proof {
            // the loop stopped at the first blocked offset
            assert(blocked(g1, gm, lowered_counter as int));
            if fb < lowered_counter as int {
                assert(!blocked(g1, gm, fb));
                assert(false);
            }
            if fb > lowered_counter as int {
                assert(!blocked(g1, gm, lowered_counter as int));
                assert(false);
            }
            assert(fb == lowered_counter as int);
            assert(0 <= gm.center.0 <= 21 && 0 <= gm.center.1 <= 9) by {
                assert(pt_in(piece_points(gm)[3]));
            }
            assert(gm == (Piece { color: -1i16, ..moving }));
        }
        if lowered_counter != 0 {
            ghost_piece.move_piece(&TetrisDirection::Up);
            proof {
                assert(ghost_piece == lowered(gm, lowered_counter as int - 1));
            }
        }
        proof {
            assert(ghost_piece == spec_ghost_piece(g1, moving));
            if fb == 0 {
                assert(ghost_piece == gm);
                assert(piece_in_grid(ghost_piece));
            } else {
                assert(!blocked(g1, gm, fb - 1));
                assert(piece_in_grid(ghost_piece));
            }
            assert(piece_sums_fit(ghost_piece)) by {
                assert(0 <= ghost_piece.center.0 <= 21 && 0 <= ghost_piece.center.1 <= 9) by {
                    assert(pt_in(piece_points(ghost_piece)[3]));
                }
                assert forall|j: int|
                    0 <= j < 3 implies -32768 <= ghost_piece.center.0 + (
                    #[trigger] crate::geom::piece_rel(ghost_piece, j)).0 <= 32767 && -32768
                    <= ghost_piece.center.1 + crate::geom::piece_rel(ghost_piece, j).1
                    <= 32767 by {
                    assert(crate::geom::rel_ok(
                        ghost_piece.rotations[ghost_piece.current_rotation_id as int][j],
                    ));
                }
            }
        }
        match self.fill_piece_points(&ghost_piece) {
            Ok(_) => {},
            Err(_) => {},
        }
        self.ghost_piece = Some(ghost_piece);
        let ghost g2 = self.field();
        let mp = self.moving_piece;
        proof {
            lemma_fill_writes(g1, piece_points(ghost_piece), -1i16);
            assert(g2 == fill_grid(g1, piece_points(ghost_piece), -1i16));
            // every cell under the moving piece is free for its own color
            assert forall|i: int|
                0 <= i < piece_points(mp).len() implies pt_in(#[trigger] piece_points(mp)[i]) && (
            grid_at(g2, piece_points(mp)[i]) <= 0 || grid_at(g2, piece_points(mp)[i])
                == mp.color) by {
                let q = piece_points(mp)[i];
                assert(pt_in(q));
                assert(in_pts(piece_points(mp), q));
                if grid_at(g2, q) > 0 {
                    assert(grid_at(g2, q) == grid_at(g1, q));
                    assert(g1[q.0][q.1] == g0[q.0][q.1]);
                    assert(grid_at(g0, q) != 8);
                    assert(grid_at(g0, q) == mp.color);
                }
            }
            lemma_fill_free(g2, piece_points(mp), mp.color);
        }
        let fill_result = self.fill_piece_points(&mp);
        proof {
            assert(fill_result is Ok);
        }
        fill_result.unwrap();
        proof {
            let gf = self.field();
            assert(gf == painted(g2, piece_points(mp), mp.color));
            assert(self.cells_owned()) by {
                assert forall|r: int, c: int|
                    0 <= r < 22 && 0 <= c < 10 && 0 < #[trigger] gf[r][c] && gf[r][c]
                        != 8 implies in_pts(piece_points(mp), (r, c)) && gf[r][c] == mp.color by {
                    if !in_pts(piece_points(mp), (r, c)) {
                        assert(gf[r][c] == g2[r][c]);
                        assert(grid_at(g2, (r, c)) == grid_at(g1, (r, c)));
                        assert(g1[r][c] == g0[r][c]);
                    }
                }
            }
            assert(self.ghost_cells_marked()) by {
                assert forall|r: int, c: int|
                    0 <= r < 22 && 0 <= c < 10 && #[trigger] gf[r][c] < 0 implies gf[r][c] == -1
                    && (self.ghost_piece matches Some(gp) && in_pts(piece_points(gp), (r, c))) by {
                    assert(!in_pts(piece_points(mp), (r, c)));
                    assert(gf[r][c] == g2[r][c]);
                    assert(g1[r][c] >= 0);
                    assert(grid_at(fill_grid(g1, piece_points(ghost_piece), -1i16), (r, c))
                        == grid_at(g2, (r, c)));
                    assert(grid_at(g2, (r, c)) == -1 && in_pts(piece_points(ghost_piece), (r, c)));
                }
            }
            assert(self.moving_cells_clear()) by {
                assert forall|i: int|
                    0 <= i < 4 implies grid_at(gf, #[trigger] piece_points(mp)[i]) != 8 by {
                    assert(in_pts(piece_points(mp), piece_points(mp)[i]));
                }
            }
            assert(self.footprint_drawn()) by {
                assert forall|i: int|
                    0 <= i < 4 implies grid_at(gf, #[trigger] piece_points(mp)[i])
                    == mp.color by {
                    assert(in_pts(piece_points(mp), piece_points(mp)[i]));
                }
            }
        }
    }

    /// Make `piece` the moving piece and draw its footprint on the grid; on
    /// success the ghost piece is recomputed. An `OverlappingMinoes` error
    /// here is the game-over signal: the spawned piece met a locked block.
    /// On an error the partially drawn footprint is left as it is and the
    /// ghost piece is untouched.
    pub fn add_piece_to_field(&mut self, piece: Piece) -> (r: Result<(), MinoesError>)
        requires
            shape_wf(piece),
            1 <= piece.color <= 7,
            piece_usable(piece),
            points_ok(piece),
            old(self).ghost_wf(),
            old(self).ghost_cells_marked(),
            forall|r: int, c: int|
                0 <= r < 22 && 0 <= c < 10 && 0 < #[trigger] old(self).field()[r][c] && old(self).field()[r][c] != 8 ==> in_pts(piece_points(piece), (r, c)) && old(self).field()[r][c] == piece.color,
        ensures
            final(self).moving_piece == piece,
            Game::same_counters(*final(self), *old(self)),
            r is Ok <==> pts_free_for(old(self).field(), piece_points(piece), piece.color),
            ({
                let out = fill_out(old(self).field(), piece_points(piece), piece.color);
                let gf = fill_grid(old(self).field(), piece_points(piece), piece.color);
                match r {
                    Ok(()) => out == FillOutcome::Filled && final(self).field() == ghost_pass_grid(
                        gf,
                        piece,
                        old(self).ghost_piece,
                    ) && final(self).ghost_piece == Some(
                        ghost_pass_piece(gf, piece, old(self).ghost_piece),
                    ) && final(self).grid_inv() && final(self).footprint_drawn(),
                    Err(MinoesError::OutOfBounds(_)) => out == FillOutcome::HitOutOfBounds && final(self).field() == gf && final(self).ghost_piece == old(self).ghost_piece,
                    Err(MinoesError::OverlappingMinoes(_)) => out == FillOutcome::HitOverlap
                        && final(self).field() == gf && final(self).ghost_piece == old(self).ghost_piece,
                }
            }),
    {
        let ghost g0 = old(self).field();
        self.moving_piece = piece;
        let mp = self.moving_piece;
        let fill_result = self.fill_piece_points(&mp);
        proof {
            if pts_free_for(g0, piece_points(piece), piece.color) {
                lemma_fill_free(g0, piece_points(piece), piece.color);
            } else {
                lemma_fill_blocked(g0, piece_points(piece), piece.color);
            }
        }
        match fill_result {
            Ok(()) => {},
            Err(e) => {
                return Err(e);
            },
        }
        proof {
            let gf = self.field();
            assert(gf == painted(g0, piece_points(piece), piece.color));
            assert(piece_in_grid(piece));
            assert(self.cells_owned()) by {
                assert forall|r: int, c: int|
                    0 <= r < 22 && 0 <= c < 10 && 0 < #[trigger] gf[r][c] && gf[r][c]
                        != 8 implies in_pts(piece_points(piece), (r, c)) && gf[r][c]
                    == piece.color by {
                    if !in_pts(piece_points(piece), (r, c)) {
                        assert(gf[r][c] == g0[r][c]);
                    }
                }
            }
            assert(self.ghost_cells_marked()) by {
                assert forall|r: int, c: int|
                    0 <= r < 22 && 0 <= c < 10 && #[trigger] self.field()[r][c] < 0 implies self
                    .field()[r][c] == -1 && (self.ghost_piece matches Some(gp) && in_pts(
                    piece_points(gp),
                    (r, c),
                )) by {
                    assert(!in_pts(piece_points(piece), (r, c)));
                    assert(self.field()[r][c] == g0[r][c]);
                }
            }
            assert(self.moving_cells_clear()) by {
                assert forall|i: int|
                    0 <= i < 4 implies grid_at(gf, #[trigger] piece_points(piece)[i]) != 8 by {
                    assert(in_pts(piece_points(piece), piece_points(piece)[i]));
                }
            }
        }
        self.update_ghost_piece();
        return Ok(());
    }

    /// Move the moving piece one cell in the given direction: its footprint
    /// is cleared, the moved position is validated against the grid, and on
    /// success the ghost piece is recomputed and the piece re-drawn. A
    /// rejected move restores the piece, re-draws its footprint, and reports
    /// `OutOfBounds`; the rejection leaves the game unchanged.
    #[verifier::rlimit(60)]
    pub fn move_moving_piece(&mut self, direction: TetrisDirection) -> (r: Result<
        (),
        OutOfBoundsError,
    >)
        requires
            old(self).inv(),
        ensures
            final(self).inv(),
            Game::same_counters(*final(self), *old(self)),
            ({
                let g1 = clear_grid(
                    old(self).field(),
                    piece_points(old(self).moving_piece),
                    old(self).moving_piece.color,
                );
                let p2 = spec_moved_piece(old(self).moving_piece, direction);
                if piece_allowed(g1, p2) {
                    &&& r is Ok
                    &&& final(self).moving_piece == p2
                    &&& final(self).field() == ghost_pass_grid(g1, p2, old(self).ghost_piece)
                    &&& final(self).ghost_piece == Some(
                        ghost_pass_piece(g1, p2, old(self).ghost_piece),
                    )
                } else {
                    &&& r is Err
                    &&& final(self).moving_piece == old(self).moving_piece
                    &&& final(self).ghost_piece == old(self).ghost_piece
                    &&& final(self).field() == fill_grid(
                        g1,
                        piece_points(old(self).moving_piece),
                        old(self).moving_piece.color,
                    )
                }
            }),
            r is Err && old(self).footprint_drawn() ==> final(self).field() == old(self).field(),
            r is Ok ==> final(self).footprint_drawn(),
    {
        let ghost g0 = old(self).field();
        let p0 = self.moving_piece;
        proof {
            lemma_clear_in_grid(g0, piece_points(p0), p0.color);
            assert(0 <= p0.center.0 <= 21 && 0 <= p0.center.1 <= 9) by {
                assert(pt_in(piece_points(p0)[3]));
            }
        }
        self.clear_piece_points(&p0).unwrap();
        let ghost g1 = self.field();
        proof {
            assert(g1 == erased(g0, piece_points(p0), p0.color));
            // the cleared grid has no positive cell besides locked blocks
            assert forall|rr: int, cc: int|
                0 <= rr < 22 && 0 <= cc < 10 && 0 < g1[rr][cc] && g1[rr][cc] != 8 implies false by {
                assert(g1[rr][cc] == g0[rr][cc]);
                assert(in_pts(piece_points(p0), (rr, cc)) && g0[rr][cc] == p0.color);
            }
        }
        self.moving_piece.move_piece(&direction);
        let p2 = self.moving_piece;
        proof {
            assert(p2 == spec_moved_piece(p0, direction));
            crate::geom::lemma_center_sums_fit(p2);
        }
        let allowed = self.piece_is_in_allowed_position(&p2);
        if allowed.is_err() {
            self.moving_piece.move_piece(&direction.opposite_direction());
            proof {
                assert(self.moving_piece == p0);
                assert(pts_free_for(g1, piece_points(p0), p0.color)) by {
                    assert forall|i: int|
                        0 <= i < piece_points(p0).len() implies pt_in(
                        #[trigger] piece_points(p0)[i],
                    ) && (grid_at(g1, piece_points(p0)[i]) <= 0 || grid_at(
                        g1,
                        piece_points(p0)[i],
                    ) == p0.color) by {
                        let q = piece_points(p0)[i];
                        if grid_at(g1, q) > 0 && grid_at(g1, q) != p0.color {
                            assert(g1[q.0][q.1] == g0[q.0][q.1]);
                            assert(grid_at(g0, q) != 8);
                            assert(in_pts(piece_points(p0), q));
                        }
                    }
                }
                lemma_fill_free(g1, piece_points(p0), p0.color);
            }
            let fill_result = self.fill_piece_points(&p0);
            proof {
                assert(fill_result is Ok);
            }
            fill_result.unwrap();
            proof {
                let gf = self.field();
                assert(gf == painted(g1, piece_points(p0), p0.color));
                if old(self).footprint_drawn() {
                    assert(gf =~~= g0) by {
                        assert forall|rr: int, cc: int|
                            0 <= rr < 22 && 0 <= cc < 10 implies gf[rr][cc] == g0[rr][cc] by {
                            if in_pts(piece_points(p0), (rr, cc)) {
                                let i = choose|i: int|
                                    0 <= i < piece_points(p0).len() && #[trigger] piece_points(
                                        p0,
                                    )[i] == (rr, cc);
                                assert(grid_at(g0, piece_points(p0)[i]) == p0.color);
                            }
                        }
                    }
                }
                assert(self.cells_owned()) by {
                    assert forall|rr: int, cc: int|
                        0 <= rr < 22 && 0 <= cc < 10 && 0 < #[trigger] gf[rr][cc] && gf[rr][cc]
                            != 8 implies in_pts(piece_points(p0), (rr, cc)) && gf[rr][cc]
                        == p0.color by {
                        if !in_pts(piece_points(p0), (rr, cc)) {
                            assert(gf[rr][cc] == g1[rr][cc]);
                        }
                    }
                }
                assert(self.ghost_cells_marked()) by {
                    assert forall|rr: int, cc: int|
                        0 <= rr < 22 && 0 <= cc < 10 && #[trigger] self.field()[rr][cc]
                            < 0 implies self.field()[rr][cc] == -1 && (self.ghost_piece matches Some(
                            gp,
                        ) && in_pts(piece_points(gp), (rr, cc))) by {
                        assert(!in_pts(piece_points(p0), (rr, cc)) || grid_at(
                            gf,
                            (rr, cc),
                        ) == p0.color);
                        if self.field()[rr][cc] < 0 {
                            assert(gf[rr][cc] == g1[rr][cc]);
                            assert(g1[rr][cc] == g0[rr][cc]);
                        }
                    }
                }
                assert(self.moving_cells_clear()) by {
                    assert forall|i: int|
                        0 <= i < 4 implies grid_at(gf, #[trigger] piece_points(p0)[i]) != 8 by {
                        assert(in_pts(piece_points(p0), piece_points(p0)[i]));
                    }
                }
            }
            return Err(OutOfBoundsError);
        }
        proof {
            lemma_probe_iff(g1, piece_points(p2));
            assert(piece_in_grid(p2));
            assert(self.moving_cells_clear()) by {
                assert forall|i: int|
                    0 <= i < 4 implies grid_at(g1, #[trigger] piece_points(p2)[i]) != 8 by {}
            }
        }
        self.update_ghost_piece();
        let mp = self.moving_piece;
        proof {
            assert(pts_free_for(self.field(), piece_points(mp), mp.color)) by {
                assert forall|i: int|
                    0 <= i < piece_points(mp).len() implies pt_in(#[trigger] piece_points(mp)[i])
                    && (grid_at(self.field(), piece_points(mp)[i]) <= 0 || grid_at(
                    self.field(),
                    piece_points(mp)[i],
                ) == mp.color) by {}
            }
            lemma_fill_free(self.field(), piece_points(mp), mp.color);
            let gu = self.field();
            assert(fill_grid(gu, piece_points(mp), mp.color) =~~= gu) by {
                assert forall|rr: int, cc: int|
                    0 <= rr < 22 && 0 <= cc < 10 implies painted(
                    gu,
                    piece_points(mp),
                    mp.color,
                )[rr][cc] == gu[rr][cc] by {
                    if in_pts(piece_points(mp), (rr, cc)) {
                        let i = choose|i: int|
                            0 <= i < piece_points(mp).len() && #[trigger] piece_points(mp)[i] == (
                            rr,
                            cc,
                            );
                        assert(grid_at(gu, piece_points(mp)[i]) == mp.color);
                    }
                }
            }
        }
        let fill_result = self.fill_piece_points(&mp);
        proof {
            assert(fill_result is Ok);
        }
        fill_result.unwrap();
        Ok(())
    }

    /// Rotate the moving piece using the fixed wall-kick table: its footprint
    /// is cleared, then for each kick offset in order the piece is
    /// translated and rotated and the position tested; the first legal
    /// position is kept, re-drawn, and the ghost recomputed. If every kick
    /// fails, the piece is restored exactly, its footprint re-drawn, and
    /// `OutOfBounds` reported; the rejection leaves the game unchanged.
    #[verifier::loop_isolation(false)]
    #[verifier::rlimit(100)]
    pub fn rotate_moving_piece(&mut self, direction: &Rotation) -> (r: Result<(), OutOfBoundsError>)
        requires
            old(self).inv(),
        ensures
            final(self).inv(),
            Game::same_counters(*final(self), *old(self)),
            ({
                let g1 = clear_grid(
                    old(self).field(),
                    piece_points(old(self).moving_piece),
                    old(self).moving_piece.color,
                );
                match first_good_kick(g1, old(self).moving_piece, *direction) {
                    Some(i) => {
                        &&& r is Ok
                        &&& final(self).moving_piece == kicked_piece(
                            old(self).moving_piece,
                            *direction,
                            kick_offsets()[i],
                        )
                        &&& final(self).field() == ghost_pass_grid(
                            fill_grid(
                                g1,
                                piece_points(final(self).moving_piece),
                                old(self).moving_piece.color,
                            ),
                            final(self).moving_piece,
                            old(self).ghost_piece,
                        )
                        &&& final(self).ghost_piece == Some(
                            ghost_pass_piece(
                                fill_grid(
                                    g1,
                                    piece_points(final(self).moving_piece),
                                    old(self).moving_piece.color,
                                ),
                                final(self).moving_piece,
                                old(self).ghost_piece,
                            ),
                        )
                    },
                    None => {
                        &&& r is Err
                        &&& final(self).moving_piece == old(self).moving_piece
                        &&& final(self).ghost_piece == old(self).ghost_piece
                        &&& final(self).field() == fill_grid(
                            g1,
                            piece_points(old(self).moving_piece),
                            old(self).moving_piece.color,
                        )
                    },
                }
            }),
            r is Err && old(self).footprint_drawn() ==> final(self).field() == old(self).field(),
            r is Ok ==> final(self).footprint_drawn(),
    {
        let ghost g0 = old(self).field();
        let old_piece = self.moving_piece;
        proof {
            lemma_clear_in_grid(g0, piece_points(old_piece), old_piece.color);
            assert(0 <= old_piece.center.0 <= 21 && 0 <= old_piece.center.1 <= 9) by {
                assert(pt_in(piece_points(old_piece)[3]));
            }
        }
        self.clear_piece_points(&old_piece).unwrap();
        let ghost g1 = self.field();
        proof {
            assert(g1 == erased(g0, piece_points(old_piece), old_piece.color));
            assert forall|rr: int, cc: int|
                0 <= rr < 22 && 0 <= cc < 10 && 0 < g1[rr][cc] && g1[rr][cc] != 8 implies false by {
                assert(g1[rr][cc] == g0[rr][cc]);
                assert(in_pts(piece_points(old_piece), (rr, cc)) && g0[rr][cc]
                    == old_piece.color);
            }
        }
        let kicks: [(i16, i16); 5] = [(0, 0), (-1, 0), (-1, 1), (0, -2), (-1, -2)];
        let mut ok = false;
        let mut i: usize = 0;
        while i < 5 && !ok
            invariant
                0 <= i <= 5,
                self.field() == g1,
                self.ghost_piece == old(self).ghost_piece,
                Game::same_counters(*self, *old(self)),
                !ok ==> self.moving_piece == old_piece && first_good_kick(
                    g1,
                    old_piece,
                    *direction,
                ) == first_good_kick_from(g1, old_piece, *direction, i as int),
                ok ==> i < 5 && self.moving_piece == kicked_piece(
                    old_piece,
                    *direction,
                    kick_offsets()[i as int],
                ) && piece_allowed(g1, self.moving_piece) && first_good_kick(
                    g1,
                    old_piece,
                    *direction,
                ) == Some(i as int),
            decreases 11 - 2 * (i as int) - (if ok { 1int } else { 0int }),
        {
            let (kick_x, kick_y) = kicks[i];
            proof {
                assert((kick_x as int, kick_y as int) == kick_offsets()[i as int] && -2 <= kick_x
                    <= 2 && -2 <= kick_y <= 2) by {
                    if i == 0 {
                    } else if i == 1 {
                    } else if i == 2 {
                    } else if i == 3 {
                    } else {
                    }
                }
            }
            self.moving_piece.move_piece_by(kick_x, kick_y);
            self.moving_piece.rotate_piece(direction);
            let mp = self.moving_piece;
            proof {
                assert(mp == kicked_piece(old_piece, *direction, kick_offsets()[i as int]));
                assert(shape_wf(mp));
                crate::geom::lemma_center_sums_fit(mp);
            }
            let allowed = self.piece_is_in_allowed_position(&mp);
            if allowed.is_ok() {
                ok = true;
                proof {
                    assert(piece_allowed(g1, mp));
                    assert(first_good_kick_from(g1, old_piece, *direction, i as int) == Some(
                        i as int,
                    ));
                }
            } else {
                proof {
                    assert(!piece_allowed(g1, mp));
                    assert(first_good_kick_from(g1, old_piece, *direction, i as int)
                        == first_good_kick_from(g1, old_piece, *direction, i as int + 1));
                }
                self.moving_piece.move_piece_by(-kick_x, -kick_y);
                self.moving_piece.rotate_piece(&direction.other_direction());
                proof {
                    crate::geom::lemma_rotation_round_trip(
                        Piece { current_rotation_id: old_piece.current_rotation_id, ..mp },
                        *direction,
                    );
                    assert(self.moving_piece == old_piece);
                }
                i = i + 1;
            }
        }
        if !ok {
            proof {
                assert(pts_free_for(g1, piece_points(old_piece), old_piece.color)) by {
                    assert forall|k: int|
                        0 <= k < piece_points(old_piece).len() implies pt_in(
                        #[trigger] piece_points(old_piece)[k],
                    ) && (grid_at(g1, piece_points(old_piece)[k]) <= 0 || grid_at(
                        g1,
                        piece_points(old_piece)[k],
                    ) == old_piece.color) by {
                        let q = piece_points(old_piece)[k];
                        if grid_at(g1, q) > 0 && grid_at(g1, q) != old_piece.color {
                            assert(g1[q.0][q.1] == g0[q.0][q.1]);
                        }
                    }
                }
                lemma_fill_free(g1, piece_points(old_piece), old_piece.color);
            }
            let fill_result = self.fill_piece_points(&old_piece);
            proof {
                assert(fill_result is Ok);
            }
            fill_result.unwrap();
            proof {
                let gf = self.field();
                assert(gf == painted(g1, piece_points(old_piece), old_piece.color));
                if old(self).footprint_drawn() {
                    assert(gf =~~= g0) by {
                        assert forall|rr: int, cc: int|
                            0 <= rr < 22 && 0 <= cc < 10 implies gf[rr][cc] == g0[rr][cc] by {
                            if in_pts(piece_points(old_piece), (rr, cc)) {
                                let k = choose|k: int|
                                    0 <= k < piece_points(old_piece).len()
                                        && #[trigger] piece_points(old_piece)[k] == (rr, cc);
                                assert(grid_at(g0, piece_points(old_piece)[k])
                                    == old_piece.color);
                            }
                        }
                    }
                }
                assert(self.cells_owned()) by {
                    assert forall|rr: int, cc: int|
                        0 <= rr < 22 && 0 <= cc < 10 && 0 < #[trigger] gf[rr][cc] && gf[rr][cc]
                            != 8 implies in_pts(piece_points(old_piece), (rr, cc)) && gf[rr][cc]
                        == old_piece.color by {
                        if !in_pts(piece_points(old_piece), (rr, cc)) {
                            assert(gf[rr][cc] == g1[rr][cc]);
                        }
                    }
                }
                assert(self.ghost_cells_marked()) by {
                    assert forall|rr: int, cc: int|
                        0 <= rr < 22 && 0 <= cc < 10 && #[trigger] self.field()[rr][cc]
                            < 0 implies self.field()[rr][cc] == -1 && (self.ghost_piece matches Some(
                            gp,
                        ) && in_pts(piece_points(gp), (rr, cc))) by {
                        if self.field()[rr][cc] < 0 {
                            assert(gf[rr][cc] == g1[rr][cc]);
                            assert(g1[rr][cc] == g0[rr][cc]);
                        }
                    }
                }
                assert(self.moving_cells_clear()) by {
                    assert forall|k: int|
                        0 <= k < 4 implies grid_at(gf, #[trigger] piece_points(old_piece)[k])
                        != 8 by {
                        assert(in_pts(piece_points(old_piece), piece_points(old_piece)[k]));
                    }
                }
            }
            return Err(OutOfBoundsError);
        }
        let mp2 = self.moving_piece;
        proof {
            lemma_probe_iff(g1, piece_points(mp2));
            assert(piece_in_grid(mp2));
            assert(pts_free_for(g1, piece_points(mp2), mp2.color)) by {
                assert forall|k: int|
                    0 <= k < piece_points(mp2).len() implies pt_in(#[trigger] piece_points(mp2)[k])
                    && (grid_at(g1, piece_points(mp2)[k]) <= 0 || grid_at(
                    g1,
                    piece_points(mp2)[k],
                ) == mp2.color) by {}
            }
            lemma_fill_free(g1, piece_points(mp2), mp2.color);
        }
        let fill_result = self.fill_piece_points(&mp2);
        proof {
            assert(fill_result is Ok);
        }
        fill_result.unwrap();
        proof {
            let gf = self.field();
            assert(gf == painted(g1, piece_points(mp2), mp2.color));
            assert(self.cells_owned()) by {
                assert forall|rr: int, cc: int|
                    0 <= rr < 22 && 0 <= cc < 10 && 0 < #[trigger] gf[rr][cc] && gf[rr][cc]
                        != 8 implies in_pts(piece_points(mp2), (rr, cc)) && gf[rr][cc]
                    == mp2.color by {
                    if !in_pts(piece_points(mp2), (rr, cc)) {
                        assert(gf[rr][cc] == g1[rr][cc]);
                    }
                }
            }
            assert(self.ghost_cells_marked()) by {
                assert forall|rr: int, cc: int|
                    0 <= rr < 22 && 0 <= cc < 10 && #[trigger] self.field()[rr][cc] < 0 implies self
                    .field()[rr][cc] == -1 && (self.ghost_piece matches Some(gp) && in_pts(
                    piece_points(gp),
                    (rr, cc),
                )) by {
                    if self.field()[rr][cc] < 0 {
                        assert(gf[rr][cc] == g1[rr][cc]);
                        assert(g1[rr][cc] == g0[rr][cc]);
                    }
                }
            }
            assert(self.moving_cells_clear()) by {
                assert forall|k: int|
                    0 <= k < 4 implies grid_at(gf, #[trigger] piece_points(mp2)[k]) != 8 by {
                    assert(in_pts(piece_points(mp2), piece_points(mp2)[k]));
                }
            }
        }
        self.update_ghost_piece();
        Ok(())
    }

    /// A fresh game: an empty playfield, score 0, level 1, nothing held, no
    /// ghost, a freshly shuffled bag feeding the queue, and the last piece
    /// of the bag popped off as the moving piece. The moving piece is not
    /// yet drawn on the grid; the first operation draws it.
    pub fn new() -> (g: Game)
        ensures
            g.inv(),
            g.field() == empty_field(),
            g.score == 0 && g.level == 1 && g.lines_cleared == 0,
            g.held_piece is None && g.ghost_piece is None,
            is_some_spawn_piece(g.moving_piece),
            g.next_pieces@.len() == 6,
            forall|i: int|
                0 <= i < 6 ==> #[trigger] g.next_pieces@[i].color != g.moving_piece.color,
    {
        let mut next_pieces = crate::bag::fresh_bag();
        let moving_piece = next_pieces.pop().unwrap();
        let game = Game {
            ghost_piece: None,
            moving_piece,
            playfield: [[0; 10]; 22],
            score: 0,
            level: 1,
            lines_cleared: 0,
            next_pieces,
            held_piece: None,
        };
        proof {
            assert(game.field() =~~= empty_field());
            crate::geom::lemma_some_spawn_piece_wf(game.moving_piece);
            assert(piece_in_grid(game.moving_piece)) by {
                assert forall|i: int|
                    0 <= i < piece_points(game.moving_piece).len() implies pt_in(
                    #[trigger] piece_points(game.moving_piece)[i],
                ) by {}
            }
            assert(game.cells_owned()) by {
                assert forall|rr: int, cc: int|
                    0 <= rr < 22 && 0 <= cc < 10 implies #[trigger] game.field()[rr][cc] == 0 by {}
            }
        }
        game
    }

    /// The next piece of the queue: with `pop` it is removed, without `pop`
    /// it is only previewed. When the queue is empty it is first replenished
    /// with a freshly and independently shuffled bag of all seven types, so
    /// a piece is always available and each type appears exactly once per
    /// seven consecutive draws.
    pub fn get_next_piece_in_queue(&mut self, pop: bool) -> (r: Piece)
        requires
            old(self).queue_wf(),
        ensures
            final(self).queue_wf(),
            final(self).playfield == old(self).playfield,
            final(self).field() == old(self).field(),
            final(self).moving_piece == old(self).moving_piece,
            final(self).ghost_piece == old(self).ghost_piece,
            final(self).held_piece == old(self).held_piece,
            final(self).score == old(self).score,
            final(self).level == old(self).level,
            final(self).lines_cleared == old(self).lines_cleared,
            is_some_spawn_piece(r),
            if old(self).next_pieces@.len() > 0 {
                r == old(self).next_pieces@.last() && if pop {
                    final(self).next_pieces@ == old(self).next_pieces@.drop_last()
                } else {
                    final(self).next_pieces@ == old(self).next_pieces@
                }
            } else {
                exists|bag: Seq<Piece>|
                    #![auto]
                    bag.len() == 7 && (forall|i: int| 0 <= i < 7 ==> is_some_spawn_piece(bag[i]))
                        && (forall|i: int, j: int|
                        0 <= i < j < 7 ==> bag[i].color != bag[j].color) && r == bag.last() && if pop {
                        final(self).next_pieces@ == bag.drop_last()
                    } else {
                        final(self).next_pieces@ == bag
                    }
            },
    {
        let ghost pre = self.next_pieces@;
        let mut next_bag: Vec<Piece> = Vec::new();
        if self.next_pieces.len() == 0 {
            next_bag = crate::bag::fresh_bag();
        }
        self.next_pieces.append(&mut next_bag);
        proof {
            if pre.len() > 0 {
                assert(self.next_pieces@ =~= pre);
            }
        }
        if pop {
            let p = self.next_pieces.pop().unwrap();
            proof {
                if pre.len() > 0 {
                    assert(self.next_pieces@ =~= pre.drop_last());
                    assert(is_some_spawn_piece(p));
                    assert forall|i: int, j: int|
                        0 <= i < j < self.next_pieces@.len() implies #[trigger] self
                        .next_pieces@[i].color != #[trigger] self.next_pieces@[j].color by {}
                }
            }
            p
        } else {
            let idx = self.next_pieces.len() - 1;
            let p = self.next_pieces[idx];
            p
        }
    }

    /// Whether every cell of playfield row `row` holds the locked marker.
    #[verifier::loop_isolation(false)]
    fn row_filled(&self, row: usize) -> (r: bool)
        requires
            row < 22,
        ensures
            r == row_full(self.field()[row as int]),
    {
        let mut c: usize = 0;
        while c < 10
            invariant
                0 <= c <= 10,
                forall|k: int| 0 <= k < c ==> self.field()[row as int][k] == 8,
            decreases 10 - c,
        {
            if self.playfield[row][c] != 8 {
                proof {
                    assert(self.field()[row as int][c as int] != 8);
                }
                return false;
            }
            c = c + 1;
        }
        true
    }

    /// Scan the rows from the bottom up; a row whose every cell holds the
    /// locked marker is removed by shifting all rows above it down one (the
    /// scan stays at the same line while it remains full, so stacked full
    /// rows are all cleared), and the count of removed rows is returned.
    /// The top buffer row must not be full: nothing sits above it to shift
    /// down, and no reachable game fills it.
    #[verifier::loop_isolation(false)]
    #[verifier::rlimit(100)]
    pub fn clear_filled_lines(&mut self) -> (r: usize)
        requires
            !row_full(old(self).field()[0]),
        ensures
            final(self).field() == line_cleared_grid(old(self).field()),
            r == full_count(old(self).field().subrange(1, 22)),
            r <= 21,
            final(self).moving_piece == old(self).moving_piece,
            final(self).ghost_piece == old(self).ghost_piece,
            Game::same_counters(*final(self), *old(self)),
    {
        let ghost orig = old(self).field();
        let mut cleared_lines: usize = 0;
        let mut li: usize = 0;
        proof {
            lemma_nonfull_len(orig.subrange(22, 22));
            assert(orig.subrange(22, 22) =~= Seq::<Seq<i16>>::empty());
            assert(nonfull_rows(orig.subrange(22, 22)) =~= Seq::<Seq<i16>>::empty());
            assert(pass_shape(orig, 0, 21) =~= orig);
        }
        while li < 22
            invariant
                0 <= li <= 22,
                0 <= cleared_lines <= 21,
                clear_scan_inv(orig, self.field(), 21 - li as int, cleared_lines as int),
                self.moving_piece == old(self).moving_piece,
                self.ghost_piece == old(self).ghost_piece,
                Game::same_counters(*self, *old(self)),
            decreases 22 - li,
        {
            let last_line: usize = 21 - li;
            while self.row_filled(last_line)
                invariant
                    0 <= cleared_lines <= 21,
                    clear_scan_inv(orig, self.field(), last_line as int, cleared_lines as int),
                    self.moving_piece == old(self).moving_piece,
                    self.ghost_piece == old(self).ghost_piece,
                    Game::same_counters(*self, *old(self)),
                decreases 21 - cleared_lines,
            {
                let ghost l = last_line as int;
                let ghost count = cleared_lines as int;
                let ghost m = l - count;
                proof {
                    // a full row at the scan line means the scan is still in
                    // the original prefix, above the top row
                    if count > l {
                        assert(self.field()[l] == orig[0]);
                        assert(false);
                    }
                    if m == 0 {
                        assert(self.field()[l] == orig.subrange(0, 1)[0]);
                        assert(false);
                    }
                    assert(self.field()[l] == orig.subrange(0, m + 1)[m]);
                    assert(row_full(orig[m]));
                    lemma_shift_clears_full(orig, count, m);
                }
                cleared_lines = cleared_lines + 1;
                let ghost gpre = self.field();
                let mut i: usize = last_line;
                while i >= 1
                    invariant
                        0 <= i <= last_line,
                        last_line <= 21,
                        forall|rr: int|
                            i < rr <= last_line ==> #[trigger] self.field()[rr] == gpre[rr - 1],
                        forall|rr: int|
                            0 <= rr < 22 && !(i < rr <= last_line) ==> #[trigger] self.field()[rr]
                                == gpre[rr],
                        self.moving_piece == old(self).moving_piece,
                        self.ghost_piece == old(self).ghost_piece,
                        Game::same_counters(*self, *old(self)),
                    decreases i,
                {
                    let row = self.playfield[i - 1];
                    proof {
                        assert(self.field()[i as int - 1] == gpre[i as int - 1]);
                        assert forall|k: int| 0 <= k < 10 implies row@[k] == gpre[i as int - 1][k]
                            by {}
                    }
                    let ghost gpw = self.field();
                    self.playfield[i] = row;
                    proof {
                        assert(self.field()[i as int] =~= gpre[i as int - 1]);
                        assert forall|rr: int|
                            0 <= rr < 22 && rr != i as int implies self.field()[rr] =~= gpw[rr]
                            by {}
                        assert forall|rr: int|
                            (i as int - 1) < rr <= last_line implies #[trigger] self.field()[rr]
                            == gpre[rr - 1] by {
                            if rr != i as int {
                                assert(self.field()[rr] == gpw[rr]);
                            }
                        }
                        assert forall|rr: int|
                            0 <= rr < 22 && !((i as int - 1) < rr <= last_line) implies #[trigger] self
                            .field()[rr] == gpre[rr] by {
                            assert(self.field()[rr] == gpw[rr]);
                        }
                    }
                    i = i - 1;
                }
                proof {
                    assert(self.field() =~~= shift_down(gpre, l)) by {
                        assert forall|rr: int|
                            0 <= rr < 22 implies self.field()[rr] =~= shift_down(gpre, l)[rr] by {}
                    }
                    assert(self.field() == pass_shape(orig, count + 1, m - 1));
                    assert(cleared_lines as int == full_count(orig.subrange(m, 22)));
                    assert(orig.subrange(l - (count + 1) + 1, 22) =~= orig.subrange(m, 22));
                }
            }
            proof {
                let l = 21 - li as int;
                let count = cleared_lines as int;
                let m = l - count;
                if count <= l {
                    assert(self.field()[l] == orig.subrange(0, m + 1)[m]);
                    assert(!row_full(orig[m]));
                    lemma_pass_keep_row(orig, count, m);
                    if m >= 1 {
                        assert(orig.subrange((l - 1) - count + 1, 22) =~= orig.subrange(m, 22));
                    }
                }
            }
            li = li + 1;
        }
        proof {
            assert(self.field() == line_cleared_grid(orig)) by {
                assert(orig.subrange(0, 1) =~= seq![orig[0]]);
                assert(pass_shape(orig, cleared_lines as int, 0) =~~= line_cleared_grid(orig));
            }
            lemma_nonfull_len(orig.subrange(1, 22));
        }
        cleared_lines
    }

    /// Drop the moving piece to its ghost position and lock it there: both
    /// footprints are erased, the ghost's cells become locked blocks, full
    /// rows are cleared and scored (the score bonus uses the level before
    /// any level-up this clear triggers), and the next queued piece is
    /// spawned. An `OverlappingMinoes` error from the spawn is the fatal
    /// game-over signal; the caller must stop mutating the game after it.
    #[verifier::rlimit(100)]
    pub fn hard_drop_moving_piece(&mut self) -> (r: Result<(), MinoesError>)
        requires
            old(self).inv(),
            old(self).ghost_piece is Some,
            !row_full(lock_grid(*old(self))[0]),
            old(self).score + spec_bonus(
                full_count(lock_grid(*old(self)).subrange(1, 22)),
                old(self).level as int,
            ) <= 65535,
            old(self).lines_cleared + full_count(lock_grid(*old(self)).subrange(1, 22)) <= 65535,
            old(self).level * 10 <= 65535,
            old(self).lines_cleared + full_count(lock_grid(*old(self)).subrange(1, 22)) >= old(self).level * 10 ==> old(self).level < 65535,
        ensures
            ({
                let gl = lock_grid(*old(self));
                let n = full_count(gl.subrange(1, 22));
                let g4 = line_cleared_grid(gl);
                let mv = final(self).moving_piece;
                &&& final(self).score == old(self).score + spec_bonus(n, old(self).level as int)
                &&& final(self).lines_cleared == old(self).lines_cleared + n
                &&& final(self).level == (if old(self).lines_cleared + n >= old(self).level * 10 {
                    old(self).level + 1
                } else {
                    old(self).level as int
                })
                &&& final(self).held_piece == old(self).held_piece
                &&& is_some_spawn_piece(mv)
                &&& (old(self).next_pieces@.len() > 0 ==> mv == old(self).next_pieces@.last()
                    && final(self).next_pieces@ == old(self).next_pieces@.drop_last())
                &&& (r is Ok <==> pts_free_for(g4, piece_points(mv), mv.color))
                &&& (r is Ok ==> final(self).field() == ghost_pass_grid(
                    fill_grid(g4, piece_points(mv), mv.color),
                    mv,
                    None,
                ) && final(self).ghost_piece == Some(
                    ghost_pass_piece(fill_grid(g4, piece_points(mv), mv.color), mv, None),
                ) && final(self).inv() && final(self).footprint_drawn())
                &&& (r is Err ==> (r matches Err(MinoesError::OverlappingMinoes(_))) && final(self).field() == fill_grid(g4, piece_points(mv), mv.color) && final(self).ghost_piece
                    is None)
            }),
    {
        let ghost g0 = old(self).field();
        let mp0 = self.moving_piece;
        proof {
            lemma_clear_in_grid(g0, piece_points(mp0), mp0.color);
        }
        match self.clear_piece_points(&mp0) {
            Ok(()) => {},
            Err(_) => {
                proof {
                    assert(false);
                }
                return Err(MinoesError::OutOfBounds(OutOfBoundsError));
            },
        }
        let ghost g1 = self.field();
        let gp = self.ghost_piece.unwrap();
        proof {
            lemma_clear_in_grid(g1, piece_points(gp), -1i16);
        }
        match self.clear_piece_points(&gp) {
            Ok(()) => {},
            Err(_) => {
                proof {
                    assert(false);
                }
                return Err(MinoesError::OutOfBounds(OutOfBoundsError));
            },
        }
        let ghost g2 = self.field();
        proof {
            // after both clears only empty cells and locked blocks remain
            assert forall|rr: int, cc: int|
                0 <= rr < 22 && 0 <= cc < 10 implies g2[rr][cc] == 0 || #[trigger] g2[rr][cc]
                == 8 by {
                assert(g1 == erased(g0, piece_points(mp0), mp0.color));
                assert(g2 == erased(g1, piece_points(gp), -1i16));
                if g2[rr][cc] != 0 && g2[rr][cc] != 8 {
                    assert(g2[rr][cc] == g1[rr][cc]);
                    assert(g1[rr][cc] == g0[rr][cc]);
                    if g0[rr][cc] > 0 {
                        assert(in_pts(piece_points(mp0), (rr, cc)) && g0[rr][cc] == mp0.color);
                    } else {
                        assert(g0[rr][cc] == -1 && in_pts(piece_points(gp), (rr, cc)));
                    }
                    assert(false);
                }
            }
        }
        self.moving_piece = gp;
        self.ghost_piece = None;
        let dropped_points = self.moving_piece.get_piece_points().unwrap();
        proof {
            assert(pts_of_arr(dropped_points) =~= piece_points(gp));
        }
        self.fill_field_with_dropped_points(dropped_points);
        let ghost g3 = self.field();
        proof {
            assert(g3 == lock_grid(*old(self)));
            assert(!row_full(g3[0]));
        }
        let cleared_lines_count = self.clear_filled_lines();
        let ghost g4 = self.field();
        let ghost n = full_count(lock_grid(*old(self)).subrange(1, 22));
        proof {
            assert(cleared_lines_count as int == n);
            assert(g4 == line_cleared_grid(g3));
            // the cleared grid still holds only empty cells and locked blocks
            assert forall|rr: int, cc: int|
                0 <= rr < 22 && 0 <= cc < 10 implies g4[rr][cc] == 0 || #[trigger] g4[rr][cc]
                == 8 by {
                assert forall|i: int, c: int|
                    0 <= i < 22 && 0 <= c < (#[trigger] g3[i]).len() implies g3[i][c] == 0
                        || #[trigger] g3[i][c] == 8 by {}
                let body = g3.subrange(1, 22);
                assert forall|i: int, c: int|
                    0 <= i < body.len() && 0 <= c < (#[trigger] body[i]).len() implies body[i][c]
                        == 0 || #[trigger] body[i][c] == 8 by {
                    assert(body[i] == g3[i + 1]);
                }
                assert forall|i: int| 0 <= i < body.len() implies (#[trigger] body[i]).len()
                    == 10 by {
                    assert(body[i] == g3[i + 1]);
                }
                lemma_nonfull_cells(body);
                lemma_nonfull_len(body);
                let copies = full_count(body);
                if rr < copies {
                    assert(g4[rr] == g3[0]);
                } else if rr == copies {
                    assert(g4[rr] == g3[0]);
                } else {
                    assert(g4[rr] == nonfull_rows(body)[rr - copies - 1]);
                }
            }
        }
        self.adjust_score(cleared_lines_count);
        self.adjust_level(cleared_lines_count);
        let next_piece = self.get_next_piece_in_queue(true);
        proof {
            crate::geom::lemma_some_spawn_piece_wf(next_piece);
            assert(piece_in_grid(next_piece)) by {
                assert forall|i: int|
                    0 <= i < piece_points(next_piece).len() implies pt_in(
                    #[trigger] piece_points(next_piece)[i],
                ) by {}
            }
            lemma_fill_no_oob(g4, piece_points(next_piece), next_piece.color);
        }
        match self.add_piece_to_field(next_piece) {
            Ok(()) => Ok(()),
            Err(e) => {
                proof {
                    assert(e matches MinoesError::OverlappingMinoes(_));
                }
                Err(e)
            },
        }
    }

    /// Park the moving piece in the hold slot: both footprints are erased;
    /// if a piece is already held it is swapped in at the position it was
    /// parked at, otherwise the next queued piece is swapped in; the
    /// swapped-in piece is drawn and its ghost recomputed. The swap is
    /// allowed on every hold event, with no one-hold-per-drop limit.
    #[verifier::rlimit(100)]
    pub fn hold_moving_piece(&mut self) -> (r: Result<(), MinoesError>)
        requires
            old(self).inv(),
            old(self).ghost_piece is Some,
            hold_swap_ok(*old(self)),
        ensures
            r is Ok,
            final(self).inv(),
            final(self).score == old(self).score,
            final(self).level == old(self).level,
            final(self).lines_cleared == old(self).lines_cleared,
            final(self).held_piece == Some(old(self).moving_piece),
            ({
                let g2 = hold_cleared_grid(*old(self));
                let mv = final(self).moving_piece;
                &&& (match old(self).held_piece {
                    Some(hp) => mv == hp && final(self).next_pieces == old(self).next_pieces,
                    None => is_some_spawn_piece(mv) && (old(self).next_pieces@.len() > 0 ==> mv
                        == old(self).next_pieces@.last() && final(self).next_pieces@ == old(
                        self,
                    ).next_pieces@.drop_last()),
                })
                &&& final(self).field() == ghost_pass_grid(
                    fill_grid(g2, piece_points(mv), mv.color),
                    mv,
                    old(self).ghost_piece,
                )
                &&& final(self).ghost_piece == Some(
                    ghost_pass_piece(
                        fill_grid(g2, piece_points(mv), mv.color),
                        mv,
                        old(self).ghost_piece,
                    ),
                )
                &&& final(self).footprint_drawn()
            }),
    {
        let ghost g0 = old(self).field();
        let mp0 = self.moving_piece;
        proof {
            lemma_clear_in_grid(g0, piece_points(mp0), mp0.color);
        }
        match self.clear_piece_points(&mp0) {
            Ok(()) => {},
            Err(_) => {
                proof {
                    assert(false);
                }
                return Err(MinoesError::OutOfBounds(OutOfBoundsError));
            },
        }
        let ghost g1 = self.field();
        let gp = self.ghost_piece.unwrap();
        proof {
            lemma_clear_in_grid(g1, piece_points(gp), -1i16);
        }
        match self.clear_piece_points(&gp) {
            Ok(()) => {},
            Err(_) => {
                proof {
                    assert(false);
                }
                return Err(MinoesError::OutOfBounds(OutOfBoundsError));
            },
        }
        let ghost g2 = self.field();
        proof {
            assert(g2 == hold_cleared_grid(*old(self)));
            assert forall|rr: int, cc: int|
                0 <= rr < 22 && 0 <= cc < 10 implies g2[rr][cc] == 0 || #[trigger] g2[rr][cc]
                == 8 by {
                assert(g1 == erased(g0, piece_points(mp0), mp0.color));
                assert(g2 == erased(g1, piece_points(gp), -1i16));
                if g2[rr][cc] != 0 && g2[rr][cc] != 8 {
                    assert(g2[rr][cc] == g1[rr][cc]);
                    assert(g1[rr][cc] == g0[rr][cc]);
                    if g0[rr][cc] > 0 {
                        assert(in_pts(piece_points(mp0), (rr, cc)) && g0[rr][cc] == mp0.color);
                    } else {
                        assert(g0[rr][cc] == -1 && in_pts(piece_points(gp), (rr, cc)));
                    }
                    assert(false);
                }
            }
        }
        match self.held_piece {
            Some(piece) => {
                let old_held_piece = piece;
                self.held_piece = Some(self.moving_piece);
                self.moving_piece = old_held_piece;
            },
            None => {
                self.held_piece = Some(self.moving_piece);
                let next_piece = self.get_next_piece_in_queue(true);
                self.moving_piece = next_piece;
            },
        }
        let mv = self.moving_piece;
        proof {
            if old(self).held_piece is None {
                crate::geom::lemma_some_spawn_piece_wf(mv);
            }
            assert(pts_free_for(g2, piece_points(mv), mv.color));
            lemma_fill_free(g2, piece_points(mv), mv.color);
        }
        let fill_result = self.fill_piece_points(&mv);
        proof {
            assert(fill_result is Ok);
        }
        fill_result.unwrap();
        let ghost g3 = self.field();
        proof {
            assert(g3 == painted(g2, piece_points(mv), mv.color));
            assert forall|rr: int, cc: int|
                0 <= rr < 22 && 0 <= cc < 10 && 0 < #[trigger] g3[rr][cc] && g3[rr][cc]
                    != 8 implies in_pts(piece_points(mv), (rr, cc)) && g3[rr][cc] == mv.color by {
                if !in_pts(piece_points(mv), (rr, cc)) {
                    assert(g3[rr][cc] == g2[rr][cc]);
                }
            }
            assert forall|rr: int, cc: int|
                0 <= rr < 22 && 0 <= cc < 10 && #[trigger] g3[rr][cc] < 0 implies false by {
                if !in_pts(piece_points(mv), (rr, cc)) {
                    assert(g3[rr][cc] == g2[rr][cc]);
                }
            }
            // the second draw inside the spawn step changes nothing
            assert(pts_free_for(g3, piece_points(mv), mv.color)) by {
                assert forall|k: int|
                    0 <= k < piece_points(mv).len() implies pt_in(#[trigger] piece_points(mv)[k])
                    && (grid_at(g3, piece_points(mv)[k]) <= 0 || grid_at(g3, piece_points(mv)[k])
                    == mv.color) by {
                    assert(in_pts(piece_points(mv), piece_points(mv)[k]));
                }
            }
            lemma_fill_free(g3, piece_points(mv), mv.color);
            assert(fill_grid(g3, piece_points(mv), mv.color) =~~= g3) by {
                assert forall|rr: int, cc: int|
                    0 <= rr < 22 && 0 <= cc < 10 implies painted(
                    g3,
                    piece_points(mv),
                    mv.color,
                )[rr][cc] == g3[rr][cc] by {
                    if in_pts(piece_points(mv), (rr, cc)) {
                        let k = choose|k: int|
                            0 <= k < piece_points(mv).len() && #[trigger] piece_points(mv)[k] == (
                            rr,
                            cc,
                            );
                        assert(grid_at(g3, piece_points(mv)[k]) == mv.color);
                    }
                }
            }
        }
        match self.add_piece_to_field(mv) {
            Ok(()) => {},
            Err(e) => {
                proof {
                    assert(false);
                }
                return Err(e);
            },
        }
        return Ok(());
    }

    /// Add the cleared lines to the running total, and raise the level by
    /// one when the total has reached ten times the current level.
    pub fn adjust_level(&mut self, cleared_lines: usize)
        requires
            old(self).lines_cleared + cleared_lines <= 65535,
            old(self).level * 10 <= 65535,
            old(self).lines_cleared + cleared_lines >= old(self).level * 10 ==> old(self).level
                < 65535,
        ensures
            final(self).lines_cleared == old(self).lines_cleared + cleared_lines,
            final(self).level == if old(self).lines_cleared + cleared_lines >= old(self).level
                * 10 {
                old(self).level + 1
            } else {
                old(self).level as int
            },
            final(self).playfield == old(self).playfield,
            final(self).field() == old(self).field(),
            final(self).moving_piece == old(self).moving_piece,
            final(self).ghost_piece == old(self).ghost_piece,
            final(self).score == old(self).score,
            final(self).next_pieces == old(self).next_pieces,
            final(self).held_piece == old(self).held_piece,
    {
        self.lines_cleared = self.lines_cleared + (cleared_lines as u16);
        if self.lines_cleared >= self.level * 10 {
            self.level = self.level + 1;
        }
    }

    /// Add the line-clear bonus to the score: 1 line pays 100 times the
    /// level, 2 pay 300, 3 pay 500, 4 pay 800; anything else pays nothing.
    pub fn adjust_score(&mut self, cleared_lines: usize)
        requires
            old(self).score + spec_bonus(cleared_lines as int, old(self).level as int) <= 65535,
        ensures
            final(self).score == old(self).score + spec_bonus(
                cleared_lines as int,
                old(self).level as int,
            ),
            final(self).playfield == old(self).playfield,
            final(self).field() == old(self).field(),
            final(self).moving_piece == old(self).moving_piece,
            final(self).ghost_piece == old(self).ghost_piece,
            final(self).level == old(self).level,
            final(self).lines_cleared == old(self).lines_cleared,
            final(self).next_pieces == old(self).next_pieces,
            final(self).held_piece == old(self).held_piece,
    {
        match cleared_lines {
            1 => {
                self.score = self.score + 100 * self.level;
            },
            2 => {
                self.score = self.score + 300 * self.level;
            },
            3 => {
                self.score = self.score + 500 * self.level;
            },
            4 => {
                self.score = self.score + 800 * self.level;
            },
            _ => {},
        }
    }
}

} // verus!
