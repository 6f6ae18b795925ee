use vstd::prelude::*;

use crate::errors::OutOfBoundsError;

verus! {

/// A direction a piece can be moved in on the playfield.
#[derive(Debug)]
pub enum TetrisDirection {
    Up,
    Down,
    Left,
    Right,
}

pub open spec fn spec_opposite_direction(d: TetrisDirection) -> TetrisDirection {
    match d {
        TetrisDirection::Up => TetrisDirection::Down,
        TetrisDirection::Down => TetrisDirection::Up,
        TetrisDirection::Left => TetrisDirection::Right,
        TetrisDirection::Right => TetrisDirection::Left,
    }
}

impl TetrisDirection {
    pub fn opposite_direction(&self) -> (r: TetrisDirection)
        ensures
            r == spec_opposite_direction(*self),
    {
        match self {
            TetrisDirection::Up => TetrisDirection::Down,
            TetrisDirection::Down => TetrisDirection::Up,
            TetrisDirection::Left => TetrisDirection::Right,
            TetrisDirection::Right => TetrisDirection::Left,
        }
    }
}

/// A sense of rotation.
#[derive(Debug)]
pub enum Rotation {
    Clockwise,
    CounterClockwise,
}

pub open spec fn spec_other_direction(r: Rotation) -> Rotation {
    match r {
        Rotation::Clockwise => Rotation::CounterClockwise,
        Rotation::CounterClockwise => Rotation::Clockwise,
    }
}

impl Rotation {
    pub fn other_direction(&self) -> (r: Rotation)
        ensures
            r == spec_other_direction(*self),
    {
        match self {
            Rotation::Clockwise => Rotation::CounterClockwise,
            Rotation::CounterClockwise => Rotation::Clockwise,
        }
    }
}

/// An absolute grid position: row, then column.
#[derive(Debug, Default, Clone, Copy, PartialEq, Eq, Structural)]
pub struct Point(pub i16, pub i16);

/// An offset relative to a piece's center: row delta, then column delta.
#[derive(Debug, Default, Clone, Copy, PartialEq, Eq, Structural)]
pub struct RelPoint(pub i16, pub i16);

/// Mathematical view of a point as a pair of unbounded integers.
pub open spec fn pt_of(p: Point) -> (int, int) {
    (p.0 as int, p.1 as int)
}

/// The seven canonical piece types.
pub enum PieceType {
    I,
    J,
    L,
    O,
    S,
    T,
    Z,
}

/// A piece: a center position, a table of 4 rotation states of 3 cells
/// relative to the center (the 4th cell of every state is the center itself),
/// the index of the current rotation state, and a color id.
#[derive(Debug, Default, Clone, Copy)]
pub struct Piece {
    pub center: Point,
    pub current_rotation_id: usize,
    pub rotations: [[RelPoint; 3]; 4],
    pub color: i16,
}

/// Canonical spawn center of each piece type.
pub open spec fn spec_spawn_center(t: PieceType) -> Point {
    match t {
        PieceType::I => Point(1i16, 5i16),
        PieceType::J => Point(1i16, 5i16),
        PieceType::L => Point(1i16, 4i16),
        PieceType::O => Point(1i16, 4i16),
        PieceType::S => Point(0i16, 4i16),
        PieceType::T => Point(1i16, 4i16),
        PieceType::Z => Point(0i16, 4i16),
    }
}

/// Color id of each piece type (1 through 7).
pub open spec fn spec_color(t: PieceType) -> i16 {
    match t {
        PieceType::I => 1,
        PieceType::J => 2,
        PieceType::L => 3,
        PieceType::O => 4,
        PieceType::S => 5,
        PieceType::T => 6,
        PieceType::Z => 7,
    }
}

/// The canonical rotation table: relative cell `j` (0..3) of rotation state
/// `i` (0..4) for piece type `t`.
pub open spec fn spec_rel(t: PieceType, i: int, j: int) -> RelPoint {
    match t {
        PieceType::I => if i == 1 || i == 3 {
            if j == 0 { RelPoint(-2i16, 0i16) } else if j == 1 { RelPoint(-1i16, 0i16) } else { RelPoint(1i16, 0i16) }
        } else {
            if j == 0 { RelPoint(0i16, -2i16) } else if j == 1 { RelPoint(0i16, -1i16) } else { RelPoint(0i16, 1i16) }
        },
        PieceType::J => if i == 0 {
            if j == 0 { RelPoint(0i16, -1i16) } else if j == 1 { RelPoint(0i16, 1i16) } else { RelPoint(-1i16, 1i16) }
        } else if i == 1 {
            if j == 0 { RelPoint(-1i16, -1i16) } else if j == 1 { RelPoint(-1i16, 0i16) } else { RelPoint(1i16, 0i16) }
        } else if i == 2 {
            if j == 0 { RelPoint(1i16, -1i16) } else if j == 1 { RelPoint(0i16, -1i16) } else { RelPoint(0i16, 1i16) }
        } else {
            if j == 0 { RelPoint(-1i16, 0i16) } else if j == 1 { RelPoint(1i16, 0i16) } else { RelPoint(1i16, 1i16) }
        },
        PieceType::L => if i == 0 {
            if j == 0 { RelPoint(-1i16, -1i16) } else if j == 1 { RelPoint(0i16, -1i16) } else { RelPoint(0i16, 1i16) }
        } else if i == 1 {
            if j == 0 { RelPoint(-1i16, 0i16) } else if j == 1 { RelPoint(1i16, 0i16) } else { RelPoint(1i16, -1i16) }
        } else if i == 2 {
            if j == 0 { RelPoint(0i16, -1i16) } else if j == 1 { RelPoint(0i16, 1i16) } else { RelPoint(1i16, 1i16) }
        } else {
            if j == 0 { RelPoint(-1i16, 1i16) } else if j == 1 { RelPoint(-1i16, 0i16) } else { RelPoint(1i16, 0i16) }
        },
        PieceType::O => if j == 0 { RelPoint(-1i16, 0i16) } else if j == 1 { RelPoint(0i16, 1i16) } else { RelPoint(-1i16, 1i16) },
        PieceType::S => if i == 1 || i == 3 {
            if j == 0 { RelPoint(-1i16, 0i16) } else if j == 1 { RelPoint(0i16, 1i16) } else { RelPoint(1i16, 1i16) }
        } else {
            if j == 0 { RelPoint(1i16, -1i16) } else if j == 1 { RelPoint(1i16, 0i16) } else { RelPoint(0i16, 1i16) }
        },
        PieceType::T => if i == 0 {
            if j == 0 { RelPoint(-1i16, 0i16) } else if j == 1 { RelPoint(0i16, -1i16) } else { RelPoint(0i16, 1i16) }
        } else if i == 1 {
            if j == 0 { RelPoint(-1i16, 0i16) } else if j == 1 { RelPoint(0i16, -1i16) } else { RelPoint(1i16, 0i16) }
        } else if i == 2 {
            if j == 0 { RelPoint(0i16, -1i16) } else if j == 1 { RelPoint(1i16, 0i16) } else { RelPoint(0i16, 1i16) }
        } else {
            if j == 0 { RelPoint(-1i16, 0i16) } else if j == 1 { RelPoint(1i16, 0i16) } else { RelPoint(0i16, 1i16) }
        },
        PieceType::Z => if i == 1 || i == 3 {
            if j == 0 { RelPoint(-1i16, 1i16) } else if j == 1 { RelPoint(0i16, 1i16) } else { RelPoint(1i16, 0i16) }
        } else {
            if j == 0 { RelPoint(0i16, -1i16) } else if j == 1 { RelPoint(1i16, 0i16) } else { RelPoint(1i16, 1i16) }
        },
    }
}

/// `p` is exactly the freshly spawned piece of type `t`.
pub open spec fn is_spawn_piece(p: Piece, t: PieceType) -> bool {
    &&& p.center == spec_spawn_center(t)
    &&& p.current_rotation_id == 0
    &&& p.color == spec_color(t)
    &&& forall|i: int, j: int|
        0 <= i < 4 && 0 <= j < 3 ==> #[trigger] p.rotations[i][j] == spec_rel(t, i, j)
}

/// `p` is a freshly spawned piece of one of the seven types.
pub open spec fn is_some_spawn_piece(p: Piece) -> bool {
    ||| is_spawn_piece(p, PieceType::I)
    ||| is_spawn_piece(p, PieceType::J)
    ||| is_spawn_piece(p, PieceType::L)
    ||| is_spawn_piece(p, PieceType::O)
    ||| is_spawn_piece(p, PieceType::S)
    ||| is_spawn_piece(p, PieceType::T)
    ||| is_spawn_piece(p, PieceType::Z)
}

/// A relative cell is small (within two rows/columns of the center) and is
/// not the center itself.
pub open spec fn rel_ok(r: RelPoint) -> bool {
    &&& -2 <= r.0 <= 2
    &&& -2 <= r.1 <= 2
    &&& !(r.0 == 0 && r.1 == 0)
}

/// Well-formedness of a piece's shape table: the rotation index is valid,
/// every relative cell is small and distinct from the center, and within each
/// rotation state the three relative cells are pairwise distinct.
pub open spec fn shape_wf(p: Piece) -> bool {
    &&& p.current_rotation_id < 4
    &&& forall|i: int, j: int| 0 <= i < 4 && 0 <= j < 3 ==> rel_ok(#[trigger] p.rotations[i][j])
    &&& forall|i: int, j: int, k: int|
        0 <= i < 4 && 0 <= j < 3 && 0 <= k < 3 && j != k
            ==> !(#[trigger] p.rotations[i][j] == #[trigger] p.rotations[i][k])
}

/// Relative cell `j` of the piece's current rotation state.
pub open spec fn piece_rel(p: Piece, j: int) -> RelPoint {
    p.rotations[p.current_rotation_id as int][j]
}

/// Absolute cell `i` (0..4) of the piece; cell 3 is the center.
pub open spec fn piece_point(p: Piece, i: int) -> (int, int) {
    if 0 <= i < 3 {
        (p.center.0 + piece_rel(p, i).0, p.center.1 + piece_rel(p, i).1)
    } else {
        (p.center.0 as int, p.center.1 as int)
    }
}

/// The four absolute cells of the piece in its current rotation state.
pub open spec fn piece_points(p: Piece) -> Seq<(int, int)> {
    Seq::new(4, |i: int| piece_point(p, i))
}

/// Success condition of `get_piece_points`: none of the three relative cells
/// lands on a negative row or column.
pub open spec fn points_ok(p: Piece) -> bool {
    forall|j: int|
        0 <= j < 3 ==> (#[trigger] piece_point(p, j)).0 >= 0 && piece_point(p, j).1 >= 0
}

/// The additions performed by `get_piece_points` stay within `i16`.
pub open spec fn piece_sums_fit(p: Piece) -> bool {
    forall|j: int|
        0 <= j < 3
            ==> -32768 <= p.center.0 + (#[trigger] piece_rel(p, j)).0 <= 32767
                && -32768 <= p.center.1 + piece_rel(p, j).1 <= 32767
}

/// The piece after a one-cell move in the given direction.
pub open spec fn spec_moved_piece(p: Piece, d: TetrisDirection) -> Piece {
    match d {
        TetrisDirection::Up => Piece { center: Point((p.center.0 - 1) as i16, p.center.1), ..p },
        TetrisDirection::Down => Piece { center: Point((p.center.0 + 1) as i16, p.center.1), ..p },
        TetrisDirection::Left => Piece { center: Point(p.center.0, (p.center.1 - 1) as i16), ..p },
        TetrisDirection::Right => Piece { center: Point(p.center.0, (p.center.1 + 1) as i16), ..p },
    }
}

/// The rotation index after rotating: counter-clockwise increments mod 4,
/// clockwise decrements with underflow wrapped to 3.
pub open spec fn spec_rotated_id(id: int, r: Rotation) -> int {
    match r {
        Rotation::CounterClockwise => (id + 1) % 4,
        Rotation::Clockwise => if id == 0 { 3 } else { id - 1 },
    }
}

/// The piece after a rotation: only the rotation index changes.
pub open spec fn spec_rotated_piece(p: Piece, r: Rotation) -> Piece {
    Piece { current_rotation_id: spec_rotated_id(p.current_rotation_id as int, r) as usize, ..p }
}

impl Piece {
    /// A fresh piece of the given type, at its canonical spawn center, in
    /// rotation state 0, with its type's color and rotation table.
    pub fn new(piece_type: PieceType) -> (r: Piece)
        ensures
            is_spawn_piece(r, piece_type),
    {
        let center: Point;
        let pos_0: [RelPoint; 3];
        let pos_1: [RelPoint; 3];
        let pos_2: [RelPoint; 3];
        let pos_3: [RelPoint; 3];
        let color: i16;
        match piece_type {
            PieceType::I => {
                center = Point(1, 5);
                pos_0 = [RelPoint(0, -2), RelPoint(0, -1), RelPoint(0, 1)];
                pos_1 = [RelPoint(-2, 0), RelPoint(-1, 0), RelPoint(1, 0)];
                pos_2 = [RelPoint(0, -2), RelPoint(0, -1), RelPoint(0, 1)];
                pos_3 = [RelPoint(-2, 0), RelPoint(-1, 0), RelPoint(1, 0)];
                color = 1;
            }
            PieceType::J => {
                center = Point(1, 5);
                pos_0 = [RelPoint(0, -1), RelPoint(0, 1), RelPoint(-1, 1)];
                pos_1 = [RelPoint(-1, -1), RelPoint(-1, 0), RelPoint(1, 0)];
                pos_2 = [RelPoint(1, -1), RelPoint(0, -1), RelPoint(0, 1)];
                pos_3 = [RelPoint(-1, 0), RelPoint(1, 0), RelPoint(1, 1)];
                color = 2;
            }
            PieceType::L => {
                center = Point(1, 4);
                pos_0 = [RelPoint(-1, -1), RelPoint(0, -1), RelPoint(0, 1)];
                pos_1 = [RelPoint(-1, 0), RelPoint(1, 0), RelPoint(1, -1)];
                pos_2 = [RelPoint(0, -1), RelPoint(0, 1), RelPoint(1, 1)];
                pos_3 = [RelPoint(-1, 1), RelPoint(-1, 0), RelPoint(1, 0)];
                color = 3;
            }
            PieceType::O => {
                center = Point(1, 4);
                pos_0 = [RelPoint(-1, 0), RelPoint(0, 1), RelPoint(-1, 1)];
                pos_1 = [RelPoint(-1, 0), RelPoint(0, 1), RelPoint(-1, 1)];
                pos_2 = [RelPoint(-1, 0), RelPoint(0, 1), RelPoint(-1, 1)];
                pos_3 = [RelPoint(-1, 0), RelPoint(0, 1), RelPoint(-1, 1)];
                color = 4;
            }
            PieceType::S => {
                center = Point(0, 4);
                pos_0 = [RelPoint(1, -1), RelPoint(1, 0), RelPoint(0, 1)];
                pos_1 = [RelPoint(-1, 0), RelPoint(0, 1), RelPoint(1, 1)];
                pos_2 = [RelPoint(1, -1), RelPoint(1, 0), RelPoint(0, 1)];
                pos_3 = [RelPoint(-1, 0), RelPoint(0, 1), RelPoint(1, 1)];
                color = 5;
            }
            PieceType::T => {
                center = Point(1, 4);
                pos_0 = [RelPoint(-1, 0), RelPoint(0, -1), RelPoint(0, 1)];
                pos_1 = [RelPoint(-1, 0), RelPoint(0, -1), RelPoint(1, 0)];
                pos_2 = [RelPoint(0, -1), RelPoint(1, 0), RelPoint(0, 1)];
                pos_3 = [RelPoint(-1, 0), RelPoint(1, 0), RelPoint(0, 1)];
                color = 6;
            }
            PieceType::Z => {
                center = Point(0, 4);
                pos_0 = [RelPoint(0, -1), RelPoint(1, 0), RelPoint(1, 1)];
                pos_1 = [RelPoint(-1, 1), RelPoint(0, 1), RelPoint(1, 0)];
                pos_2 = [RelPoint(0, -1), RelPoint(1, 0), RelPoint(1, 1)];
                pos_3 = [RelPoint(-1, 1), RelPoint(0, 1), RelPoint(1, 0)];
                color = 7;
            }
        }
        Piece { center, current_rotation_id: 0, rotations: [pos_0, pos_1, pos_2, pos_3], color }
    }

    /// The four absolute cells of the piece, or `OutOfBoundsError` if one of
    /// the relative cells would land on a negative row or column.
    pub fn get_piece_points(&self) -> (r: Result<[Point; 4], OutOfBoundsError>)
        requires
            self.current_rotation_id < 4,
            piece_sums_fit(*self),
        ensures
            r is Ok <==> points_ok(*self),
            r matches Ok(pts) ==> forall|i: int|
                0 <= i < 4 ==> pt_of(#[trigger] pts[i]) == piece_points(*self)[i],
    {
        let rot = self.rotations[self.current_rotation_id];
        let c = self.center;
        let rp0 = rot[0];
        let rp1 = rot[1];
        let rp2 = rot[2];
        proof {
            assert(rp0 == piece_rel(*self, 0));
            assert(rp1 == piece_rel(*self, 1));
            assert(rp2 == piece_rel(*self, 2));
            assert(piece_point(*self, 0) == (c.0 + rp0.0 as int, c.1 + rp0.1 as int));
            assert(piece_point(*self, 1) == (c.0 + rp1.0 as int, c.1 + rp1.1 as int));
            assert(piece_point(*self, 2) == (c.0 + rp2.0 as int, c.1 + rp2.1 as int));
        }
        if c.0 + rp0.0 < 0 || c.1 + rp0.1 < 0 {
            return Err(OutOfBoundsError);
        }
        if c.0 + rp1.0 < 0 || c.1 + rp1.1 < 0 {
            return Err(OutOfBoundsError);
        }
        if c.0 + rp2.0 < 0 || c.1 + rp2.1 < 0 {
            return Err(OutOfBoundsError);
        }
        let points: [Point; 4] = [
            Point(c.0 + rp0.0, c.1 + rp0.1),
            Point(c.0 + rp1.0, c.1 + rp1.1),
            Point(c.0 + rp2.0, c.1 + rp2.1),
            c,
        ];
        proof {
            assert forall|j: int|
                0 <= j < 3 implies (#[trigger] piece_point(*self, j)).0 >= 0 && piece_point(
                *self,
                j,
            ).1 >= 0 by {
                if j == 0 {
                } else if j == 1 {
                } else {
                }
            }
            assert forall|i: int| 0 <= i < 4 implies pt_of(#[trigger] points[i]) == piece_points(
                *self,
            )[i] by {
                if i == 0 {
                } else if i == 1 {
                } else if i == 2 {
                } else {
                }
            }
        }
        Ok(points)
    }

    /// Translate the center by the given row and column deltas.
    pub(crate) fn move_piece_by(&mut self, x: i16, y: i16)
        requires
            -32768 <= old(self).center.0 + x <= 32767,
            -32768 <= old(self).center.1 + y <= 32767,
        ensures
            *final(self) == (Piece {
                center: Point((old(self).center.0 + x) as i16, (old(self).center.1 + y) as i16),
                ..*old(self)
            }),
    {
        self.center = Point(self.center.0 + x, self.center.1 + y);
    }

    /// Move the piece one cell in the given direction. No bounds checking is
    /// done here; that is the collision engine's responsibility.
    pub fn move_piece(&mut self, direction: &TetrisDirection)
        requires
            match *direction {
                TetrisDirection::Up => old(self).center.0 > -32768,
                TetrisDirection::Down => old(self).center.0 < 32767,
                TetrisDirection::Left => old(self).center.1 > -32768,
                TetrisDirection::Right => old(self).center.1 < 32767,
            },
        ensures
            *final(self) == spec_moved_piece(*old(self), *direction),
    {
        match direction {
            TetrisDirection::Up => {
                self.move_piece_by(-1, 0);
            }
            TetrisDirection::Down => {
                self.move_piece_by(1, 0);
            }
            TetrisDirection::Left => {
                self.move_piece_by(0, -1);
            }
            TetrisDirection::Right => {
                self.move_piece_by(0, 1);
            }
        }
    }

    /// Rotate the piece by updating its rotation index only: counter-clockwise
    /// increments mod 4; clockwise decrements, wrapping 0 to 3.
    pub fn rotate_piece(&mut self, rotation: &Rotation)
        requires
            old(self).current_rotation_id < usize::MAX,
        ensures
            *final(self) == spec_rotated_piece(*old(self), *rotation),
    {
        match rotation {
            Rotation::CounterClockwise => {
                self.current_rotation_id = (self.current_rotation_id + 1) % 4;
            }
            Rotation::Clockwise => {
                if self.current_rotation_id == 0 {
                    self.current_rotation_id = 3;
                } else {
                    self.current_rotation_id = self.current_rotation_id - 1;
                }
            }
        }
    }
}

/// A spawn piece has a well-formed shape table, all its cells on non-negative
/// rows and columns, and all its cells inside the spawn area of the grid
/// (rows 0..2, columns 3..7).
pub proof fn lemma_spawn_piece_wf(p: Piece, t: PieceType)
    requires
        is_spawn_piece(p, t),
    ensures
        shape_wf(p),
        points_ok(p),
        piece_sums_fit(p),
        1 <= p.color <= 7,
        forall|i: int|
            0 <= i < 4
                ==> 0 <= (#[trigger] piece_points(p)[i]).0 < 2 && 3 <= piece_points(p)[i].1 < 7,
{
    assert forall|i: int, j: int| 0 <= i < 4 && 0 <= j < 3 implies rel_ok(
        #[trigger] p.rotations[i][j],
    ) by {
        assert(p.rotations[i][j] == spec_rel(t, i, j));
    }
    assert forall|i: int, j: int, k: int|
        0 <= i < 4 && 0 <= j < 3 && 0 <= k < 3 && j != k implies !(#[trigger] p.rotations[i][j]
        == #[trigger] p.rotations[i][k]) by {
        assert(p.rotations[i][j] == spec_rel(t, i, j));
        assert(p.rotations[i][k] == spec_rel(t, i, k));
    }
    assert forall|i: int| 0 <= i < 4 implies 0 <= (#[trigger] piece_points(p)[i]).0 < 2 && 3
        <= piece_points(p)[i].1 < 7 by {
        if i < 3 {
            assert(piece_rel(p, i) == spec_rel(t, 0, i));
        }
    }
    assert forall|j: int|
        0 <= j < 3 implies (#[trigger] piece_point(p, j)).0 >= 0 && piece_point(p, j).1 >= 0 by {
        assert(piece_points(p)[j] == piece_point(p, j));
    }
}

/// A piece with a well-formed shape table and a center anywhere near the
/// grid has all its coordinate sums within `i16`.
pub proof fn lemma_center_sums_fit(p: Piece)
    requires
        shape_wf(p),
        -1000 <= p.center.0 <= 1000,
        -1000 <= p.center.1 <= 1000,
    ensures
        piece_sums_fit(p),
{
    assert forall|j: int|
        0 <= j < 3 implies -32768 <= p.center.0 + (#[trigger] piece_rel(p, j)).0 <= 32767 && -32768
        <= p.center.1 + piece_rel(p, j).1 <= 32767 by {
        assert(rel_ok(p.rotations[p.current_rotation_id as int][j]));
    }
}

/// A spawn piece of any type is well formed, colored 1..=7, and sits inside
/// the spawn area of the grid.
pub proof fn lemma_some_spawn_piece_wf(p: Piece)
    requires
        is_some_spawn_piece(p),
    ensures
        shape_wf(p),
        points_ok(p),
        piece_sums_fit(p),
        1 <= p.color <= 7,
        forall|i: int|
            0 <= i < 4
                ==> 0 <= (#[trigger] piece_points(p)[i]).0 < 2 && 3 <= piece_points(p)[i].1 < 7,
{
    if is_spawn_piece(p, PieceType::I) {
        lemma_spawn_piece_wf(p, PieceType::I);
    } else if is_spawn_piece(p, PieceType::J) {
        lemma_spawn_piece_wf(p, PieceType::J);
    } else if is_spawn_piece(p, PieceType::L) {
        lemma_spawn_piece_wf(p, PieceType::L);
    } else if is_spawn_piece(p, PieceType::O) {
        lemma_spawn_piece_wf(p, PieceType::O);
    } else if is_spawn_piece(p, PieceType::S) {
        lemma_spawn_piece_wf(p, PieceType::S);
    } else if is_spawn_piece(p, PieceType::T) {
        lemma_spawn_piece_wf(p, PieceType::T);
    } else {
        lemma_spawn_piece_wf(p, PieceType::Z);
    }
}

/// For every piece with a well-formed shape table, the four absolute cells
/// returned for its current rotation state are pairwise distinct.
pub proof fn lemma_piece_cells_distinct(p: Piece)
    requires
        shape_wf(p),
    ensures
        forall|i: int, j: int|
            0 <= i < 4 && 0 <= j < 4 && i != j
                ==> #[trigger] piece_points(p)[i] != #[trigger] piece_points(p)[j],
{
    assert forall|i: int, j: int| 0 <= i < 4 && 0 <= j < 4 && i != j implies #[trigger] piece_points(
        p,
    )[i] != #[trigger] piece_points(p)[j] by {
        let id = p.current_rotation_id as int;
        if i < 3 && j < 3 {
            assert(!(p.rotations[id][i] == p.rotations[id][j]));
        } else if i < 3 {
            assert(rel_ok(p.rotations[id][i]));
        } else {
            assert(rel_ok(p.rotations[id][j]));
        }
    }
}

/// Rotation is reversible: rotating one way and then the other restores the
/// piece exactly, center and rotation index included.
pub proof fn lemma_rotation_round_trip(p: Piece, r: Rotation)
    requires
        p.current_rotation_id < 4,
    ensures
        spec_rotated_piece(spec_rotated_piece(p, r), spec_other_direction(r)) == p,
{
}

} // verus!
