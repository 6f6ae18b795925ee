use vstd::prelude::*;

verus! {

/// Well-formed playfield contents: 22 rows of 10 cells.
pub open spec fn grid_wf(g: Seq<Seq<i16>>) -> bool {
    &&& g.len() == 22
    &&& forall|r: int| 0 <= r < 22 ==> (#[trigger] g[r]).len() == 10
}

/// The point lies inside the playfield.
pub open spec fn pt_in(pt: (int, int)) -> bool {
    0 <= pt.0 < 22 && 0 <= pt.1 < 10
}

/// The cell value at a point.
pub open spec fn grid_at(g: Seq<Seq<i16>>, pt: (int, int)) -> i16 {
    g[pt.0][pt.1]
}

/// The grid with one cell replaced.
pub open spec fn grid_set(g: Seq<Seq<i16>>, pt: (int, int), v: i16) -> Seq<Seq<i16>> {
    g.update(pt.0, g[pt.0].update(pt.1, v))
}

/// Some point of `pts` equals `q`.
pub open spec fn in_pts(pts: Seq<(int, int)>, q: (int, int)) -> bool {
    exists|i: int| 0 <= i < pts.len() && #[trigger] pts[i] == q
}

/// How a scan or write over a piece's cells ends: it visits every cell, or it
/// stops at the first cell outside the grid, or at the first occupied cell.
#[derive(PartialEq, Eq, Structural)]
pub enum FillOutcome {
    Filled,
    HitOutOfBounds,
    HitOverlap,
}

/// One-by-one fill of the cells `pts` with `color`, as `fill_piece_points`
/// performs it: a cell outside the grid stops the walk with
/// `HitOutOfBounds`, a cell already holding `color` is skipped, a cell
/// holding another positive value stops the walk with `HitOverlap`, and any
/// other cell is overwritten with `color`. Returns the grid as left behind
/// (earlier writes survive an error) and the outcome.
pub open spec fn fill_seq(g: Seq<Seq<i16>>, pts: Seq<(int, int)>, color: i16) -> (
    Seq<Seq<i16>>,
    FillOutcome,
)
    decreases pts.len(),
{
    if pts.len() <= 0 {
        (g, FillOutcome::Filled)
    } else {
        let p = pts[0];
        if !pt_in(p) {
            (g, FillOutcome::HitOutOfBounds)
        } else if grid_at(g, p) == color {
            fill_seq(g, pts.drop_first(), color)
        } else if grid_at(g, p) > 0 {
            (g, FillOutcome::HitOverlap)
        } else {
            fill_seq(grid_set(g, p, color), pts.drop_first(), color)
        }
    }
}

pub open spec fn fill_grid(g: Seq<Seq<i16>>, pts: Seq<(int, int)>, color: i16) -> Seq<Seq<i16>> {
    fill_seq(g, pts, color).0
}

pub open spec fn fill_out(g: Seq<Seq<i16>>, pts: Seq<(int, int)>, color: i16) -> FillOutcome {
    fill_seq(g, pts, color).1
}

/// One-by-one clear of the cells `pts`, as `clear_piece_points` performs it:
/// a cell outside the grid stops the walk with an error (`false`), a cell
/// holding exactly `color` is zeroed, any other cell is left alone.
pub open spec fn clear_seq(g: Seq<Seq<i16>>, pts: Seq<(int, int)>, color: i16) -> (
    Seq<Seq<i16>>,
    bool,
)
    decreases pts.len(),
{
    if pts.len() <= 0 {
        (g, true)
    } else {
        let p = pts[0];
        if !pt_in(p) {
            (g, false)
        } else if grid_at(g, p) != color {
            clear_seq(g, pts.drop_first(), color)
        } else {
            clear_seq(grid_set(g, p, 0), pts.drop_first(), color)
        }
    }
}

pub open spec fn clear_grid(g: Seq<Seq<i16>>, pts: Seq<(int, int)>, color: i16) -> Seq<Seq<i16>> {
    clear_seq(g, pts, color).0
}

pub open spec fn clear_ok(g: Seq<Seq<i16>>, pts: Seq<(int, int)>, color: i16) -> bool {
    clear_seq(g, pts, color).1
}

/// A read-only walk over `pts`, as `piece_is_in_allowed_position` performs
/// it: the first cell outside the grid gives `HitOutOfBounds`, the first
/// cell holding a positive value gives `HitOverlap`.
pub open spec fn probe_seq(g: Seq<Seq<i16>>, pts: Seq<(int, int)>) -> FillOutcome
    decreases pts.len(),
{
    if pts.len() <= 0 {
        FillOutcome::Filled
    } else {
        let p = pts[0];
        if !pt_in(p) {
            FillOutcome::HitOutOfBounds
        } else if grid_at(g, p) > 0 {
            FillOutcome::HitOverlap
        } else {
            probe_seq(g, pts.drop_first())
        }
    }
}

/// The grid with every cell of `pts` set to `color` and every other cell
/// unchanged: the order-free description of a successful fill.
pub open spec fn painted(g: Seq<Seq<i16>>, pts: Seq<(int, int)>, color: i16) -> Seq<Seq<i16>> {
    Seq::new(
        g.len(),
        |r: int|
            Seq::new(
                g[r].len(),
                |c: int| if in_pts(pts, (r, c)) { color } else { g[r][c] },
            ),
    )
}

/// The grid with every cell of `pts` that holds exactly `color` zeroed: the
/// order-free description of a successful clear.
pub open spec fn erased(g: Seq<Seq<i16>>, pts: Seq<(int, int)>, color: i16) -> Seq<Seq<i16>> {
    Seq::new(
        g.len(),
        |r: int|
            Seq::new(
                g[r].len(),
                |c: int| if in_pts(pts, (r, c)) && g[r][c] == color { 0 } else { g[r][c] },
            ),
    )
}

/// Every cell of `pts` lies in the grid and is free for `color`: empty, a
/// ghost marker, or already holding `color`.
pub open spec fn pts_free_for(g: Seq<Seq<i16>>, pts: Seq<(int, int)>, color: i16) -> bool {
    forall|i: int|
        0 <= i < pts.len()
            ==> pt_in(#[trigger] pts[i]) && (grid_at(g, pts[i]) <= 0 || grid_at(g, pts[i])
                == color)
}

/// Every cell of `pts` lies in the grid.
pub open spec fn pts_in_grid(pts: Seq<(int, int)>) -> bool {
    forall|i: int| 0 <= i < pts.len() ==> pt_in(#[trigger] pts[i])
}

/// Every cell of the row holds the locked-block marker.
pub open spec fn row_full(row: Seq<i16>) -> bool {
    forall|c: int| 0 <= c < row.len() ==> row[c] == 8
}

/// The rows of `s` that are not full, in order.
pub open spec fn nonfull_rows(s: Seq<Seq<i16>>) -> Seq<Seq<i16>>
    decreases s.len(),
{
    if s.len() == 0 {
        Seq::empty()
    } else if row_full(s[0]) {
        nonfull_rows(s.drop_first())
    } else {
        seq![s[0]] + nonfull_rows(s.drop_first())
    }
}

/// The number of full rows of `s`.
pub open spec fn full_count(s: Seq<Seq<i16>>) -> int {
    s.len() - nonfull_rows(s).len()
}

/// The grid after the line-clear pass: every full row below the top row is
/// removed, the rows above each slide down one, and each removed row leaves
/// one more copy of the top row at the top.
pub open spec fn line_cleared_grid(g: Seq<Seq<i16>>) -> Seq<Seq<i16>> {
    Seq::new(full_count(g.subrange(1, 22)) as nat, |i: int| g[0]) + seq![g[0]] + nonfull_rows(
        g.subrange(1, 22),
    )
}

/// The grid with rows 1..=`line` each replaced by the row above it.
pub open spec fn shift_down(g: Seq<Seq<i16>>, line: int) -> Seq<Seq<i16>> {
    Seq::new(g.len(), |r: int| if 1 <= r <= line { g[r - 1] } else { g[r] })
}

pub proof fn lemma_nonfull_len(s: Seq<Seq<i16>>)
    ensures
        0 <= nonfull_rows(s).len() <= s.len(),
    decreases s.len(),
{
    if s.len() > 0 {
        lemma_nonfull_len(s.drop_first());
    }
}

/// A sequence without a full row is left whole by the filter.
pub proof fn lemma_nonfull_all(s: Seq<Seq<i16>>)
    requires
        forall|i: int| 0 <= i < s.len() ==> !row_full(#[trigger] s[i]),
    ensures
        nonfull_rows(s) == s,
    decreases s.len(),
{
    if s.len() > 0 {
        assert(!row_full(s[0]));
        assert forall|i: int|
            0 <= i < s.drop_first().len() implies !row_full(#[trigger] s.drop_first()[i]) by {
            assert(s.drop_first()[i] == s[i + 1]);
        }
        lemma_nonfull_all(s.drop_first());
        assert(seq![s[0]] + s.drop_first() =~= s);
    }
}

/// The middle-of-pass shape of the grid while the line-clear scan stands at
/// line `count + m`: `count` copies of the top row, the first `m + 1`
/// original rows, and the surviving rows from below.
pub open spec fn pass_shape(orig: Seq<Seq<i16>>, count: int, m: int) -> Seq<Seq<i16>> {
    Seq::new(count as nat, |i: int| orig[0]) + orig.subrange(0, m + 1) + nonfull_rows(
        orig.subrange(m + 1, 22),
    )
}

/// Shifting down at the scan line removes the full original row `m` from the
/// grid and adds one more copy of the top row.
pub proof fn lemma_shift_clears_full(orig: Seq<Seq<i16>>, count: int, m: int)
    requires
        grid_wf(orig),
        0 <= count,
        1 <= m,
        count + m <= 21,
        row_full(orig[m]),
    ensures
        shift_down(pass_shape(orig, count, m), count + m) == pass_shape(orig, count + 1, m - 1),
        full_count(orig.subrange(m, 22)) == full_count(orig.subrange(m + 1, 22)) + 1,
{
    let g = pass_shape(orig, count, m);
    let l = count + m;
    assert(orig.subrange(m, 22).drop_first() =~= orig.subrange(m + 1, 22));
    assert(orig.subrange(m, 22)[0] == orig[m]);
    assert(nonfull_rows(orig.subrange(m, 22)) == nonfull_rows(orig.subrange(m + 1, 22)));
    lemma_nonfull_len(orig.subrange(m + 1, 22));
    assert(g.len() == 22 - full_count(orig.subrange(m + 1, 22)) + count) by {
        assert(orig.subrange(0, m + 1).len() == m + 1);
    }
    assert(shift_down(g, l) =~~= pass_shape(orig, count + 1, m - 1)) by {
        let lhs = shift_down(g, l);
        let rhs = pass_shape(orig, count + 1, m - 1);
        assert(lhs.len() == g.len());
        assert(rhs.len() == g.len()) by {
            assert(orig.subrange(0, m).len() == m);
        }
        assert forall|r: int| 0 <= r < g.len() implies lhs[r] =~= rhs[r] by {
            if r == 0 {
                assert(g[0] == orig[0]);
            } else if r <= l {
                assert(lhs[r] == g[r - 1]);
                if r - 1 < count {
                    assert(g[r - 1] == orig[0]);
                    assert(rhs[r] == orig[0]);
                } else {
                    assert(g[r - 1] == orig.subrange(0, m + 1)[r - 1 - count]);
                    assert(rhs[r] == orig.subrange(0, m)[r - 1 - count]);
                }
            } else {
                assert(lhs[r] == g[r]);
                assert(g[r] == nonfull_rows(orig.subrange(m + 1, 22))[r - (count + m + 1)]);
                assert(rhs[r] == nonfull_rows(orig.subrange(m, 22))[r - (count + m + 1)]);
            }
        }
    }
}

/// When the scan line holds a row that is not full, narrowing the original
/// prefix by one leaves the same grid: the row joins the surviving suffix.
pub proof fn lemma_pass_keep_row(orig: Seq<Seq<i16>>, count: int, m: int)
    requires
        grid_wf(orig),
        0 <= count,
        0 <= m,
        count + m <= 21,
        !row_full(orig[m]),
    ensures
        pass_shape(orig, count, m) == pass_shape(orig, count, m - 1),
        full_count(orig.subrange(m, 22)) == full_count(orig.subrange(m + 1, 22)),
{
    assert(orig.subrange(m, 22).drop_first() =~= orig.subrange(m + 1, 22));
    assert(orig.subrange(m, 22)[0] == orig[m]);
    assert(nonfull_rows(orig.subrange(m, 22)) == seq![orig[m]] + nonfull_rows(
        orig.subrange(m + 1, 22),
    ));
    assert(pass_shape(orig, count, m) =~~= pass_shape(orig, count, m - 1)) by {
        assert(orig.subrange(0, m + 1) =~= orig.subrange(0, m) + seq![orig[m]]);
        lemma_nonfull_len(orig.subrange(m + 1, 22));
    }
}

pub proof fn lemma_in_pts_cons(pts: Seq<(int, int)>, q: (int, int))
    requires
        pts.len() > 0,
    ensures
        in_pts(pts, q) <==> (q == pts[0] || in_pts(pts.drop_first(), q)),
{
    let rest = pts.drop_first();
    if in_pts(pts, q) {
        let i = choose|i: int| 0 <= i < pts.len() && #[trigger] pts[i] == q;
        if i > 0 {
            assert(rest[i - 1] == q);
        }
    }
    if in_pts(rest, q) {
        let i = choose|i: int| 0 <= i < rest.len() && #[trigger] rest[i] == q;
        assert(pts[i + 1] == q);
    }
}

pub proof fn lemma_in_pts_take(pts: Seq<(int, int)>, i: int, q: (int, int))
    requires
        0 <= i < pts.len(),
    ensures
        in_pts(pts.take(i + 1), q) <==> (in_pts(pts.take(i), q) || pts[i] == q),
{
    if in_pts(pts.take(i + 1), q) {
        let j = choose|j: int| 0 <= j < pts.take(i + 1).len() && #[trigger] pts.take(i + 1)[j] == q;
        if j < i {
            assert(pts.take(i)[j] == q);
        }
    }
    if in_pts(pts.take(i), q) {
        let j = choose|j: int| 0 <= j < pts.take(i).len() && #[trigger] pts.take(i)[j] == q;
        assert(pts.take(i + 1)[j] == q);
    }
    if pts[i] == q {
        assert(pts.take(i + 1)[i] == q);
    }
}

/// A successful fill paints exactly the cells of `pts`: if every cell is in
/// the grid and free for the color, the walk completes and the grid becomes
/// the order-free `painted` form.
pub proof fn lemma_fill_free(g: Seq<Seq<i16>>, pts: Seq<(int, int)>, color: i16)
    requires
        grid_wf(g),
        pts_free_for(g, pts, color),
    ensures
        fill_out(g, pts, color) == FillOutcome::Filled,
        fill_grid(g, pts, color) == painted(g, pts, color),
        grid_wf(fill_grid(g, pts, color)),
    decreases pts.len(),
{
    if pts.len() <= 0 {
        assert(fill_grid(g, pts, color) =~~= painted(g, pts, color));
    } else {
        let p = pts[0];
        let rest = pts.drop_first();
        assert(pt_in(p) && (grid_at(g, p) <= 0 || grid_at(g, p) == color));
        let g1 = if grid_at(g, p) == color {
            g
        } else {
            grid_set(g, p, color)
        };
        assert(grid_wf(g1));
        assert forall|i: int|
            0 <= i < rest.len() implies pt_in(#[trigger] rest[i]) && (grid_at(g1, rest[i]) <= 0
            || grid_at(g1, rest[i]) == color) by {
            assert(rest[i] == pts[i + 1]);
            assert(pt_in(pts[i + 1]) && (grid_at(g, pts[i + 1]) <= 0 || grid_at(g, pts[i + 1])
                == color));
        }
        lemma_fill_free(g1, rest, color);
        assert(painted(g1, rest, color) =~~= painted(g, pts, color)) by {
            assert forall|r: int, c: int|
                0 <= r < g.len() && 0 <= c < g[r].len() implies painted(g1, rest, color)[r][c]
                == painted(g, pts, color)[r][c] by {
                lemma_in_pts_cons(pts, (r, c));
            }
        }
        assert(fill_seq(g, pts, color) == fill_seq(g1, rest, color));
    }
}

/// If some cell of `pts` is outside the grid or holds a conflicting positive
/// value, the fill does not complete.
pub proof fn lemma_fill_blocked(g: Seq<Seq<i16>>, pts: Seq<(int, int)>, color: i16)
    requires
        grid_wf(g),
        !pts_free_for(g, pts, color),
    ensures
        fill_out(g, pts, color) != FillOutcome::Filled,
    decreases pts.len(),
{
    let p = pts[0];
    let rest = pts.drop_first();
    if pt_in(p) && (grid_at(g, p) <= 0 || grid_at(g, p) == color) {
        let g1 = if grid_at(g, p) == color {
            g
        } else {
            grid_set(g, p, color)
        };
        assert(!pts_free_for(g1, rest, color)) by {
            let i = choose|i: int|
                0 <= i < pts.len() && !(pt_in(#[trigger] pts[i]) && (grid_at(g, pts[i]) <= 0
                    || grid_at(g, pts[i]) == color));
            assert(i != 0);
            assert(rest[i - 1] == pts[i]);
            if pt_in(pts[i]) {
                if pts[i] == p {
                    assert(false);
                } else {
                    assert(grid_at(g1, pts[i]) == grid_at(g, pts[i]));
                }
            }
        }
        lemma_fill_blocked(g1, rest, color);
        assert(fill_seq(g, pts, color) == fill_seq(g1, rest, color));
    }
}

/// A fill only ever paints: under it, a cell either keeps its value, or it
/// was free (zero or a marker), lies in `pts`, and now holds `color`.
pub proof fn lemma_fill_writes(g: Seq<Seq<i16>>, pts: Seq<(int, int)>, color: i16)
    requires
        grid_wf(g),
    ensures
        grid_wf(fill_grid(g, pts, color)),
        forall|q: (int, int)|
            pt_in(q) ==> #[trigger] grid_at(fill_grid(g, pts, color), q) == grid_at(g, q) || (
            grid_at(g, q) <= 0 && grid_at(fill_grid(g, pts, color), q) == color && in_pts(pts, q)),
    decreases pts.len(),
{
    if pts.len() > 0 {
        let p = pts[0];
        let rest = pts.drop_first();
        if !pt_in(p) {
        } else if grid_at(g, p) == color {
            lemma_fill_writes(g, rest, color);
            assert(fill_seq(g, pts, color) == fill_seq(g, rest, color));
            assert forall|q: (int, int)|
                pt_in(q) implies #[trigger] grid_at(fill_grid(g, pts, color), q) == grid_at(g, q)
                || (grid_at(g, q) <= 0 && grid_at(fill_grid(g, pts, color), q) == color && in_pts(
                pts,
                q,
            )) by {
                lemma_in_pts_cons(pts, q);
            }
        } else if grid_at(g, p) > 0 {
        } else {
            let g1 = grid_set(g, p, color);
            assert(grid_wf(g1));
            lemma_fill_writes(g1, rest, color);
            assert(fill_seq(g, pts, color) == fill_seq(g1, rest, color));
            assert forall|q: (int, int)|
                pt_in(q) implies #[trigger] grid_at(fill_grid(g, pts, color), q) == grid_at(g, q)
                || (grid_at(g, q) <= 0 && grid_at(fill_grid(g, pts, color), q) == color && in_pts(
                pts,
                q,
            )) by {
                lemma_in_pts_cons(pts, q);
                if q != p {
                    assert(grid_at(g1, q) == grid_at(g, q));
                } else {
                    assert(grid_at(g1, q) == color);
                }
            }
        }
    }
}

/// A fill over cells that all lie in the grid never stops for bounds.
pub proof fn lemma_fill_no_oob(g: Seq<Seq<i16>>, pts: Seq<(int, int)>, color: i16)
    requires
        pts_in_grid(pts),
    ensures
        fill_out(g, pts, color) != FillOutcome::HitOutOfBounds,
    decreases pts.len(),
{
    if pts.len() > 0 {
        let p = pts[0];
        let rest = pts.drop_first();
        assert(pt_in(p));
        assert forall|i: int| 0 <= i < rest.len() implies pt_in(#[trigger] rest[i]) by {
            assert(rest[i] == pts[i + 1]);
        }
        if grid_at(g, p) == color {
            lemma_fill_no_oob(g, rest, color);
        } else if grid_at(g, p) > 0 {
        } else {
            lemma_fill_no_oob(grid_set(g, p, color), rest, color);
        }
    }
}

/// Rows that survive the line-clear filter keep their contents: if every
/// cell of `s` is empty or locked and every row has 10 cells, the same holds
/// of the surviving rows.
pub proof fn lemma_nonfull_cells(s: Seq<Seq<i16>>)
    requires
        forall|i: int, c: int|
            0 <= i < s.len() && 0 <= c < (#[trigger] s[i]).len() ==> s[i][c] == 0 || #[trigger] s[i][c] == 8,
        forall|i: int| 0 <= i < s.len() ==> (#[trigger] s[i]).len() == 10,
    ensures
        forall|i: int, c: int|
            0 <= i < nonfull_rows(s).len() && 0 <= c < (#[trigger] nonfull_rows(s)[i]).len()
                ==> nonfull_rows(s)[i][c] == 0 || #[trigger] nonfull_rows(s)[i][c] == 8,
        forall|i: int| 0 <= i < nonfull_rows(s).len() ==> (#[trigger] nonfull_rows(s)[i]).len() == 10,
    decreases s.len(),
{
    if s.len() > 0 {
        let rest = s.drop_first();
        assert forall|i: int, c: int|
            0 <= i < rest.len() && 0 <= c < (#[trigger] rest[i]).len() implies rest[i][c] == 0 || #[trigger] rest[i][c]
            == 8 by {
            assert(rest[i] == s[i + 1]);
        }
        assert forall|i: int| 0 <= i < rest.len() implies (#[trigger] rest[i]).len() == 10 by {
            assert(rest[i] == s[i + 1]);
        }
        lemma_nonfull_cells(rest);
        if !row_full(s[0]) {
            assert forall|i: int|
                0 <= i < nonfull_rows(s).len() implies (#[trigger] nonfull_rows(s)[i]).len()
                == 10 by {
                if i > 0 {
                    assert(nonfull_rows(s)[i] == nonfull_rows(rest)[i - 1]);
                }
            }
            assert forall|i: int, c: int|
                0 <= i < nonfull_rows(s).len() && 0 <= c < (
            #[trigger] nonfull_rows(s)[i]).len() implies nonfull_rows(s)[i][c] == 0
                || #[trigger] nonfull_rows(s)[i][c] == 8 by {
                if i > 0 {
                    assert(nonfull_rows(s)[i] == nonfull_rows(rest)[i - 1]);
                }
            }
        }
    }
}

/// A successful clear zeroes exactly the cells of `pts` that hold `color`:
/// if every cell is in the grid, the walk completes and the grid becomes the
/// order-free `erased` form.
pub proof fn lemma_clear_in_grid(g: Seq<Seq<i16>>, pts: Seq<(int, int)>, color: i16)
    requires
        grid_wf(g),
        pts_in_grid(pts),
        color != 0,
    ensures
        clear_ok(g, pts, color),
        clear_grid(g, pts, color) == erased(g, pts, color),
        grid_wf(clear_grid(g, pts, color)),
    decreases pts.len(),
{
    if pts.len() <= 0 {
        assert(clear_grid(g, pts, color) =~~= erased(g, pts, color));
    } else {
        let p = pts[0];
        let rest = pts.drop_first();
        assert(pt_in(p));
        let g1 = if grid_at(g, p) != color {
            g
        } else {
            grid_set(g, p, 0)
        };
        assert(grid_wf(g1));
        assert forall|i: int| 0 <= i < rest.len() implies pt_in(#[trigger] rest[i]) by {
            assert(rest[i] == pts[i + 1]);
        }
        lemma_clear_in_grid(g1, rest, color);
        assert(erased(g1, rest, color) =~~= erased(g, pts, color)) by {
            assert forall|r: int, c: int|
                0 <= r < g.len() && 0 <= c < g[r].len() implies erased(g1, rest, color)[r][c]
                == erased(g, pts, color)[r][c] by {
                lemma_in_pts_cons(pts, (r, c));
            }
        }
        assert(clear_seq(g, pts, color) == clear_seq(g1, rest, color));
    }
}

/// The read-only probe succeeds exactly when every cell of `pts` is in the
/// grid and holds no positive value.
pub proof fn lemma_probe_iff(g: Seq<Seq<i16>>, pts: Seq<(int, int)>)
    ensures
        probe_seq(g, pts) == FillOutcome::Filled <==> forall|i: int|
            0 <= i < pts.len() ==> pt_in(#[trigger] pts[i]) && grid_at(g, pts[i]) <= 0,
    decreases pts.len(),
{
    if pts.len() > 0 {
        let p = pts[0];
        let rest = pts.drop_first();
        lemma_probe_iff(g, rest);
        assert forall|i: int| 0 <= i < rest.len() implies rest[i] == pts[i + 1] by {}
        if probe_seq(g, pts) == FillOutcome::Filled {
            assert forall|i: int|
                0 <= i < pts.len() implies pt_in(#[trigger] pts[i]) && grid_at(g, pts[i])
                <= 0 by {
                if i > 0 {
                    assert(rest[i - 1] == pts[i]);
                }
            }
        } else {
            if pt_in(p) && grid_at(g, p) <= 0 {
                let i = choose|i: int|
                    0 <= i < rest.len() && !(pt_in(#[trigger] rest[i]) && grid_at(g, rest[i])
                        <= 0);
                assert(pts[i + 1] == rest[i]);
            }
        }
    }
}

/// Filling cells that are all empty and then clearing the same cells with
/// the same (non-zero) color restores the grid bit for bit.
pub proof fn lemma_fill_then_clear(g: Seq<Seq<i16>>, pts: Seq<(int, int)>, color: i16)
    requires
        grid_wf(g),
        color != 0,
        forall|i: int|
            0 <= i < pts.len() ==> pt_in(#[trigger] pts[i]) && grid_at(g, pts[i]) == 0,
    ensures
        fill_out(g, pts, color) == FillOutcome::Filled,
        clear_grid(fill_grid(g, pts, color), pts, color) == g,
        clear_ok(fill_grid(g, pts, color), pts, color),
{
    lemma_fill_free(g, pts, color);
    let gf = fill_grid(g, pts, color);
    lemma_clear_in_grid(gf, pts, color);
    assert(erased(gf, pts, color) =~~= g);
}

} // verus!
