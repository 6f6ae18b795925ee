use vstd::prelude::*;

use crate::field::{
    full_count, grid_wf, lemma_nonfull_all, line_cleared_grid, nonfull_rows, row_full,
};
use crate::geom::{is_some_spawn_piece, lemma_some_spawn_piece_wf, Piece};

verus! {

/// Some piece of the bag carries color `c`.
pub open spec fn color_in_bag(bag: Seq<Piece>, c: i16) -> bool {
    exists|i: int| 0 <= i < bag.len() && #[trigger] bag[i].color == c
}

/// Bag fairness: among the seven pieces of one bag — spawn pieces with
/// pairwise distinct colors, which is exactly what every replenishment of
/// the queue appends — each of the seven piece types (identified by its
/// color id) appears exactly once. The queue is drained in order and only
/// replenished when empty, so over any window of seven draws aligned to a
/// multiple of seven each type appears exactly once.
#[verifier::rlimit(100)]
pub proof fn lemma_bag_fairness(bag: Seq<Piece>)
    requires
        bag.len() == 7,
        forall|i: int| 0 <= i < 7 ==> is_some_spawn_piece(#[trigger] bag[i]),
        forall|i: int, j: int| 0 <= i < j < 7 ==> bag[i].color != bag[j].color,
    ensures
        forall|c: i16| 1 <= c <= 7 ==> #[trigger] color_in_bag(bag, c),
        forall|i: int, j: int|
            0 <= i < 7 && 0 <= j < 7 && i != j ==> bag[i].color != bag[j].color,
{
    assert forall|i: int| 0 <= i < 7 implies 1 <= #[trigger] bag[i].color <= 7 by {
        lemma_some_spawn_piece_wf(bag[i]);
    }
    assert forall|c: i16| 1 <= c <= 7 implies #[trigger] color_in_bag(bag, c) by {
        if bag[0].color == c {
            assert(bag[0].color == c);
        } else if bag[1].color == c {
            assert(bag[1].color == c);
        } else if bag[2].color == c {
            assert(bag[2].color == c);
        } else if bag[3].color == c {
            assert(bag[3].color == c);
        } else if bag[4].color == c {
            assert(bag[4].color == c);
        } else if bag[5].color == c {
            assert(bag[5].color == c);
        } else if bag[6].color == c {
            assert(bag[6].color == c);
        } else {
            // seven pairwise distinct colors inside 1..=7 cannot all avoid c
            assert(false);
        }
    }
}

/// Line-clear idempotence: a pass over a grid with no full rows clears
/// nothing and leaves the grid unchanged.
pub proof fn lemma_clear_lines_no_full(g: Seq<Seq<i16>>)
    requires
        grid_wf(g),
        forall|r: int| 0 <= r < 22 ==> !row_full(#[trigger] g[r]),
    ensures
        line_cleared_grid(g) == g,
        full_count(g.subrange(1, 22)) == 0,
{
    let body = g.subrange(1, 22);
    assert forall|i: int| 0 <= i < body.len() implies !row_full(#[trigger] body[i]) by {
        assert(body[i] == g[i + 1]);
    }
    lemma_nonfull_all(body);
    assert(line_cleared_grid(g) =~~= g) by {
        assert(nonfull_rows(body) == body);
    }
}

} // verus!
