use vstd::prelude::*;

use rand::seq::SliceRandom;

use crate::geom::{is_some_spawn_piece, is_spawn_piece, Piece, PieceType};

verus! {

/// Relies on rand 0.8's `SliceRandom::shuffle` (seeded from
/// `rand::thread_rng`): a Fisher-Yates shuffle that permutes the elements of
/// the vector in place by swaps, so the multiset of elements and the length
/// are unchanged. Which permutation comes out depends on the thread's random
/// generator, so nothing more is promised.
#[verifier::external_body]
pub(crate) fn shuffle_pieces(v: &mut Vec<Piece>)
    ensures
        final(v)@.to_multiset() == old(v)@.to_multiset(),
        final(v)@.len() == old(v)@.len(),
{
    v.shuffle(&mut rand::thread_rng());
}

/// One freshly shuffled bag: the seven piece types, one spawn piece each, in
/// a uniformly random order.
#[verifier::rlimit(60)]
pub(crate) fn fresh_bag() -> (v: Vec<Piece>)
    ensures
        v@.len() == 7,
        forall|i: int| 0 <= i < 7 ==> is_some_spawn_piece(#[trigger] v@[i]),
        forall|i: int, j: int| 0 <= i < j < 7 ==> v@[i].color != v@[j].color,
{
    let p_i = Piece::new(PieceType::I);
    let p_j = Piece::new(PieceType::J);
    let p_l = Piece::new(PieceType::L);
    let p_o = Piece::new(PieceType::O);
    let p_s = Piece::new(PieceType::S);
    let p_t = Piece::new(PieceType::T);
    let p_z = Piece::new(PieceType::Z);
    let mut bag: Vec<Piece> = Vec::new();
    bag.push(p_i);
    bag.push(p_j);
    bag.push(p_l);
    bag.push(p_o);
    bag.push(p_s);
    bag.push(p_t);
    bag.push(p_z);
    let ghost orig = bag@;
    proof {
        assert(orig =~= seq![p_i, p_j, p_l, p_o, p_s, p_t, p_z]);
        assert(p_i.color == 1 && p_j.color == 2 && p_l.color == 3 && p_o.color == 4 && p_s.color
            == 5 && p_t.color == 6 && p_z.color == 7);
        assert forall|i: int, j: int| 0 <= i < j < 7 implies orig[i].color != orig[j].color by {}
        assert(orig.no_duplicates()) by {
            assert forall|i: int, j: int|
                0 <= i < orig.len() && 0 <= j < orig.len() && i != j implies orig[i] != orig[j] by {
                assert(orig[i].color != orig[j].color);
            }
        }
        orig.lemma_multiset_has_no_duplicates();
        orig.to_multiset_ensures();
    }
    shuffle_pieces(&mut bag);
    proof {
        let newv = bag@;
        newv.to_multiset_ensures();
        assert(newv.len() == 7);
        assert forall|k: int|
            0 <= k < 7 implies is_some_spawn_piece(#[trigger] newv[k]) && orig.contains(
            newv[k],
        ) by {
            assert(newv[k] == newv[k]);
            assert(newv.contains(newv[k]));
            assert(newv.to_multiset().count(newv[k]) > 0);
            assert(orig.to_multiset().count(newv[k]) > 0);
            assert(orig.contains(newv[k]));
            let j = choose|j: int| 0 <= j < orig.len() && orig[j] == newv[k];
            assert(is_some_spawn_piece(orig[j]));
        }
        assert forall|x: Piece| newv.to_multiset().contains(x) implies newv.to_multiset().count(x)
            == 1 by {
            assert(orig.to_multiset().contains(x) ==> orig.to_multiset().count(x) == 1);
        }
        newv.lemma_multiset_has_no_duplicates_conv();
        assert forall|i: int, j: int| 0 <= i < j < 7 implies newv[i].color != newv[j].color by {
            if newv[i].color == newv[j].color {
                let j1 = choose|j1: int| 0 <= j1 < orig.len() && orig[j1] == newv[i];
                let j2 = choose|j2: int| 0 <= j2 < orig.len() && orig[j2] == newv[j];
                assert(orig[j1].color == orig[j2].color);
                assert(j1 == j2);
                assert(newv[i] == newv[j]);
                assert(false);
            }
        }
    }
    bag
}

} // verus!
