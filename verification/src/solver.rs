//! The shortest-path solver.
//!
//! A breadth-first search over the graph whose nodes are boards and whose
//! edges are legal moves. The search keeps a first-in-first-out frontier
//! of boards, each with the move sequence that discovered it, and a set of
//! fingerprints of the boards seen so far; boards are discovered in
//! breadth-first order, so the first path that reaches the target is a
//! minimal one. A fixed cap of 10000 distinct visited boards bounds the
//! search against unreachable or malformed targets.

use vstd::prelude::*;

use std::collections::HashSet;

use crate::state::GameState;
use crate::state::Move;
use crate::state::lemma_board_len;
use crate::state::spec_move_cells;

verus! {

broadcast use {lemma_board_len, vstd::std_specs::hash::group_hash_axioms, vstd::set::group_set_axioms};

/// The most distinct boards a search will record before giving up.
pub const VISIT_CAP: usize = 10000;

/// The board that a move sequence leads to when every move of it is
/// performed in order and must be legal; nothing if any move on the way
/// is illegal.
pub open spec fn spec_apply_path(s: Seq<Option<u8>>, ms: Seq<Move>) -> Option<Seq<Option<u8>>>
    decreases ms.len(),
{
    if ms.len() == 0 {
        Some(s)
    } else {
        match spec_apply_path(s, ms.drop_last()) {
            None => None,
            Some(t) => spec_move_cells(t, ms.last()),
        }
    }
}

/// The code of one cell in a board fingerprint: the empty slot is 0, a
/// tile its value's low four bits.
pub open spec fn cell_code(t: Option<u8>) -> u64 {
    match t {
        None => 0u64,
        Some(v) => (v & 0xf) as u64,
    }
}

/// The fingerprint of the first `n` cells of a board: four bits per cell
/// in scan order. On well-formed boards every tile is below 16, so the
/// full fingerprint determines the board.
pub open spec fn code_prefix(s: Seq<Option<u8>>, n: int) -> u64
    decreases n,
{
    if n <= 0 {
        0u64
    } else {
        (code_prefix(s, n - 1) << 4) | cell_code(s[n - 1])
    }
}

/// The fingerprint of a whole board, the visited-set key of the search.
fn encode(g: &GameState) -> (r: u64)
    ensures
        r == code_prefix(g@, 16),
{
    let mut acc: u64 = 0;
    let mut i: usize = 0;
    while i < 16
        invariant
            i <= 16,
            acc == code_prefix(g@, i as int),
        decreases 16 - i,
    {
        let x: u8 = (i / 4) as u8;
        let y: u8 = (i % 4) as u8;
        proof {
            assert(x as int * 4 + y as int == i as int);
        }
        let c: u64 = match g.get(x, y) {
            None => 0,
            Some(v) => (v & 0xf) as u64,
        };
        acc = (acc << 4) | c;
        i += 1;
    }
    acc
}

/// A copy of a move sequence.
fn clone_path(v: &Vec<Move>) -> (r: Vec<Move>)
    ensures
        r@ == v@,
{
    let mut r: Vec<Move> = Vec::new();
    let mut i: usize = 0;
    while i < v.len()
        invariant
            i <= v@.len(),
            r@ == v@.take(i as int),
        decreases v@.len() - i,
    {
        r.push(v[i]);
        proof {
            assert(v@.take(i as int + 1) =~= v@.take(i as int).push(v@[i as int]));
        }
        i += 1;
    }
    proof {
        assert(v@.take(v@.len() as int) =~= v@);
    }
    r
}

/// When none of the four moves turns `s` into `t` in one step, no move
/// does.
proof fn lemma_no_one_step_neighbour(s: Seq<Option<u8>>, t: Seq<Option<u8>>)
    requires
        spec_move_cells(s, Move::LeftToRight) != Some(t),
        spec_move_cells(s, Move::RightToLeft) != Some(t),
        spec_move_cells(s, Move::TopToBottom) != Some(t),
        spec_move_cells(s, Move::BottomToTop) != Some(t),
    ensures
        !(exists|m: Move| spec_move_cells(s, m) == Some(t)),
{
    if exists|m: Move| spec_move_cells(s, m) == Some(t) {
        let m = choose|m: Move| spec_move_cells(s, m) == Some(t);
        lemma_move_exhaustive(m);
    }
}

/// Every move is one of the four variants.
proof fn lemma_move_exhaustive(m: Move)
    ensures
        m == Move::LeftToRight || m == Move::RightToLeft || m == Move::TopToBottom
            || m == Move::BottomToTop,
{
    match m {
        Move::LeftToRight => assert(m == Move::LeftToRight),
        Move::RightToLeft => assert(m == Move::RightToLeft),
        Move::TopToBottom => assert(m == Move::TopToBottom),
        Move::BottomToTop => assert(m == Move::BottomToTop),
    }
}

/// Finds the minimal number of moves needed to get from one state to the
/// other, by breadth-first search with the moves tried in the fixed order
/// `[LeftToRight, RightToLeft, TopToBottom, BottomToTop]`. Returns the
/// empty sequence when the states are already equal — and also when the
/// search gives up, after recording more than 10000 distinct boards or
/// exhausting everything reachable; the two cases are not
/// distinguishable from the result. A non-empty result is a sequence of
/// moves each of which is legal in turn and which carries `from` exactly
/// to `to`; a target one legal move away is always found, by a result of
/// length one.
pub fn find_shortest_path(from: GameState, to: GameState) -> (r: Vec<Move>)
    ensures
        from@ == to@ ==> r@ == Seq::<Move>::empty(),
        r@.len() > 0 ==> spec_apply_path(from@, r@) == Some(to@),
        from@ != to@ && (exists|m: Move| spec_move_cells(from@, m) == Some(to@)) ==> r@.len()
            == 1,
{
    if from == to {
        return Vec::new();
    }
    let ghost src = from@;
    let mut visited: HashSet<u64> = HashSet::new();
    let mut queue: Vec<(GameState, Vec<Move>)> = Vec::new();
    visited.insert(encode(&from));
    queue.push((from, Vec::new()));
    let mut head: usize = 0;
    loop
        invariant
            src == from@,
            src != to@,
            1 <= queue@.len(),
            head <= queue@.len(),
            queue@[0].0@ == src,
            queue@[0].1@.len() == 0,
            visited@.finite(),
            visited@.len() <= VISIT_CAP + 4,
            head == 0 ==> visited@.len() == 1,
            head >= 1 ==> spec_move_cells(src, Move::LeftToRight) != Some(to@)
                && spec_move_cells(src, Move::RightToLeft) != Some(to@) && spec_move_cells(
                src,
                Move::TopToBottom,
            ) != Some(to@) && spec_move_cells(src, Move::BottomToTop) != Some(to@),
            forall|k: int|
                0 <= k < queue@.len() ==> spec_apply_path(src, (#[trigger] queue@[k]).1@) == Some(
                    queue@[k].0@,
                ),
        decreases (VISIT_CAP + 5 - visited@.len() as int) * 5 + (queue@.len() - head as int),
    {
        if head >= queue.len() {
            proof {
                lemma_no_one_step_neighbour(src, to@);
            }
            return Vec::new();
        }
        if visited.len() > VISIT_CAP {
            proof {
                lemma_no_one_step_neighbour(src, to@);
            }
            return Vec::new();
        }
        let cur: GameState = queue[head].0;
        let path: Vec<Move> = clone_path(&queue[head].1);
        proof {
            assert(spec_apply_path(src, path@) == Some(cur@));
        }
        head += 1;
        let ghost v0 = visited@.len();
        let ghost q0 = queue@.len();
        let mut mi: usize = 0;
        while mi < 4
            invariant
                mi <= 4,
                src == from@,
                src != to@,
                1 <= head,
                head <= q0 <= queue@.len(),
                queue@[0].0@ == src,
                queue@[0].1@.len() == 0,
                visited@.finite(),
                v0 <= visited@.len() <= v0 + mi,
                v0 <= VISIT_CAP,
                visited@.len() - v0 == queue@.len() - q0,
                spec_apply_path(src, path@) == Some(cur@),
                head == 1 ==> cur@ == src && path@.len() == 0,
                head == 1 && mi >= 1 ==> spec_move_cells(src, Move::LeftToRight) != Some(to@),
                head == 1 && mi >= 2 ==> spec_move_cells(src, Move::RightToLeft) != Some(to@),
                head == 1 && mi >= 3 ==> spec_move_cells(src, Move::TopToBottom) != Some(to@),
                head == 1 && mi >= 4 ==> spec_move_cells(src, Move::BottomToTop) != Some(to@),
                head >= 2 ==> spec_move_cells(src, Move::LeftToRight) != Some(to@)
                    && spec_move_cells(src, Move::RightToLeft) != Some(to@) && spec_move_cells(
                    src,
                    Move::TopToBottom,
                ) != Some(to@) && spec_move_cells(src, Move::BottomToTop) != Some(to@),
                forall|k: int|
                    0 <= k < queue@.len() ==> spec_apply_path(src, (#[trigger] queue@[k]).1@)
                        == Some(queue@[k].0@),
            decreases 4 - mi,
        {
            let m = if mi == 0 {
                Move::LeftToRight
            } else if mi == 1 {
                Move::RightToLeft
            } else if mi == 2 {
                Move::TopToBottom
            } else {
                Move::BottomToTop
            };
            let mut child = cur;
            if child.perform_move(m) {
                if child == to {
                    let mut new_path = clone_path(&path);
                    new_path.push(m);
                    proof {
                        assert(new_path@.drop_last() =~= path@);
                        assert(new_path@.last() == m);
                        assert(spec_apply_path(src, new_path@) == Some(child@));
                        if head >= 2 {
                            lemma_no_one_step_neighbour(src, to@);
                        }
                    }
                    return new_path;
                }
                let key = encode(&child);
                if !visited.contains(&key) {
                    let mut new_path = clone_path(&path);
                    new_path.push(m);
                    proof {
                        assert(new_path@.drop_last() =~= path@);
                        assert(new_path@.last() == m);
                        assert(spec_apply_path(src, new_path@) == Some(child@));
                    }
                    visited.insert(key);
                    queue.push((child, new_path));
                }
            }
            mi += 1;
        }
    }
}

} // verus!
