//! The board and the four directional moves.
//!
//! A board is a 4x4 grid of cells; a cell holds either a tile identifier in
//! the range 1..=15 or nothing (the empty slot). The grid is stored as a
//! flat array of 16 cells, cell `(x, y)` at index `x * 4 + y`, so the view
//! of a board is a sequence of 16 `Option<u8>` values.

use vstd::prelude::*;

verus! {

/// One of the four directional moves. The name gives the direction the
/// neighbouring tile travels into the empty slot: `LeftToRight` slides the
/// tile left of the empty slot rightward into it, and so on. The variants'
/// fixed external codes are `LeftToRight = 0`, `RightToLeft = 1`,
/// `TopToBottom = 2`, `BottomToTop = 3`, in declaration order.
#[derive(Debug, Copy, Clone, PartialEq, Eq, Hash, PartialOrd, Ord, Structural)]
pub enum Move {
    LeftToRight,
    RightToLeft,
    TopToBottom,
    BottomToTop,
}

/// The fixed external code of a move, stable for outside collaborators
/// that drive the board cell-by-cell.
pub open spec fn move_code(m: Move) -> u8 {
    match m {
        Move::LeftToRight => 0,
        Move::RightToLeft => 1,
        Move::TopToBottom => 2,
        Move::BottomToTop => 3,
    }
}

impl Move {
    /// The fixed external code of this move.
    pub fn code(self) -> (r: u8)
        ensures
            r == move_code(self),
    {
        match self {
            Move::LeftToRight => 0,
            Move::RightToLeft => 1,
            Move::TopToBottom => 2,
            Move::BottomToTop => 3,
        }
    }
}

/// A cell is either empty or a tile in 1..=15.
pub open spec fn tile_ok(t: Option<u8>) -> bool {
    t matches Some(v) ==> 1 <= v <= 15
}

/// All 16 cells hold pairwise distinct values (two empty cells count as
/// equal, so this also caps the number of empty cells at one).
pub open spec fn cells_distinct(s: Seq<Option<u8>>) -> bool {
    forall|i: int, j: int| 0 <= i < j < s.len() ==> s[i] != s[j]
}

/// The board invariant: 16 cells, every tile in range, all cells pairwise
/// distinct, and at least one cell empty. Together with distinctness the
/// last conjunct makes the empty cell unique.
pub open spec fn wf_cells(s: Seq<Option<u8>>) -> bool {
    &&& s.len() == 16
    &&& forall|i: int| 0 <= i < 16 ==> tile_ok(#[trigger] s[i])
    &&& cells_distinct(s)
    &&& exists|i: int| 0 <= i < 16 && s[i] is None
}

/// The canonical solved configuration: tile `k` at position
/// `((k - 1) % 4, (k - 1) / 4)` for `k` in 1..=15, the empty slot at (3, 3).
pub open spec fn default_cells() -> Seq<Option<u8>> {
    seq![
        Some(1u8), Some(5u8), Some(9u8), Some(13u8),
        Some(2u8), Some(6u8), Some(10u8), Some(14u8),
        Some(3u8), Some(7u8), Some(11u8), Some(15u8),
        Some(4u8), Some(8u8), Some(12u8), None,
    ]
}

/// The index of the first empty cell at or after position `i` in scan
/// order, which visits `(x, y)` by increasing `x * 4 + y`.
pub open spec fn first_empty_from(s: Seq<Option<u8>>, i: int) -> Option<int>
    decreases s.len() - i,
{
    if i < 0 || i >= s.len() {
        None
    } else if s[i] is None {
        Some(i)
    } else {
        first_empty_from(s, i + 1)
    }
}

/// The index of the first empty cell in scan order, if any.
pub open spec fn first_empty(s: Seq<Option<u8>>) -> Option<int> {
    first_empty_from(s, 0)
}

/// The cells with the contents of positions `i` and `j` exchanged.
pub open spec fn swap_cells(s: Seq<Option<u8>>, i: int, j: int) -> Seq<Option<u8>> {
    s.update(i, s[j]).update(j, s[i])
}

/// What one move does to a board: locate the empty slot (the first in scan
/// order, which is the only one on a well-formed board); if the empty
/// slot's position forbids the move, the move is illegal (`None`);
/// otherwise exchange the empty slot with its neighbour in the move's
/// direction. With the empty slot at `(x, y)` and index `i = x * 4 + y`,
/// the neighbour left of it is at index `i - 4`, right of it at `i + 4`,
/// above it at `i - 1`, below it at `i + 1`.
pub open spec fn spec_move_cells(s: Seq<Option<u8>>, m: Move) -> Option<Seq<Option<u8>>> {
    match first_empty(s) {
        None => None,
        Some(i) => {
            let x = i / 4;
            let y = i % 4;
            match m {
                Move::LeftToRight => if x == 0 { None } else { Some(swap_cells(s, i, i - 4)) },
                Move::RightToLeft => if x == 3 { None } else { Some(swap_cells(s, i, i + 4)) },
                Move::TopToBottom => if y == 0 { None } else { Some(swap_cells(s, i, i - 1)) },
                Move::BottomToTop => if y == 3 { None } else { Some(swap_cells(s, i, i + 1)) },
            }
        },
    }
}

/// One step of applying a move sequence: an illegal move is skipped and
/// leaves the board unchanged.
pub open spec fn step_cells(s: Seq<Option<u8>>, m: Move) -> Seq<Option<u8>> {
    match spec_move_cells(s, m) {
        Some(t) => t,
        None => s,
    }
}

/// The board after applying a move sequence in order, illegal moves
/// skipped.
pub open spec fn spec_apply_moves(s: Seq<Option<u8>>, ms: Seq<Move>) -> Seq<Option<u8>>
    decreases ms.len(),
{
    if ms.len() == 0 {
        s
    } else {
        step_cells(spec_apply_moves(s, ms.drop_last()), ms.last())
    }
}

/// How many moves of a sequence apply successfully when performed in
/// order, illegal moves skipped.
pub open spec fn spec_count_moves(s: Seq<Option<u8>>, ms: Seq<Move>) -> int
    decreases ms.len(),
{
    if ms.len() == 0 {
        0
    } else {
        spec_count_moves(s, ms.drop_last()) + if spec_move_cells(
            spec_apply_moves(s, ms.drop_last()),
            ms.last(),
        ) is Some {
            1int
        } else {
            0int
        }
    }
}

/// The slot a cell occupies in a table of the 16 possible cell values:
/// slot 0 for the empty cell, slot `v` for tile `v`.
pub open spec fn cell_slot(t: Option<u8>) -> int {
    match t {
        None => 0,
        Some(v) => v as int,
    }
}

/// A full grid of 16 pairwise distinct cells whose tiles lie in 1..=15
/// must contain an empty cell: there are only 15 tile values to go round.
pub proof fn lemma_full_grid_has_empty(s: Seq<Option<u8>>)
    requires
        s.len() == 16,
        forall|i: int| 0 <= i < 16 ==> tile_ok(#[trigger] s[i]),
        cells_distinct(s),
    ensures
        exists|i: int| 0 <= i < 16 && s[i] is None,
{
    broadcast use vstd::set::group_set_axioms;

    if forall|i: int| 0 <= i < 16 ==> (#[trigger] s[i]) is Some {
        let vals = Seq::new(16nat, |i: int| s[i]->0 as int);
        assert forall|i: int, j: int|
            0 <= i < vals.len() && 0 <= j < vals.len() && i != j implies vals[i] != vals[j] by {
            if i < j {
                assert(s[i] != s[j]);
            } else {
                assert(s[j] != s[i]);
            }
        }
        assert(vals.no_duplicates());
        vals.unique_seq_to_set();
        assert forall|a: int| vals.to_set().contains(a) implies vstd::set_lib::set_int_range(
            1,
            16,
        ).contains(a) by {
            let i = choose|i: int| 0 <= i < vals.len() && vals[i] == a;
            assert(tile_ok(s[i]));
        }
        vstd::set_lib::lemma_int_range(1, 16);
        vstd::set_lib::lemma_len_subset(
            vals.to_set(),
            vstd::set_lib::set_int_range(1, 16),
        );
        assert(false);
    }
}

/// Exchanging two cells preserves the board invariant: the multiset of
/// cell values is unchanged.
pub proof fn lemma_swap_preserves_wf(s: Seq<Option<u8>>, i: int, j: int)
    requires
        wf_cells(s),
        0 <= i < 16,
        0 <= j < 16,
    ensures
        wf_cells(swap_cells(s, i, j)),
{
    let t = swap_cells(s, i, j);
    assert forall|k: int, l: int| 0 <= k < 16 && 0 <= l < 16 && k != l implies s[k] != s[l] by {
        if k < l {
            assert(s[k] != s[l]);
        } else {
            assert(s[l] != s[k]);
        }
    }
    let e = choose|e: int| 0 <= e < 16 && s[e] is None;
    if e == i {
        assert(t[j] is None);
    } else if e == j {
        assert(t[i] is None);
    } else {
        assert(t[e] is None);
    }
}

/// A legal move keeps the board well formed: it only exchanges the empty
/// slot with a neighbouring tile. All boards reachable from a well-formed
/// board therefore satisfy the invariant.
pub proof fn lemma_move_preserves_wf(s: Seq<Option<u8>>, m: Move)
    requires
        wf_cells(s),
    ensures
        spec_move_cells(s, m) matches Some(t) ==> wf_cells(t),
{
    lemma_first_empty_props(s, 0);
    if spec_move_cells(s, m) is Some {
        let i = first_empty(s)->0;
        match m {
            Move::LeftToRight => lemma_swap_preserves_wf(s, i, i - 4),
            Move::RightToLeft => lemma_swap_preserves_wf(s, i, i + 4),
            Move::TopToBottom => lemma_swap_preserves_wf(s, i, i - 1),
            Move::BottomToTop => lemma_swap_preserves_wf(s, i, i + 1),
        }
    }
}

/// Applying any move sequence to a well-formed board, illegal moves
/// skipped, yields a well-formed board: the invariant holds of every
/// reachable board.
pub proof fn lemma_reachable_wf(s: Seq<Option<u8>>, ms: Seq<Move>)
    requires
        wf_cells(s),
    ensures
        wf_cells(spec_apply_moves(s, ms)),
    decreases ms.len(),
{
    if ms.len() > 0 {
        lemma_reachable_wf(s, ms.drop_last());
        lemma_move_preserves_wf(spec_apply_moves(s, ms.drop_last()), ms.last());
    }
}

/// A move whose boundary condition the empty slot already violates is
/// illegal: with the empty slot in column 0 a `LeftToRight` fails, in
/// column 3 a `RightToLeft`, in row 0 a `TopToBottom`, in row 3 a
/// `BottomToTop`.
pub proof fn lemma_move_blocked_at_boundary(s: Seq<Option<u8>>, m: Move)
    requires
        wf_cells(s),
        first_empty(s) matches Some(i) && match m {
            Move::LeftToRight => i / 4 == 0,
            Move::RightToLeft => i / 4 == 3,
            Move::TopToBottom => i % 4 == 0,
            Move::BottomToTop => i % 4 == 3,
        },
    ensures
        spec_move_cells(s, m) is None,
{
}

/// Where `first_empty_from` finds an empty cell, and what it means when it
/// finds none.
pub proof fn lemma_first_empty_props(s: Seq<Option<u8>>, k: int)
    requires
        0 <= k <= s.len(),
    ensures
        first_empty_from(s, k) matches Some(i) ==> k <= i < s.len() && s[i] is None && (forall|
            j: int,
        |
            k <= j < i ==> (#[trigger] s[j]) is Some),
        first_empty_from(s, k) is None ==> forall|j: int|
            k <= j < s.len() ==> (#[trigger] s[j]) is Some,
    decreases s.len() - k,
{
    if k < s.len() && !(s[k] is None) {
        lemma_first_empty_props(s, k + 1);
    }
}

/// Holds information about which tile is in which position.
/// Compact (16 bytes) and cheap to copy.
#[derive(Debug, Clone, Copy, Hash)]
pub struct GameState {
    pub(crate) board: [Option<u8>; 16],
}

impl View for GameState {
    type V = Seq<Option<u8>>;

    closed spec fn view(&self) -> Seq<Option<u8>> {
        self.board@
    }
}

/// Every board holds exactly 16 cells.
pub broadcast proof fn lemma_board_len(g: GameState)
    ensures
        (#[trigger] g@).len() == 16,
{
}

/// Creates the default position of tiles, starting with 1 in the top left
/// corner.
impl Default for GameState {
    fn default() -> (r: Self)
        ensures
            r@ == default_cells(),
            r.wf(),
    {
        let r = GameState {
            board: [
                Some(1), Some(5), Some(9), Some(13),
                Some(2), Some(6), Some(10), Some(14),
                Some(3), Some(7), Some(11), Some(15),
                Some(4), Some(8), Some(12), None,
            ],
        };
        proof {
            assert(r@ =~= default_cells());
            lemma_default_cells_wf();
        }
        r
    }
}

/// The canonical default board is well formed: its tiles are 1..=15, each
/// placed once, with the single empty slot at (3, 3).
pub proof fn lemma_default_cells_wf()
    ensures
        wf_cells(default_cells()),
        forall|k: int|
            1 <= k <= 15 ==> #[trigger] default_cells()[((k - 1) % 4) * 4 + (k - 1) / 4] == Some(
                k as u8,
            ),
        default_cells()[15int] is None,
{
    let d = default_cells();
    assert(d[0] == Some(1u8));
    assert(d[4] == Some(2u8));
    assert(d[8] == Some(3u8));
    assert(d[12] == Some(4u8));
    assert(d[1] == Some(5u8));
    assert(d[5] == Some(6u8));
    assert(d[9] == Some(7u8));
    assert(d[13] == Some(8u8));
    assert(d[2] == Some(9u8));
    assert(d[6] == Some(10u8));
    assert(d[10] == Some(11u8));
    assert(d[14] == Some(12u8));
    assert(d[3] == Some(13u8));
    assert(d[7] == Some(14u8));
    assert(d[11] == Some(15u8));
    assert(d[15] is None);
    assert forall|k: int| 1 <= k <= 15 implies #[trigger] default_cells()[((k - 1) % 4) * 4 + (k
        - 1) / 4] == Some(k as u8) by {
        assert(k == 1 || k == 2 || k == 3 || k == 4 || k == 5 || k == 6 || k == 7 || k == 8
            || k == 9 || k == 10 || k == 11 || k == 12 || k == 13 || k == 14 || k == 15);
    }
}

/// Checks whether two game states are the same, cell by cell.
impl PartialEq for GameState {
    fn eq(&self, other: &Self) -> (r: bool) {
        let mut i: usize = 0;
        while i < 16
            invariant
                i <= 16,
                forall|j: int| 0 <= j < i ==> self@[j] == other@[j],
            decreases 16 - i,
        {
            let same = match (self.board[i], other.board[i]) {
                (None, None) => true,
                (Some(a), Some(b)) => a == b,
                _ => false,
            };
            if !same {
                return false;
            }
            i += 1;
        }
        proof {
            assert(self@ =~= other@);
        }
        true
    }
}

impl Eq for GameState {}

impl vstd::std_specs::cmp::PartialEqSpecImpl for GameState {
    open spec fn obeys_eq_spec() -> bool {
        true
    }

    open spec fn eq_spec(&self, other: &Self) -> bool {
        self@ == other@
    }
}

impl GameState {
    /// The board invariant: every tile in 1..=15, no tile twice, exactly
    /// one empty slot.
    pub open spec fn wf(self) -> bool {
        wf_cells(self@)
    }

    /// Wraps a flat array of 16 cells, cell (x, y) at index `x * 4 + y`,
    /// as a board.
    pub(crate) fn from_board(board: [Option<u8>; 16]) -> (r: GameState)
        ensures
            r@ == board@,
    {
        GameState { board }
    }

    /// Updates a position with a new tile.
    pub fn set(&mut self, x: u8, y: u8, tile: Option<u8>)
        requires
            x < 4,
            y < 4,
        ensures
            final(self)@ == old(self)@.update(x as int * 4 + y as int, tile),
    {
        self.board[(x as usize) * 4 + (y as usize)] = tile;
    }

    /// Returns the tile at position x,y.
    pub fn get(&self, x: u8, y: u8) -> (r: Option<u8>)
        requires
            x < 4,
            y < 4,
        ensures
            r == self@[x as int * 4 + y as int],
    {
        self.board[(x as usize) * 4 + (y as usize)]
    }

    /// Swaps the tile from (x1,y1) with the tile from (x2,y2).
    pub fn swap(&mut self, x1: u8, y1: u8, x2: u8, y2: u8)
        requires
            x1 < 4,
            y1 < 4,
            x2 < 4,
            y2 < 4,
        ensures
            final(self)@ == swap_cells(
                old(self)@,
                x1 as int * 4 + y1 as int,
                x2 as int * 4 + y2 as int,
            ),
    {
        let i: usize = (x1 as usize) * 4 + (y1 as usize);
        let j: usize = (x2 as usize) * 4 + (y2 as usize);
        let a = self.board[i];
        let b = self.board[j];
        self.board[i] = b;
        self.board[j] = a;
    }

    /// Returns false if there is a duplicate or out-of-range tile in this
    /// game state, or no empty slot; true exactly on well-formed boards.
    pub fn all_tiles_unique(&self) -> (r: bool)
        ensures
            r == self.wf(),
    {
        let mut seen: [bool; 16] = [false; 16];
        let mut i: usize = 0;
        while i < 16
            invariant
                i <= 16,
                forall|k: int|
                    0 <= k < 16 ==> (seen@[k] <==> exists|j: int|
                        0 <= j < i && cell_slot(#[trigger] self@[j]) == k),
                forall|j: int| 0 <= j < i ==> tile_ok(#[trigger] self@[j]),
                forall|j1: int, j2: int| 0 <= j1 < j2 < i ==> self@[j1] != self@[j2],
            decreases 16 - i,
        {
            let slot: usize = match self.board[i] {
                None => 0,
                Some(v) => {
                    if v < 1 || v > 15 {
                        return false;
                    }
                    v as usize
                },
            };
            if seen[slot] {
                proof {
                    let j = choose|j: int| 0 <= j < i && cell_slot(self@[j]) == slot as int;
                    assert(self@[j] == self@[i as int]);
                }
                return false;
            }
            seen[slot] = true;
            i += 1;
        }
        proof {
            lemma_full_grid_has_empty(self@);
        }
        true
    }

    /// The coordinates of the first empty cell in scan order — on a
    /// well-formed board, the unique empty slot. Returns None if the board
    /// has no empty cell at all.
    pub(crate) fn find_empty_tile(&self) -> (r: Option<(u8, u8)>)
        ensures
            first_empty(self@) is None ==> r is None,
            first_empty(self@) matches Some(i) ==> r == Some(((i / 4) as u8, (i % 4) as u8)),
    {
        let mut i: usize = 0;
        while i < 16
            invariant
                i <= 16,
                first_empty(self@) == first_empty_from(self@, i as int),
            decreases 16 - i,
        {
            if self.board[i].is_none() {
                return Some(((i / 4) as u8, (i % 4) as u8));
            }
            i += 1;
        }
        None
    }

    /// Updates the state to reflect the move that was performed. Returns
    /// false, leaving the state unchanged, if the move was not possible:
    /// the empty slot already sits at the boundary the move would cross,
    /// or the board has no empty slot. A well-formed board stays well
    /// formed.
    pub fn perform_move(&mut self, m: Move) -> (r: bool)
        ensures
            r == (spec_move_cells(old(self)@, m) is Some),
            spec_move_cells(old(self)@, m) matches Some(t) ==> final(self)@ == t,
            spec_move_cells(old(self)@, m) is None ==> final(self)@ == old(self)@,
            old(self).wf() ==> final(self).wf(),
    {
        proof {
            lemma_first_empty_props(self@, 0);
            if old(self).wf() {
                lemma_move_preserves_wf(old(self)@, m);
            }
        }
        let (col, row) = match self.find_empty_tile() {
            Some(p) => p,
            None => {
                return false;
            },
        };
        match m {
            Move::LeftToRight => {
                if col == 0 {
                    return false;
                }
                self.swap(col, row, col - 1, row);
                true
            },
            Move::RightToLeft => {
                if col == 3 {
                    return false;
                }
                self.swap(col, row, col + 1, row);
                true
            },
            Move::TopToBottom => {
                if row == 0 {
                    return false;
                }
                self.swap(col, row, col, row - 1);
                true
            },
            Move::BottomToTop => {
                if row == 3 {
                    return false;
                }
                self.swap(col, row, col, row + 1);
                true
            },
        }
    }

    /// Performs a series of moves in order against the mutating state;
    /// illegal moves are silently skipped, the sequence is not aborted.
    /// Returns the number of moves that were successful.
    pub fn perform_moves(&mut self, moves: &[Move]) -> (r: usize)
        ensures
            final(self)@ == spec_apply_moves(old(self)@, moves@),
            r == spec_count_moves(old(self)@, moves@),
            old(self).wf() ==> final(self).wf(),
    {
        let mut count: usize = 0;
        let mut k: usize = 0;
        while k < moves.len()
            invariant
                k <= moves@.len(),
                self@ == spec_apply_moves(old(self)@, moves@.take(k as int)),
                count == spec_count_moves(old(self)@, moves@.take(k as int)),
                count <= k,
                old(self).wf() ==> self.wf(),
            decreases moves@.len() - k,
        {
            let m = moves[k];
            proof {
                assert(moves@.take(k as int + 1).drop_last() =~= moves@.take(k as int));
                assert(moves@.take(k as int + 1).last() == moves@[k as int]);
                if self.wf() {
                    lemma_move_preserves_wf(self@, m);
                }
            }
            if self.perform_move(m) {
                count += 1;
            }
            k += 1;
        }
        proof {
            assert(moves@.take(moves@.len() as int) =~= moves@);
        }
        count
    }
}

} // verus!
