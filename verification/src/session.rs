//! The game session: the board, the per-cell display states, the game
//! phase and the last-step memory, together with the reveal/mark/reset
//! state machine that drives them.

use vstd::prelude::*;

use crate::GameError;
use crate::arith::{lemma_index_bound, lemma_index_decompose, lemma_index_injective, lemma_mul_le};
use crate::board::{Board, adjacent, b2i};
use crate::cells::{CellState, flagged_flag, hidden_flag, is_unrevealed, toggled, unrevealed_flag};
use crate::counting::{
    count_where, lemma_count_where_bounds, lemma_count_where_full, lemma_count_where_prefix_step,
    lemma_count_where_update,
};
use crate::options::BoardOptions;

verus! {

/// Which part of a game the session is in.  A session starts `InProgress`;
/// `Lost` and `Won` are left only through a reset.
#[derive(Clone, Copy, Debug, PartialEq, Eq, Structural)]
pub enum GamePhase {
    InProgress,
    Lost,
    Won,
}

/// The most recently processed reveal coordinate, and whether a loss from
/// it is still pending confirmation (the forgiving first click).
#[derive(Clone, Copy, Debug)]
pub struct LastStep {
    pub coord: Option<(u32, u32)>,
    pub uncover: bool,
}

impl LastStep {
    /// Forgets the recorded step and clears the pending-loss flag.
    pub fn reset(&mut self)
        ensures
            final(self).coord is None,
            !final(self).uncover,
    {
        self.coord = None;
        self.uncover = false;
    }
}

/// The two logical input events the presentation layer translates raw
/// input into: a left-click-equivalent uncover and a right-click
/// -equivalent mark toggle.
#[derive(Clone, Copy, Debug, PartialEq, Eq)]
pub enum InputEvent {
    Uncover((u32, u32)),
    ToggleMark((u32, u32)),
}

/// One game in play: the aggregate the input events and the reset
/// request mutate, and the presentation layer reads.
#[derive(Debug)]
pub struct GameSession {
    pub board: Board,
    pub cells: Vec<CellState>,
    pub phase: GamePhase,
    pub last_step: LastStep,
}

impl GameSession {
    /// The display state of the cell at `(x, y)`.
    pub open spec fn cell_at(self, x: int, y: int) -> CellState {
        self.cells@[self.board.index_of(x, y)]
    }

    /// The board is well formed and the cell table covers it exactly.
    pub open spec fn dims_ok(self) -> bool {
        &&& self.board.wf()
        &&& self.cells@.len() == self.board.width * self.board.height
    }

    /// Every revealed cell is safe and shows its true neighbor mine count.
    pub open spec fn cells_ok(self) -> bool {
        forall|x: int, y: int|
            #![trigger self.cell_at(x, y)]
            self.board.in_bounds(x, y) ==> (self.cell_at(x, y) matches CellState::Revealed(n)
                ==> !self.board.mine_at(x, y) && n as int == self.board.neighbor_mines(x, y))
    }

    /// The session invariant: constructors establish it, every operation
    /// preserves it.
    pub open spec fn wf(self) -> bool {
        &&& self.dims_ok()
        &&& self.cells_ok()
    }

    /// Every cell still shows its initial hidden state.
    pub open spec fn is_all_hidden(self) -> bool {
        forall|i: int| 0 <= i < self.cells@.len() ==> self.cells@[i] is Hidden
    }

    /// Whether the cell at `(x, y)` lies on the board and carries a flag.
    pub open spec fn flagged_at(self, x: int, y: int) -> bool {
        self.board.in_bounds(x, y) && self.cell_at(x, y) is Flagged
    }

    /// How many of the up to eight neighbors of `(x, y)` carry a flag, in
    /// the same compass order the board's neighbor count uses.
    pub open spec fn flag_nbrs(self, x: int, y: int) -> int {
        b2i(self.flagged_at(x - 1, y + 1)) + b2i(self.flagged_at(x, y + 1)) + b2i(
            self.flagged_at(x + 1, y + 1),
        ) + b2i(self.flagged_at(x + 1, y)) + b2i(self.flagged_at(x + 1, y - 1)) + b2i(
            self.flagged_at(x, y - 1),
        ) + b2i(self.flagged_at(x - 1, y - 1)) + b2i(self.flagged_at(x - 1, y))
    }

    /// How many cells are still unrevealed (hidden or flagged); the win
    /// check compares this against the mine count.
    pub open spec fn unrevealed_cells(self) -> int {
        count_where(self.cells@, unrevealed_flag())
    }

    /// Whether a loss from a first click still awaits its confirmation,
    /// so that a reset must replay the recorded coordinate.
    pub open spec fn pending_replay(self) -> bool {
        self.last_step.uncover && self.last_step.coord is Some
    }

    /// The coordinate a pending first-click loss is replayed at.
    pub open spec fn replay_coord(self) -> (u32, u32) {
        match self.last_step.coord {
            Some(c) => c,
            None => (0, 0),
        }
    }

    /// The row-major position of the in-bounds coordinate `(x, y)` in the
    /// cell table.
    fn cell_index(&self, x: u32, y: u32) -> (i: usize)
        requires
            self.dims_ok(),
            self.board.in_bounds(x as int, y as int),
        ensures
            i == self.board.index_of(x as int, y as int),
            i < self.cells@.len(),
    {
        proof {
            lemma_index_bound(x as int, y as int, self.board.width as int, self.board.height as int);
            lemma_mul_le(y as int, self.board.width as int, u32::MAX as int, u32::MAX as int);
        }
        ((y as u64) * (self.board.width as u64) + (x as u64)) as usize
    }

    /// Reads the cell at the in-bounds coordinate `(x, y)`.
    fn cell_get(&self, x: u32, y: u32) -> (c: CellState)
        requires
            self.dims_ok(),
            self.board.in_bounds(x as int, y as int),
        ensures
            c == self.cell_at(x as int, y as int),
    {
        let i = self.cell_index(x, y);
        self.cells[i]
    }

    /// Overwrites the cell at the in-bounds coordinate `(x, y)`, leaving
    /// every other part of the session alone.
    fn cell_set(&mut self, x: u32, y: u32, v: CellState)
        requires
            old(self).dims_ok(),
            old(self).board.in_bounds(x as int, y as int),
        ensures
            final(self).board == old(self).board,
            final(self).phase == old(self).phase,
            final(self).last_step == old(self).last_step,
            final(self).cells@.len() == old(self).cells@.len(),
            final(self).cells@ == old(self).cells@.update(
                old(self).board.index_of(x as int, y as int),
                v,
            ),
            final(self).cell_at(x as int, y as int) == v,
            forall|a: int, b: int|
                #![trigger final(self).cell_at(a, b)]
                old(self).board.in_bounds(a, b) && !(a == x && b == y) ==> final(self).cell_at(
                    a,
                    b,
                ) == old(self).cell_at(a, b),
    {
        let ghost pre = *self;
        let i = self.cell_index(x, y);
        self.cells.set(i, v);
        proof {
            assert forall|a: int, b: int|
                pre.board.in_bounds(a, b) && !(a == x && b == y) implies self.cell_at(a, b)
                == pre.cell_at(a, b) by {
                lemma_index_bound(a, b, pre.board.width as int, pre.board.height as int);
                lemma_index_injective(pre.board.width as int, a, b, x as int, y as int);
            }
        }
    }

    /// A cell table of `n` hidden cells.
    fn hidden_cells(n: usize) -> (v: Vec<CellState>)
        ensures
            v@.len() == n,
            forall|i: int| 0 <= i < n ==> v@[i] is Hidden,
    {
        let mut v: Vec<CellState> = Vec::new();
        let mut i: usize = 0;
        while i < n
            invariant
                i <= n,
                v@.len() == i,
                forall|j: int| 0 <= j < i ==> v@[j] is Hidden,
            decreases n - i,
        {
            v.push(CellState::Hidden);
            i += 1;
        }
        v
    }

    /// Wraps a board into a fresh session: every cell hidden, the game in
    /// progress, no step recorded.  This is how a caller starts a game on
    /// a board whose mine layout it pinned down itself.
    pub fn with_board(board: Board) -> (s: GameSession)
        requires
            board.wf(),
        ensures
            s.wf(),
            s.board == board,
            s.is_all_hidden(),
            s.phase is InProgress,
            s.last_step.coord is None,
            !s.last_step.uncover,
    {
        proof {
            lemma_mul_le(board.width as int, board.height as int, u32::MAX as int, u32::MAX as int);
        }
        let area = ((board.width as u64) * (board.height as u64)) as usize;
        let cells = Self::hidden_cells(area);
        let s = GameSession {
            board,
            cells,
            phase: GamePhase::InProgress,
            last_step: LastStep { coord: None, uncover: false },
        };
        proof {
            assert forall|x: int, y: int| s.board.in_bounds(x, y) implies !(s.cell_at(x, y)
                matches CellState::Revealed(n)) by {
                lemma_index_bound(x, y, s.board.width as int, s.board.height as int);
            }
        }
        s
    }

    /// Starts a fresh session on a randomly generated board drawn from
    /// `options`; impossible parameters are rejected.
    pub fn new(options: &BoardOptions) -> (r: Result<GameSession, GameError>)
        ensures
            match r {
                Ok(s) => {
                    &&& options.valid()
                    &&& s.wf()
                    &&& s.board.width == options.width
                    &&& s.board.height == options.height
                    &&& s.board.bomb_count == options.bomb_count
                    &&& s.is_all_hidden()
                    &&& s.phase is InProgress
                    &&& s.last_step.coord is None
                    &&& !s.last_step.uncover
                },
                Err(e) => {
                    &&& e == GameError::InvalidParameters
                    &&& !options.valid()
                },
            },
    {
        match Board::generate(options) {
            Ok(b) => Ok(Self::with_board(b)),
            Err(e) => Err(e),
        }
    }

    /// How many cells are still unrevealed (hidden or flagged), the
    /// quantity the win check compares against the mine count.
    pub fn count_unrevealed(&self) -> (n: u64)
        requires
            self.dims_ok(),
        ensures
            n == self.unrevealed_cells(),
    {
        let ghost p = unrevealed_flag();
        let mut n: u64 = 0;
        let mut i: usize = 0;
        while i < self.cells.len()
            invariant
                i <= self.cells@.len(),
                n == count_where(self.cells@.subrange(0, i as int), p),
                n <= i,
                p == unrevealed_flag(),
            decreases self.cells@.len() - i,
        {
            proof {
                lemma_count_where_prefix_step(self.cells@, p, i as int);
            }
            let c = self.cells[i];
            if matches!(c, CellState::Hidden | CellState::Flagged) {
                n += 1;
            }
            i += 1;
        }
        proof {
            lemma_count_where_full(self.cells@, p);
        }
        n
    }

    /// How many cells carry a flag; the presentation layer shows
    /// `bomb_count` minus this.
    pub fn flagged_count(&self) -> (n: u64)
        requires
            self.dims_ok(),
        ensures
            n == count_where(self.cells@, flagged_flag()),
    {
        let ghost p = flagged_flag();
        let mut n: u64 = 0;
        let mut i: usize = 0;
        while i < self.cells.len()
            invariant
                i <= self.cells@.len(),
                n == count_where(self.cells@.subrange(0, i as int), p),
                n <= i,
                p == flagged_flag(),
            decreases self.cells@.len() - i,
        {
            proof {
                lemma_count_where_prefix_step(self.cells@, p, i as int);
            }
            let c = self.cells[i];
            if matches!(c, CellState::Flagged) {
                n += 1;
            }
            i += 1;
        }
        proof {
            lemma_count_where_full(self.cells@, p);
        }
        n
    }

    /// The value the mine counter shows: the mine count less the flags
    /// placed, floored at zero since over-flagging is permitted.
    pub fn remaining_mines(&self) -> (n: u64)
        requires
            self.dims_ok(),
        ensures
            n == if self.board.bomb_count >= count_where(self.cells@, flagged_flag()) {
                self.board.bomb_count - count_where(self.cells@, flagged_flag())
            } else {
                0
            },
    {
        let flagged = self.flagged_count();
        let bombs = self.board.bomb_count as u64;
        if bombs >= flagged {
            bombs - flagged
        } else {
            0
        }
    }

    /// Whether the cell at `(x, y)` carries a flag; `false` off the board.
    fn flag_at(&self, x: u32, y: u32) -> (r: bool)
        requires
            self.dims_ok(),
        ensures
            r == self.flagged_at(x as int, y as int),
    {
        if x < self.board.width && y < self.board.height {
            let c = self.cell_get(x, y);
            matches!(c, CellState::Flagged)
        } else {
            false
        }
    }

    /// How many of the up to eight neighbors of the in-bounds coordinate
    /// `(x, y)` carry a flag.
    fn flagged_neighbor_count(&self, x: u32, y: u32) -> (n: u32)
        requires
            self.dims_ok(),
            self.board.in_bounds(x as int, y as int),
        ensures
            n == self.flag_nbrs(x as int, y as int),
            n <= 8,
    {
        let mut n: u32 = 0;
        if x > 0 && self.flag_at(x - 1, y + 1) {
            n += 1;
        }
        if self.flag_at(x, y + 1) {
            n += 1;
        }
        if self.flag_at(x + 1, y + 1) {
            n += 1;
        }
        if self.flag_at(x + 1, y) {
            n += 1;
        }
        if y > 0 && self.flag_at(x + 1, y - 1) {
            n += 1;
        }
        if y > 0 && self.flag_at(x, y - 1) {
            n += 1;
        }
        if x > 0 && y > 0 && self.flag_at(x - 1, y - 1) {
            n += 1;
        }
        if x > 0 && self.flag_at(x - 1, y) {
            n += 1;
        }
        n
    }

    /// The loss reveal: every still-hidden mine becomes `RevealedMine`,
    /// the detonated one `DetonatedMine`, and the phase turns `Lost`.
    fn apply_loss(&mut self, mx: u32, my: u32)
        requires
            old(self).wf(),
            old(self).board.in_bounds(mx as int, my as int),
            old(self).board.mine_at(mx as int, my as int),
        ensures
            final(self).wf(),
            final(self).board == old(self).board,
            final(self).last_step == old(self).last_step,
            final(self).phase is Lost,
            final(self).cells@.len() == old(self).cells@.len(),
            forall|x: int, y: int|
                #![trigger final(self).cell_at(x, y)]
                old(self).board.in_bounds(x, y) ==> final(self).cell_at(x, y) == loss_cell(
                    *old(self),
                    mx as int,
                    my as int,
                    x,
                    y,
                ),
    {
        let ghost pre = *self;
        self.phase = GamePhase::Lost;
        let w = self.board.width;
        let h = self.board.height;
        let mut y: u32 = 0;
        while y < h
            invariant
                pre.wf(),
                self.board == pre.board,
                self.last_step == pre.last_step,
                self.phase is Lost,
                self.dims_ok(),
                self.cells@.len() == pre.cells@.len(),
                w == pre.board.width,
                h == pre.board.height,
                y <= h,
                forall|a: int, b: int|
                    #![trigger self.cell_at(a, b)]
                    pre.board.in_bounds(a, b) ==> self.cell_at(a, b) == if b < y {
                        loss_cell(pre, mx as int, my as int, a, b)
                    } else {
                        pre.cell_at(a, b)
                    },
            decreases h - y,
        {
            let mut x: u32 = 0;
            while x < w
                invariant
                    pre.wf(),
                    self.board == pre.board,
                    self.last_step == pre.last_step,
                    self.phase is Lost,
                    self.dims_ok(),
                    self.cells@.len() == pre.cells@.len(),
                    w == pre.board.width,
                    h == pre.board.height,
                    x <= w,
                    y < h,
                    forall|a: int, b: int|
                        #![trigger self.cell_at(a, b)]
                        pre.board.in_bounds(a, b) ==> self.cell_at(a, b) == if b < y || (b == y && a
                            < x) {
                            loss_cell(pre, mx as int, my as int, a, b)
                        } else {
                            pre.cell_at(a, b)
                        },
                decreases w - x,
            {
                let cur = self.cell_get(x, y);
                if x == mx && y == my {
                    self.cell_set(x, y, CellState::DetonatedMine);
                } else if self.board.is_bomb_at((x, y)) && matches!(cur, CellState::Hidden) {
                    self.cell_set(x, y, CellState::RevealedMine);
                }
                x += 1;
            }
            y += 1;
        }
        proof {
            assert forall|x: int, y: int|
                self.board.in_bounds(x, y) implies (self.cell_at(x, y)
                matches CellState::Revealed(n) ==> !self.board.mine_at(x, y) && n as int
                == self.board.neighbor_mines(x, y)) by {
                assert(self.cell_at(x, y) == loss_cell(pre, mx as int, my as int, x, y));
                assert(pre.cell_at(x, y) matches CellState::Revealed(m) ==> !pre.board.mine_at(x, y)
                    && m as int == pre.board.neighbor_mines(x, y));
            }
        }
    }

    /// The win side effect: every still-hidden cell becomes flagged and
    /// the phase turns `Won`.  The unrevealed count is untouched.
    fn apply_win(&mut self)
        requires
            old(self).wf(),
        ensures
            final(self).wf(),
            final(self).board == old(self).board,
            final(self).last_step == old(self).last_step,
            final(self).phase is Won,
            final(self).cells@.len() == old(self).cells@.len(),
            forall|x: int, y: int|
                #![trigger final(self).cell_at(x, y)]
                old(self).board.in_bounds(x, y) ==> final(self).cell_at(x, y) == win_cell(
                    *old(self),
                    x,
                    y,
                ),
            final(self).unrevealed_cells() == old(self).unrevealed_cells(),
            forall|i: int| 0 <= i < final(self).cells@.len() ==> !(final(self).cells@[i] is Hidden),
    {
        let ghost pre = *self;
        self.phase = GamePhase::Won;
        let w = self.board.width;
        let h = self.board.height;
        let mut y: u32 = 0;
        while y < h
            invariant
                pre.wf(),
                self.board == pre.board,
                self.last_step == pre.last_step,
                self.phase is Won,
                self.dims_ok(),
                self.cells@.len() == pre.cells@.len(),
                w == pre.board.width,
                h == pre.board.height,
                y <= h,
                forall|a: int, b: int|
                    #![trigger self.cell_at(a, b)]
                    pre.board.in_bounds(a, b) ==> self.cell_at(a, b) == if b < y {
                        win_cell(pre, a, b)
                    } else {
                        pre.cell_at(a, b)
                    },
            decreases h - y,
        {
            let mut x: u32 = 0;
            while x < w
                invariant
                    pre.wf(),
                    self.board == pre.board,
                    self.last_step == pre.last_step,
                    self.phase is Won,
                    self.dims_ok(),
                    self.cells@.len() == pre.cells@.len(),
                    w == pre.board.width,
                    h == pre.board.height,
                    x <= w,
                    y < h,
                    forall|a: int, b: int|
                        #![trigger self.cell_at(a, b)]
                        pre.board.in_bounds(a, b) ==> self.cell_at(a, b) == if b < y || (b == y && a
                            < x) {
                            win_cell(pre, a, b)
                        } else {
                            pre.cell_at(a, b)
                        },
                decreases w - x,
            {
                let cur = self.cell_get(x, y);
                if matches!(cur, CellState::Hidden) {
                    self.cell_set(x, y, CellState::Flagged);
                }
                x += 1;
            }
            y += 1;
        }
        proof {
            let wi = pre.board.width as int;
            let hi = pre.board.height as int;
            assert forall|i: int| 0 <= i < self.cells@.len() implies !(#[trigger] self.cells@[i]
                is Hidden) by {
                lemma_index_decompose(wi, hi, i);
                let x = i % wi;
                let y = i / wi;
                assert(pre.board.in_bounds(x, y));
                assert(pre.board.index_of(x, y) == i);
                assert(self.cell_at(x, y) == win_cell(pre, x, y));
            }
            assert forall|i: int|
                0 <= i < self.cells@.len() implies is_unrevealed(#[trigger] self.cells@[i])
                == is_unrevealed(pre.cells@[i]) by {
                lemma_index_decompose(wi, hi, i);
                let x = i % wi;
                let y = i / wi;
                assert(pre.board.in_bounds(x, y));
                assert(pre.board.index_of(x, y) == i);
                assert(self.cell_at(x, y) == win_cell(pre, x, y));
            }
            assert(self.unrevealed_cells() == pre.unrevealed_cells()) by {
                crate::counting::lemma_count_where_pointwise(
                    self.cells@,
                    pre.cells@,
                    unrevealed_flag(),
                );
            }
            assert forall|x: int, y: int|
                self.board.in_bounds(x, y) implies (self.cell_at(x, y)
                matches CellState::Revealed(n) ==> !self.board.mine_at(x, y) && n as int
                == self.board.neighbor_mines(x, y)) by {
                assert(self.cell_at(x, y) == win_cell(pre, x, y));
                assert(pre.cell_at(x, y) matches CellState::Revealed(m) ==> !pre.board.mine_at(x, y)
                    && m as int == pre.board.neighbor_mines(x, y));
            }
        }
    }

    /// Appends every hidden in-bounds neighbor of `(x, y)` to the work
    /// queue, and misses none of them.
    fn enqueue_hidden_neighbors(&self, x: u32, y: u32, queue: &mut Vec<(u32, u32)>)
        requires
            self.dims_ok(),
            self.board.in_bounds(x as int, y as int),
        ensures
            final(queue)@.len() >= old(queue)@.len(),
            forall|k: int| 0 <= k < old(queue)@.len() ==> final(queue)@[k] == old(queue)@[k],
            forall|k: int|
                old(queue)@.len() <= k < final(queue)@.len() ==> {
                    let q = #[trigger] final(queue)@[k];
                    &&& self.board.in_bounds(q.0 as int, q.1 as int)
                    &&& self.cell_at(q.0 as int, q.1 as int) is Hidden
                    &&& adjacent(x as int, y as int, q.0 as int, q.1 as int)
                },
            forall|a: int, b: int|
                #![trigger adjacent(x as int, y as int, a, b)]
                adjacent(x as int, y as int, a, b) && self.board.in_bounds(a, b) && self.cell_at(
                    a,
                    b,
                ) is Hidden ==> exists|k: int|
                    old(queue)@.len() <= k < final(queue)@.len() && final(queue)@[k] == (
                    a as u32,
                    b as u32,
                ),
    {
        let ghost q0 = queue@;
        let nbrs = self.board.safe_square_at((x, y));
        let mut j: usize = 0;
        while j < nbrs.len()
            invariant
                self.dims_ok(),
                self.board.in_bounds(x as int, y as int),
                nbrs@ == self.board.neighbor_list(x as int, y as int),
                j <= nbrs@.len(),
                queue@.len() >= q0.len(),
                forall|k: int| 0 <= k < q0.len() ==> queue@[k] == q0[k],
                forall|k: int|
                    q0.len() <= k < queue@.len() ==> {
                        let q = #[trigger] queue@[k];
                        &&& self.board.in_bounds(q.0 as int, q.1 as int)
                        &&& self.cell_at(q.0 as int, q.1 as int) is Hidden
                        &&& adjacent(x as int, y as int, q.0 as int, q.1 as int)
                    },
                forall|jj: int|
                    0 <= jj < j ==> (self.cell_at(
                        (#[trigger] nbrs@[jj]).0 as int,
                        nbrs@[jj].1 as int,
                    ) is Hidden ==> exists|k: int|
                        q0.len() <= k < queue@.len() && queue@[k] == nbrs@[jj]),
            decreases nbrs@.len() - j,
        {
            proof {
                self.board.lemma_neighbor_list_sound(x as int, y as int);
            }
            let ghost qb = queue@;
            let p = nbrs[j];
            let c = self.cell_get(p.0, p.1);
            if matches!(c, CellState::Hidden) {
                queue.push(p);
                proof {
                    assert(queue@[qb.len() as int] == p);
                    assert(forall|k: int| 0 <= k < qb.len() ==> queue@[k] == qb[k]);
                }
            }
            j += 1;
        }
        proof {
            assert forall|a: int, b: int|
                adjacent(x as int, y as int, a, b) && self.board.in_bounds(a, b) && self.cell_at(
                    a,
                    b,
                ) is Hidden implies exists|k: int|
                q0.len() <= k < queue@.len() && queue@[k] == (a as u32, b as u32) by {
                self.board.lemma_neighbor_list_complete(x as int, y as int, a, b);
                let jj = choose|jj: int|
                    0 <= jj < nbrs@.len() && nbrs@[jj] == (a as u32, b as u32);
                assert(self.cell_at(nbrs@[jj].0 as int, nbrs@[jj].1 as int) is Hidden);
            }
        }
    }

    /// Processes a reveal of `coord`, as `uncover_post` states it: the
    /// first-click-forgiveness and mine checks, then the cascading reveal
    /// run to a fixed point with a breadth-first work queue, then the win
    /// check.  Ignored outside a game in progress; coordinates off the
    /// board degrade to a no-op.
    #[verifier::rlimit(80)]
    pub fn uncover(&mut self, coord: (u32, u32))
        requires
            old(self).wf(),
        ensures
            final(self).wf(),
            uncover_post(*old(self), *final(self), coord),
    {
        let ghost pre = *self;
        if !(self.phase == GamePhase::InProgress) {
            return ;
        }
        let (x0, y0) = coord;
        if !(x0 < self.board.width && y0 < self.board.height) {
            return ;
        }
        if self.last_step.uncover {
            // a loss is pending confirmation: only its own coordinate may
            // be re-triggered, everything else waits
            match self.last_step.coord {
                Some(c) => {
                    if !(c.0 == x0 && c.1 == y0) {
                        return ;
                    }
                },
                None => (),
            }
        }
        let first = self.last_step.coord.is_none();
        let c0 = self.cell_get(x0, y0);
        if matches!(c0, CellState::Flagged) {
            self.last_step.coord = Some(coord);
            proof {
                lemma_cells_ok_same(pre, *self);
            }
            return ;
        }
        self.last_step.coord = Some(coord);
        proof {
            lemma_cells_ok_same(pre, *self);
        }
        if self.board.is_bomb_at(coord) {
            if first {
                self.last_step.uncover = true;
                proof {
                    lemma_cells_ok_same(pre, *self);
                }
                return ;
            }
            self.apply_loss(x0, y0);
            proof {
                assert forall|x: int, y: int|
                    pre.board.in_bounds(x, y) && pre.board.mine_at(x, y) && !(x == x0 && y
                        == y0) implies self.cell_at(x, y) == (if pre.cell_at(x, y) is Hidden {
                    CellState::RevealedMine
                } else {
                    pre.cell_at(x, y)
                }) by {
                    assert(self.cell_at(x, y) != CellState::DetonatedMine || pre.cell_at(x, y)
                        == CellState::DetonatedMine);
                }
            }
            return ;
        }
        self.last_step.uncover = false;
        proof {
            lemma_cells_ok_same(pre, *self);
        }
        let mut queue: Vec<(u32, u32)> = Vec::new();
        let ghost start: Seq<(int, int)> = seq![(x0 as int, y0 as int)];
        proof {
            assert(cascade_chain(pre, x0 as int, y0 as int, start));
        }
        match c0 {
            CellState::Hidden => {
                queue.push((x0, y0));
                proof {
                    assert(queue@[0] == (x0, y0));
                    assert(cascade_reaches(pre, x0 as int, y0 as int, x0 as int, y0 as int));
                }
            },
            CellState::Revealed(n0) => {
                let f0 = self.flagged_neighbor_count(x0, y0);
                if f0 == n0 as u32 {
                    let s = &*self;
                    s.enqueue_hidden_neighbors(x0, y0, &mut queue);
                    proof {
                        assert(rule_fires(pre, x0 as int, y0 as int)) by {
                            assert(pre.flag_nbrs(x0 as int, y0 as int) == self.flag_nbrs(
                                x0 as int,
                                y0 as int,
                            ));
                            assert(pre.cell_at(x0 as int, y0 as int) matches CellState::Revealed(m)
                                ==> m as int == pre.board.neighbor_mines(x0 as int, y0 as int));
                        }
                        assert forall|k: int| 0 <= k < queue@.len() implies cascade_reaches(
                            pre,
                            x0 as int,
                            y0 as int,
                            (#[trigger] queue@[k]).0 as int,
                            queue@[k].1 as int,
                        ) by {
                            let q = queue@[k];
                            assert(self.cell_at(q.0 as int, q.1 as int) == pre.cell_at(
                                q.0 as int,
                                q.1 as int,
                            ));
                            let two = start.push((q.0 as int, q.1 as int));
                            assert(two[0] == (x0 as int, y0 as int));
                            assert(two[1] == (q.0 as int, q.1 as int));
                            assert(cascade_chain(pre, x0 as int, y0 as int, two));
                            assert(two.last() == (q.0 as int, q.1 as int));
                        }
                    }
                }
            },
            _ => (),
        }
        let mut head: usize = 0;
        while head < queue.len()
            invariant
                pre == *old(self),
                pre.wf(),
                pre.phase is InProgress,
                coord == (x0, y0),
                pre.board.in_bounds(x0 as int, y0 as int),
                !uncover_suppressed(pre, coord),
                !pre.board.mine_at(x0 as int, y0 as int),
                !(pre.cell_at(x0 as int, y0 as int) is Flagged),
                self.board == pre.board,
                self.phase is InProgress,
                self.last_step.coord == Some((x0, y0)),
                !self.last_step.uncover,
                self.dims_ok(),
                self.cells_ok(),
                self.cells@.len() == pre.cells@.len(),
                cells_monotone(pre, *self),
                flags_same(pre, *self),
                head <= queue@.len(),
                queue_ok(pre.board, queue@),
                reveals_reached(pre, *self, x0 as int, y0 as int),
                queue_reached(pre, x0 as int, y0 as int, queue@, head as int),
                cascade_frontier_covered(pre, *self, x0 as int, y0 as int, queue@, head as int),
                pre.cell_at(x0 as int, y0 as int) is Hidden ==> (self.cell_at(
                    x0 as int,
                    y0 as int,
                ) is Revealed || in_pending(queue@, head as int, x0 as int, y0 as int)),
            decreases count_where(self.cells@, hidden_flag()), queue@.len() - head,
        {
            let ghost s_in = *self;
            let ghost q_in = queue@;
            let ghost h_in = head as int;
            let (cx, cy) = queue[head];
            head += 1;
            let cur = self.cell_get(cx, cy);
            if matches!(cur, CellState::Hidden) {
                if self.board.is_bomb_at((cx, cy)) {
                    self.last_step.coord = Some((cx, cy));
                    proof {
                        lemma_cells_ok_same(s_in, *self);
                    }
                    self.apply_loss(cx, cy);
                    proof {
                        let ghost mid = GameSession {
                            last_step: LastStep { coord: Some((cx, cy)), uncover: false },
                            ..s_in
                        };
                        assert forall|x: int, y: int|
                            pre.board.in_bounds(x, y) && pre.board.mine_at(x, y) implies
                        mid.cell_at(x, y) == pre.cell_at(x, y) by {
                            assert(mid.cell_at(x, y) == s_in.cell_at(x, y));
                        }
                        assert(mine_detonated(pre, *self, cx as int, cy as int)) by {
                            assert forall|x: int, y: int|
                                pre.board.in_bounds(x, y) && pre.board.mine_at(x, y) && !(x
                                    == cx && y == cy) implies self.cell_at(x, y) == (if pre.cell_at(
                                x,
                                y,
                            ) is Hidden {
                                CellState::RevealedMine
                            } else {
                                pre.cell_at(x, y)
                            }) by {
                                assert(s_in.cell_at(x, y) == pre.cell_at(x, y));
                                assert(self.cell_at(x, y) == loss_cell(
                                    mid,
                                    cx as int,
                                    cy as int,
                                    x,
                                    y,
                                ));
                            }
                            assert forall|x: int, y: int|
                                pre.board.in_bounds(x, y) && !pre.board.mine_at(
                                    x,
                                    y,
                                ) implies (self.cell_at(x, y) == pre.cell_at(x, y) || (pre.cell_at(
                                x,
                                y,
                            ) is Hidden && self.cell_at(x, y) is Revealed)) by {
                                assert(self.cell_at(x, y) == loss_cell(
                                    mid,
                                    cx as int,
                                    cy as int,
                                    x,
                                    y,
                                ));
                                assert(s_in.cell_at(x, y) == pre.cell_at(x, y) || (pre.cell_at(
                                    x,
                                    y,
                                ) is Hidden && s_in.cell_at(x, y) is Revealed));
                            }
                        }
                    }
                    proof {
                        assert(q_in[h_in] == (cx, cy));
                        assert(cascade_reaches(pre, x0 as int, y0 as int, cx as int, cy as int));
                        assert(chord_loss(pre, *self, x0 as int, y0 as int));
                        let ghost mid = GameSession {
                            last_step: LastStep { coord: Some((cx, cy)), uncover: false },
                            ..s_in
                        };
                        assert forall|a: int, b: int|
                            pre.board.in_bounds(a, b) && pre.cell_at(a, b) is Hidden
                                && self.cell_at(a, b) is Revealed implies cascade_reaches(
                            pre,
                            x0 as int,
                            y0 as int,
                            a,
                            b,
                        ) by {
                            assert(self.cell_at(a, b) == loss_cell(mid, cx as int, cy as int, a, b));
                            assert(s_in.cell_at(a, b) is Revealed);
                        }
                        assert(uncover_post(pre, *self, coord));
                    }
                    return ;
                }
                let n = self.board.bomb_count_at((cx, cy));
                let ghost cb = self.cells@;
                self.cell_set(cx, cy, CellState::Revealed(n as u8));
                proof {
                    lemma_index_bound(
                        cx as int,
                        cy as int,
                        pre.board.width as int,
                        pre.board.height as int,
                    );
                    lemma_count_where_update(
                        cb,
                        hidden_flag(),
                        pre.board.index_of(cx as int, cy as int),
                        CellState::Revealed(n as u8),
                    );
                    lemma_count_where_bounds(self.cells@, hidden_flag());
                    assert forall|x: int, y: int|
                        self.board.in_bounds(x, y) implies (self.cell_at(x, y)
                        matches CellState::Revealed(m) ==> !self.board.mine_at(x, y) && m as int
                        == self.board.neighbor_mines(x, y)) by {
                        if !(x == cx && y == cy) {
                            assert(self.cell_at(x, y) == s_in.cell_at(x, y));
                        }
                    }
                    assert forall|x: int, y: int| #[trigger]
                        self.flagged_at(x, y) == pre.flagged_at(x, y) by {
                        if pre.board.in_bounds(x, y) && !(x == cx && y == cy) {
                            assert(self.cell_at(x, y) == s_in.cell_at(x, y));
                            assert(s_in.flagged_at(x, y) == pre.flagged_at(x, y));
                        }
                    }
                }
                let f = self.flagged_neighbor_count(cx, cy);
                let ghost s_rev = *self;
                let ghost q_rev = queue@;
                if f == n {
                    let s = &*self;
                    s.enqueue_hidden_neighbors(cx, cy, &mut queue);
                }
                proof {
                    assert(self.flag_nbrs(cx as int, cy as int) == pre.flag_nbrs(
                        cx as int,
                        cy as int,
                    ));
                    assert forall|x: int, y: int, a: int, b: int|
                        pre.board.in_bounds(x, y) && cascade_triggered(
                            pre,
                            *self,
                            x0 as int,
                            y0 as int,
                            x,
                            y,
                        ) && pre.flag_nbrs(x, y) == pre.board.neighbor_mines(x, y) && adjacent(
                            x,
                            y,
                            a,
                            b,
                        ) && pre.board.in_bounds(a, b) && self.cell_at(a, b) is Hidden implies
                    in_pending(queue@, head as int, a, b) by {
                        if a == cx && b == cy {
                            assert(self.cell_at(a, b) is Revealed);
                        } else {
                            assert(self.cell_at(a, b) == s_in.cell_at(a, b));
                        }
                        if x == cx && y == cy {
                            assert(f == self.flag_nbrs(cx as int, cy as int));
                            assert(n == pre.board.neighbor_mines(cx as int, cy as int));
                            assert(f == n);
                            assert(exists|k: int|
                                q_rev.len() <= k < queue@.len() && queue@[k] == (
                                a as u32,
                                b as u32,
                                ));
                            let k = choose|k: int|
                                q_rev.len() <= k < queue@.len() && queue@[k] == (
                                a as u32,
                                b as u32,
                                );
                            assert(head as int <= q_in.len() <= q_rev.len());
                            assert(in_pending(queue@, head as int, a, b));
                        } else {
                            assert(cascade_triggered(
                                pre,
                                s_in,
                                x0 as int,
                                y0 as int,
                                x,
                                y,
                            )) by {
                                if !(pre.cell_at(x, y) is Hidden && s_in.cell_at(x, y)
                                    is Revealed) {
                                    assert(self.cell_at(x, y) == s_in.cell_at(x, y));
                                }
                            }
                            assert(s_in.cell_at(a, b) is Hidden);
                            assert(in_pending(q_in, h_in, a, b));
                            let k = choose|k: int|
                                h_in <= k < q_in.len() && q_in[k] == (a as u32, b as u32);
                            assert(q_in[h_in] == (cx, cy));
                            assert(k != h_in);
                            assert(queue@[k] == q_in[k]);
                            assert(in_pending(queue@, head as int, a, b));
                        }
                    }
                    if pre.cell_at(x0 as int, y0 as int) is Hidden {
                        if !(self.cell_at(x0 as int, y0 as int) is Revealed) {
                            assert(self.cell_at(x0 as int, y0 as int) == s_in.cell_at(
                                x0 as int,
                                y0 as int,
                            ));
                            assert(in_pending(q_in, h_in, x0 as int, y0 as int));
                            let k = choose|k: int|
                                h_in <= k < q_in.len() && q_in[k] == (x0, y0);
                            assert(k != h_in);
                            assert(queue@[k] == q_in[k]);
                            assert(in_pending(queue@, head as int, x0 as int, y0 as int));
                        }
                    }
                    assert(q_in[h_in] == (cx, cy));
                    assert(cascade_reaches(pre, x0 as int, y0 as int, cx as int, cy as int));
                    assert forall|k: int|
                        head as int <= k < queue@.len() implies cascade_reaches(
                        pre,
                        x0 as int,
                        y0 as int,
                        (#[trigger] queue@[k]).0 as int,
                        queue@[k].1 as int,
                    ) by {
                        if k < q_in.len() {
                            assert(queue@[k] == q_in[k]);
                        } else {
                            assert(f == n);
                            assert(rule_fires(pre, cx as int, cy as int)) by {
                                assert(f == self.flag_nbrs(cx as int, cy as int));
                                assert(n == pre.board.neighbor_mines(cx as int, cy as int));
                            }
                            let q = queue@[k];
                            assert(self.cell_at(q.0 as int, q.1 as int) is Hidden);
                            assert(pre.cell_at(q.0 as int, q.1 as int) is Hidden);
                            let path = choose|path: Seq<(int, int)>|
                                #[trigger] cascade_chain(pre, x0 as int, y0 as int, path)
                                    && path.last() == (cx as int, cy as int);
                            let ext = path.push((q.0 as int, q.1 as int));
                            assert(cascade_chain(pre, x0 as int, y0 as int, ext)) by {
                                assert(ext[0] == path[0]);
                                assert forall|i: int|
                                    0 <= i < ext.len() - 1 implies rule_fires(
                                    pre,
                                    (#[trigger] ext[i]).0,
                                    ext[i].1,
                                ) by {
                                    assert(ext[i] == path[i]);
                                    if i == path.len() - 1 {
                                        assert(path[i] == path.last());
                                    }
                                }
                                assert forall|i: int|
                                    1 <= i < ext.len() implies (pre.board.in_bounds(
                                    (#[trigger] ext[i]).0,
                                    ext[i].1,
                                ) && pre.cell_at(ext[i].0, ext[i].1) is Hidden) by {
                                    if i < path.len() {
                                        assert(ext[i] == path[i]);
                                    } else {
                                        assert(ext[i] == (q.0 as int, q.1 as int));
                                    }
                                }
                                assert forall|i: int|
                                    0 <= i < ext.len() - 1 implies adjacent(
                                    (#[trigger] ext[i]).0,
                                    ext[i].1,
                                    ext[i + 1].0,
                                    ext[i + 1].1,
                                ) by {
                                    assert(ext[i] == path[i]);
                                    if i < path.len() - 1 {
                                        assert(ext[i + 1] == path[i + 1]);
                                    } else {
                                        assert(path[i] == path.last());
                                        assert(ext[i + 1] == (q.0 as int, q.1 as int));
                                    }
                                }
                            }
                            assert(ext.last() == (q.0 as int, q.1 as int));
                        }
                    }
                    assert forall|a: int, b: int|
                        pre.board.in_bounds(a, b) && pre.cell_at(a, b) is Hidden && self.cell_at(
                            a,
                            b,
                        ) is Revealed implies cascade_reaches(pre, x0 as int, y0 as int, a, b) by {
                        if !(a == cx as int && b == cy as int) {
                            assert(self.cell_at(a, b) == s_in.cell_at(a, b));
                            assert(s_in.cell_at(a, b) is Revealed);
                        }
                    }
                }
            } else {
                proof {
                    lemma_count_where_bounds(self.cells@, hidden_flag());
                    assert forall|x: int, y: int, a: int, b: int|
                        pre.board.in_bounds(x, y) && cascade_triggered(
                            pre,
                            *self,
                            x0 as int,
                            y0 as int,
                            x,
                            y,
                        ) && pre.flag_nbrs(x, y) == pre.board.neighbor_mines(x, y) && adjacent(
                            x,
                            y,
                            a,
                            b,
                        ) && pre.board.in_bounds(a, b) && self.cell_at(a, b) is Hidden implies
                    in_pending(queue@, head as int, a, b) by {
                        assert(in_pending(q_in, h_in, a, b));
                        let k = choose|k: int|
                            h_in <= k < q_in.len() && q_in[k] == (a as u32, b as u32);
                        assert(k != h_in) by {
                            if k == h_in {
                                assert(q_in[k] == (cx, cy));
                                assert(self.cell_at(cx as int, cy as int) is Hidden);
                            }
                        }
                        assert(in_pending(queue@, head as int, a, b));
                    }
                    if pre.cell_at(x0 as int, y0 as int) is Hidden {
                        if !(self.cell_at(x0 as int, y0 as int) is Revealed) {
                            assert(in_pending(q_in, h_in, x0 as int, y0 as int));
                            let k = choose|k: int|
                                h_in <= k < q_in.len() && q_in[k] == (x0, y0);
                            assert(k != h_in) by {
                                if k == h_in {
                                    assert((x0, y0) == (cx, cy));
                                    assert(self.cell_at(x0 as int, y0 as int) is Hidden);
                                    assert(cells_monotone(pre, *self));
                                }
                            }
                            assert(in_pending(queue@, head as int, x0 as int, y0 as int));
                        }
                    }
                }
            }
        }
        let ghost settled = *self;
        let unrev = self.count_unrevealed();
        if unrev == self.board.bomb_count as u64 {
            self.apply_win();
        }
        proof {
            assert forall|x: int, y: int, a: int, b: int|
                pre.board.in_bounds(x, y) && cascade_triggered(
                    pre,
                    *self,
                    x0 as int,
                    y0 as int,
                    x,
                    y,
                ) && pre.flag_nbrs(x, y) == pre.board.neighbor_mines(x, y) && adjacent(x, y, a, b)
                && pre.board.in_bounds(a, b) && pre.cell_at(a, b) is Hidden implies self.cell_at(
                a,
                b,
            ) is Revealed by {
                assert(cascade_triggered(pre, settled, x0 as int, y0 as int, x, y)) by {
                    if !(pre.cell_at(x, y) is Hidden && settled.cell_at(x, y) is Revealed) {
                        if self.cell_at(x, y) is Revealed {
                            assert(self.cell_at(x, y) == win_cell(settled, x, y)
                                || settled.phase is InProgress && self.cell_at(x, y)
                                == settled.cell_at(x, y));
                        }
                    }
                }
                assert(!(settled.cell_at(a, b) is Hidden));
                assert(settled.cell_at(a, b) is Revealed);
                if settled.phase is InProgress && self.phase is Won {
                    assert(self.cell_at(a, b) == win_cell(settled, a, b));
                }
            }
            if pre.cell_at(x0 as int, y0 as int) is Hidden {
                assert(settled.cell_at(x0 as int, y0 as int) is Revealed);
                if self.phase is Won && settled.phase is InProgress {
                    assert(self.cell_at(x0 as int, y0 as int) == win_cell(
                        settled,
                        x0 as int,
                        y0 as int,
                    ));
                }
            }
            assert(cells_monotone(pre, *self)) by {
                assert forall|x: int, y: int|
                    pre.board.in_bounds(x, y) implies {
                    ||| self.cell_at(x, y) == pre.cell_at(x, y)
                    ||| (pre.cell_at(x, y) is Hidden && self.cell_at(x, y) is Revealed)
                    ||| (self.phase is Won && pre.cell_at(x, y) is Hidden && self.cell_at(x, y)
                        is Flagged)
                } by {
                    if !(self.phase == settled.phase && self.cells@ == settled.cells@) {
                        assert(self.cell_at(x, y) == win_cell(settled, x, y));
                    }
                    assert(settled.cell_at(x, y) == pre.cell_at(x, y) || (pre.cell_at(x, y)
                        is Hidden && settled.cell_at(x, y) is Revealed));
                }
            }
            assert forall|a: int, b: int|
                pre.board.in_bounds(a, b) && pre.cell_at(a, b) is Hidden && self.cell_at(a, b)
                    is Revealed implies cascade_reaches(pre, x0 as int, y0 as int, a, b) by {
                if !(self.phase == settled.phase && self.cells@ == settled.cells@) {
                    assert(self.cell_at(a, b) == win_cell(settled, a, b));
                }
                assert(settled.cell_at(a, b) is Revealed);
            }
            assert(self.unrevealed_cells() == settled.unrevealed_cells());
        }
    }

    /// Dispatches one input event: the single entry point the
    /// presentation layer feeds, with the effect the event's own
    /// contract states.
    pub fn handle_input(&mut self, event: InputEvent)
        requires
            old(self).wf(),
        ensures
            final(self).wf(),
            (event matches InputEvent::Uncover(c) ==> uncover_post(
                *old(self),
                *final(self),
                c,
            )),
            (event matches InputEvent::ToggleMark(c) ==> toggle_post(
                *old(self),
                *final(self),
                c,
            )),
    {
        match event {
            InputEvent::Uncover(c) => self.uncover(c),
            InputEvent::ToggleMark(c) => self.toggle_mark(c),
        }
    }

    /// The display state the presentation layer reads for `coord`; a
    /// coordinate off the board reads as hidden.
    pub fn cell_state(&self, coord: (u32, u32)) -> (c: CellState)
        requires
            self.wf(),
        ensures
            c == if self.board.in_bounds(coord.0 as int, coord.1 as int) {
                self.cell_at(coord.0 as int, coord.1 as int)
            } else {
                CellState::Hidden
            },
    {
        let (x, y) = coord;
        if x < self.board.width && y < self.board.height {
            self.cell_get(x, y)
        } else {
            CellState::Hidden
        }
    }

    /// The phase the game is in.
    pub fn phase(&self) -> (p: GamePhase)
        ensures
            p == self.phase,
    {
        self.phase
    }

    /// The parameters the current board was generated from.
    pub fn options(&self) -> (o: BoardOptions)
        ensures
            o.width == self.board.width,
            o.height == self.board.height,
            o.bomb_count == self.board.bomb_count,
    {
        BoardOptions {
            width: self.board.width,
            height: self.board.height,
            bomb_count: self.board.bomb_count,
        }
    }

    /// Whether the game has started: a step has been taken and the game
    /// is still in progress.  The elapsed-time display runs on this.
    pub fn started(&self) -> (r: bool)
        ensures
            r == (self.last_step.coord is Some && self.phase is InProgress),
    {
        self.last_step.coord.is_some() && self.phase == GamePhase::InProgress
    }

    /// Rebuilds the session for a new game: a fresh random board drawn
    /// from `options`, every cell hidden, the phase back in progress.
    /// Impossible parameters leave everything untouched.  When a loss
    /// from a first click is still pending confirmation, the recorded
    /// coordinate is re-applied as a reveal on the new board, so the
    /// player's click is carried over.
    pub fn request_reset(&mut self, options: &BoardOptions) -> (r: Result<(), GameError>)
        requires
            old(self).wf(),
        ensures
            final(self).wf(),
            reset_post(*old(self), *final(self), *options, r),
    {
        let ghost pre = *self;
        let replay: Option<(u32, u32)> = if self.last_step.uncover {
            self.last_step.coord
        } else {
            None
        };
        match Board::generate(options) {
            Ok(b) => {
                let fresh = Self::with_board(b);
                *self = fresh;
                match replay {
                    Some(c) => {
                        self.last_step.uncover = true;
                        proof {
                            lemma_cells_ok_same(fresh, *self);
                        }
                        let ghost mid = *self;
                        self.uncover(c);
                        proof {
                            assert(replay_start(mid, *options));
                            assert(uncover_post(mid, *self, c));
                        }
                        Ok(())
                    },
                    None => Ok(()),
                }
            },
            Err(e) => Err(e),
        }
    }

    /// Toggles the mark on the cell at `coord`: hidden becomes flagged,
    /// flagged becomes hidden, anything else is left alone.  Ignored
    /// outside a game in progress and off the board.
    pub fn toggle_mark(&mut self, coord: (u32, u32))
        requires
            old(self).wf(),
        ensures
            final(self).wf(),
            toggle_post(*old(self), *final(self), coord),
    {
        let ghost pre = *self;
        if !(self.phase == GamePhase::InProgress) {
            return ;
        }
        let (x, y) = coord;
        if !(x < self.board.width && y < self.board.height) {
            return ;
        }
        let c = self.cell_get(x, y);
        match c {
            CellState::Hidden => self.cell_set(x, y, CellState::Flagged),
            CellState::Flagged => self.cell_set(x, y, CellState::Hidden),
            _ => (),
        }
        proof {
            assert forall|a: int, b: int|
                self.board.in_bounds(a, b) implies (self.cell_at(a, b)
                matches CellState::Revealed(n) ==> !self.board.mine_at(a, b) && n as int
                == self.board.neighbor_mines(a, b)) by {
                if a == x && b == y {
                } else {
                    assert(self.cell_at(a, b) == pre.cell_at(a, b));
                }
            }
        }
    }
}

/// What the loss reveal leaves at `(x, y)` when the mine at `(mx, my)`
/// detonated in state `pre`.
pub open spec fn loss_cell(pre: GameSession, mx: int, my: int, x: int, y: int) -> CellState {
    if x == mx && y == my {
        CellState::DetonatedMine
    } else if pre.board.mine_at(x, y) && pre.cell_at(x, y) is Hidden {
        CellState::RevealedMine
    } else {
        pre.cell_at(x, y)
    }
}

/// What the win side effect leaves at `(x, y)` in state `pre`.
pub open spec fn win_cell(pre: GameSession, x: int, y: int) -> CellState {
    if pre.cell_at(x, y) is Hidden {
        CellState::Flagged
    } else {
        pre.cell_at(x, y)
    }
}

/// Cell tables over one board that agree at every in-bounds coordinate
/// are equal.
pub proof fn lemma_cells_pointwise_equal(board: Board, s: Seq<CellState>, t: Seq<CellState>)
    requires
        board.wf(),
        s.len() == board.width * board.height,
        t.len() == s.len(),
        forall|x: int, y: int|
            board.in_bounds(x, y) ==> #[trigger] s[board.index_of(x, y)] == t[board.index_of(
                x,
                y,
            )],
    ensures
        s =~= t,
{
    assert forall|i: int| 0 <= i < s.len() implies s[i] == t[i] by {
        lemma_index_decompose(board.width as int, board.height as int, i);
        let x = i % (board.width as int);
        let y = i / (board.width as int);
        assert(board.in_bounds(x, y));
        assert(board.index_of(x, y) == i);
        assert(s[board.index_of(x, y)] == t[board.index_of(x, y)]);
    }
}

/// Two sessions over the same board and cells satisfy the cell invariant
/// together; changing the phase or the last-step memory cannot break it.
pub proof fn lemma_cells_ok_same(pre: GameSession, post: GameSession)
    requires
        pre.cells_ok(),
        post.board == pre.board,
        post.cells@ == pre.cells@,
    ensures
        post.cells_ok(),
{
    assert forall|x: int, y: int|
        post.board.in_bounds(x, y) implies (post.cell_at(x, y) matches CellState::Revealed(n)
        ==> !post.board.mine_at(x, y) && n as int == post.board.neighbor_mines(x, y)) by {
        assert(post.cell_at(x, y) == pre.cell_at(x, y));
    }
}

/// Whether `(a, b)` still waits in the work queue `q` at or after
/// position `head`.
pub open spec fn in_pending(q: Seq<(u32, u32)>, head: int, a: int, b: int) -> bool {
    exists|k: int| head <= k < q.len() && q[k] == (a as u32, b as u32)
}

/// Every queued coordinate lies on the board.
pub open spec fn queue_ok(board: Board, q: Seq<(u32, u32)>) -> bool {
    forall|k: int|
        0 <= k < q.len() ==> board.in_bounds(
            (#[trigger] q[k]).0 as int,
            q[k].1 as int,
        )
}

/// A cell whose expansion rule fired during this reveal: one this call
/// took from hidden to revealed, or the clicked cell when it was already
/// revealed (the chord case).
pub open spec fn cascade_triggered(
    pre: GameSession,
    cur: GameSession,
    cx: int,
    cy: int,
    x: int,
    y: int,
) -> bool {
    ||| (pre.cell_at(x, y) is Hidden && cur.cell_at(x, y) is Revealed)
    ||| (x == cx && y == cy && pre.cell_at(x, y) is Revealed)
}

/// Cells only move forward: each is unchanged, or went from hidden to
/// revealed, or — once the game is won — from hidden to flagged.
pub open spec fn cells_monotone(pre: GameSession, cur: GameSession) -> bool {
    forall|x: int, y: int|
        #![trigger cur.cell_at(x, y)]
        pre.board.in_bounds(x, y) ==> {
            ||| cur.cell_at(x, y) == pre.cell_at(x, y)
            ||| (pre.cell_at(x, y) is Hidden && cur.cell_at(x, y) is Revealed)
            ||| (cur.phase is Won && pre.cell_at(x, y) is Hidden && cur.cell_at(x, y) is Flagged)
        }
}

/// No cell's flag changed.
pub open spec fn flags_same(pre: GameSession, cur: GameSession) -> bool {
    forall|x: int, y: int| #[trigger] cur.flagged_at(x, y) == pre.flagged_at(x, y)
}

/// Every hidden neighbor of a fired cell whose flag count satisfies its
/// number still waits in the pending part of the work queue.
pub open spec fn cascade_frontier_covered(
    pre: GameSession,
    cur: GameSession,
    cx: int,
    cy: int,
    q: Seq<(u32, u32)>,
    head: int,
) -> bool {
    forall|x: int, y: int, a: int, b: int|
        #![trigger cascade_triggered(pre, cur, cx, cy, x, y), cur.cell_at(a, b)]
        pre.board.in_bounds(x, y) && cascade_triggered(pre, cur, cx, cy, x, y) && pre.flag_nbrs(
            x,
            y,
        ) == pre.board.neighbor_mines(x, y) && adjacent(x, y, a, b) && pre.board.in_bounds(a, b)
            && cur.cell_at(a, b) is Hidden ==> in_pending(q, head, a, b)
}

/// The expansion rule's firing condition at `(x, y)`, fixed by the state
/// the reveal started from: the flags around the cell account for its
/// every neighbor mine.
pub open spec fn rule_fires(pre: GameSession, x: int, y: int) -> bool {
    pre.flag_nbrs(x, y) == pre.board.neighbor_mines(x, y)
}

/// A walk the cascade can take: it starts at the clicked cell, and every
/// step leaves a cell whose rule fires onto a hidden in-bounds neighbor.
pub open spec fn cascade_chain(
    pre: GameSession,
    cx: int,
    cy: int,
    path: Seq<(int, int)>,
) -> bool {
    &&& path.len() >= 1
    &&& path[0] == (cx, cy)
    &&& forall|i: int|
        0 <= i < path.len() - 1 ==> rule_fires(pre, (#[trigger] path[i]).0, path[i].1)
    &&& forall|i: int|
        1 <= i < path.len() ==> {
            let q = #[trigger] path[i];
            &&& pre.board.in_bounds(q.0, q.1)
            &&& pre.cell_at(q.0, q.1) is Hidden
        }
    &&& forall|i: int|
        0 <= i < path.len() - 1 ==> adjacent(
            (#[trigger] path[i]).0,
            path[i].1,
            path[i + 1].0,
            path[i + 1].1,
        )
}

/// Where a cascade from the click can arrive: the end of some walk.
pub open spec fn cascade_reaches(
    pre: GameSession,
    cx: int,
    cy: int,
    a: int,
    b: int,
) -> bool {
    exists|path: Seq<(int, int)>|
        #[trigger] cascade_chain(pre, cx, cy, path) && path.last() == (a, b)
}

/// Every pending queue entry is somewhere a cascade from the click can
/// arrive.
pub open spec fn queue_reached(
    pre: GameSession,
    cx: int,
    cy: int,
    q: Seq<(u32, u32)>,
    head: int,
) -> bool {
    forall|k: int|
        head <= k < q.len() ==> cascade_reaches(
            pre,
            cx,
            cy,
            (#[trigger] q[k]).0 as int,
            q[k].1 as int,
        )
}

/// No cell is revealed gratuitously: everything this call took from
/// hidden to revealed is the end of some walk of firing cells from the
/// click.  Together with the expansion guarantee this pins the cascade's
/// extent down exactly.
pub open spec fn reveals_reached(
    pre: GameSession,
    post: GameSession,
    cx: int,
    cy: int,
) -> bool {
    forall|a: int, b: int|
        #![trigger post.cell_at(a, b)]
        pre.board.in_bounds(a, b) && pre.cell_at(a, b) is Hidden && post.cell_at(a, b) is Revealed
            ==> cascade_reaches(pre, cx, cy, a, b)
}

/// A loss that came out of the cascade: some mine detonated, and the
/// cascade walked onto it from the click — a wrongly placed flag made
/// the expansion rule fire toward a mine.
pub open spec fn chord_loss(pre: GameSession, post: GameSession, cx: int, cy: int) -> bool {
    exists|mx: int, my: int|
        #[trigger] mine_detonated(pre, post, mx, my) && cascade_reaches(pre, cx, cy, mx, my)
}

/// Every fired cell whose rule is satisfied has had each of its
/// formerly hidden in-bounds neighbors revealed: the cascade ran to a
/// fixed point.
pub open spec fn cascade_expands(pre: GameSession, post: GameSession, cx: int, cy: int) -> bool {
    forall|x: int, y: int, a: int, b: int|
        #![trigger cascade_triggered(pre, post, cx, cy, x, y), adjacent(x, y, a, b)]
        pre.board.in_bounds(x, y) && cascade_triggered(pre, post, cx, cy, x, y) && rule_fires(
            pre,
            x,
            y,
        ) && adjacent(x, y, a, b) && pre.board.in_bounds(a, b) && pre.cell_at(a, b) is Hidden
            ==> post.cell_at(a, b) is Revealed
}

/// What a settled cascade guarantees: the board stands, cells moved only
/// forward, the clicked cell is revealed, every fired satisfied cell has
/// its formerly hidden neighbors revealed, and the game is won exactly
/// when the unrevealed count equals the mine count.
pub open spec fn cascade_post(pre: GameSession, post: GameSession, cx: int, cy: int) -> bool {
    &&& post.board == pre.board
    &&& post.cells@.len() == pre.cells@.len()
    &&& post.last_step.coord == Some((cx as u32, cy as u32))
    &&& !post.last_step.uncover
    &&& (post.phase is InProgress || post.phase is Won)
    &&& cells_monotone(pre, post)
    &&& reveals_reached(pre, post, cx, cy)
    &&& (pre.cell_at(cx, cy) is Hidden ==> post.cell_at(cx, cy) is Revealed)
    &&& cascade_expands(pre, post, cx, cy)
    &&& (post.phase is Won <==> post.unrevealed_cells() == pre.board.bomb_count)
    &&& (post.phase is Won ==> forall|i: int|
        0 <= i < post.cells@.len() ==> !(post.cells@[i] is Hidden))
}

/// The mine at `(mx, my)` went off: it shows as detonated, every other
/// still-hidden mine is revealed, flags stay, and safe cells moved only
/// forward.
pub open spec fn mine_detonated(pre: GameSession, post: GameSession, mx: int, my: int) -> bool {
    &&& pre.board.in_bounds(mx, my)
    &&& pre.board.mine_at(mx, my)
    &&& post.last_step.coord == Some((mx as u32, my as u32))
    &&& post.cell_at(mx, my) is DetonatedMine
    &&& forall|x: int, y: int|
        #![trigger post.cell_at(x, y)]
        pre.board.in_bounds(x, y) && pre.board.mine_at(x, y) && !(x == mx && y == my)
            ==> post.cell_at(x, y) == if pre.cell_at(x, y) is Hidden {
            CellState::RevealedMine
        } else {
            pre.cell_at(x, y)
        }
    &&& forall|x: int, y: int|
        #![trigger post.cell_at(x, y)]
        pre.board.in_bounds(x, y) && !pre.board.mine_at(x, y) ==> (post.cell_at(x, y) == pre.cell_at(
            x,
            y,
        ) || (pre.cell_at(x, y) is Hidden && post.cell_at(x, y) is Revealed))
}

/// While a first-click loss waits for its confirmation, every reveal but
/// a re-trigger of the recorded coordinate is held back.
pub open spec fn uncover_suppressed(pre: GameSession, coord: (u32, u32)) -> bool {
    pre.last_step.uncover && match pre.last_step.coord {
        Some(c) => c != coord,
        None => false,
    }
}

/// Exactly what an uncover does, branch by branch: ignored out of phase,
/// off the board, and while a pending loss awaits its own coordinate; a
/// flagged cell is only recorded; a first-click mine only sets the
/// pending-loss flag; a later mine click loses the game with the loss
/// reveal; otherwise the reveal cascades and either settles
/// (`cascade_post`) or runs onto a wrongly chorded mine and loses.
pub open spec fn uncover_post(pre: GameSession, post: GameSession, coord: (u32, u32)) -> bool {
    let cx = coord.0 as int;
    let cy = coord.1 as int;
    let first = pre.last_step.coord is None;
    if !(pre.phase is InProgress) || !pre.board.in_bounds(cx, cy) || uncover_suppressed(
        pre,
        coord,
    ) {
        post == pre
    } else if pre.cell_at(cx, cy) is Flagged {
        &&& post.board == pre.board
        &&& post.cells@ == pre.cells@
        &&& post.phase == pre.phase
        &&& post.last_step.coord == Some(coord)
        &&& post.last_step.uncover == pre.last_step.uncover
    } else if pre.board.mine_at(cx, cy) {
        if first {
            &&& post.board == pre.board
            &&& post.cells@ == pre.cells@
            &&& post.phase == pre.phase
            &&& post.last_step.coord == Some(coord)
            &&& post.last_step.uncover
        } else {
            &&& post.board == pre.board
            &&& post.cells@.len() == pre.cells@.len()
            &&& post.phase is Lost
            &&& mine_detonated(pre, post, cx, cy)
            &&& forall|x: int, y: int|
                #![trigger post.cell_at(x, y)]
                pre.board.in_bounds(x, y) && !pre.board.mine_at(x, y) ==> post.cell_at(x, y)
                    == pre.cell_at(x, y)
            &&& post.last_step.uncover == pre.last_step.uncover
        }
    } else if post.phase is Lost {
        &&& post.board == pre.board
        &&& post.cells@.len() == pre.cells@.len()
        &&& !post.last_step.uncover
        &&& reveals_reached(pre, post, cx, cy)
        &&& chord_loss(pre, post, cx, cy)
    } else {
        cascade_post(pre, post, cx, cy)
    }
}

/// A session at the start of a game drawn from `opts`: a well-formed
/// board of the requested shape, every cell hidden, the game in
/// progress, no step recorded.
pub open spec fn fresh_session(s: GameSession, opts: BoardOptions) -> bool {
    &&& s.wf()
    &&& s.board.width == opts.width
    &&& s.board.height == opts.height
    &&& s.board.bomb_count == opts.bomb_count
    &&& s.is_all_hidden()
    &&& s.phase is InProgress
    &&& s.last_step.coord is None
}

/// The state a pending first-click loss is replayed from: a fresh
/// session whose pending-loss flag is still set.
pub open spec fn replay_start(mid: GameSession, opts: BoardOptions) -> bool {
    &&& fresh_session(mid, opts)
    &&& mid.last_step.uncover
}

/// Exactly what `request_reset` does: impossible parameters change
/// nothing and come back as the error; otherwise the session starts over
/// on a fresh random board of the requested shape, and a pending
/// first-click loss is re-applied as a reveal on it.
pub open spec fn reset_post(
    pre: GameSession,
    post: GameSession,
    opts: BoardOptions,
    r: Result<(), GameError>,
) -> bool {
    match r {
        Err(e) => {
            &&& e == GameError::InvalidParameters
            &&& !opts.valid()
            &&& post == pre
        },
        Ok(()) => {
            &&& opts.valid()
            &&& post.board.width == opts.width
            &&& post.board.height == opts.height
            &&& post.board.bomb_count == opts.bomb_count
            &&& if pre.pending_replay() {
                exists|mid: GameSession|
                    #[trigger] replay_start(mid, opts) && mid.board == post.board && uncover_post(
                        mid,
                        post,
                        pre.replay_coord(),
                    )
            } else {
                fresh_session(post, opts) && !post.last_step.uncover
            }
        },
    }
}

/// Exactly what `toggle_mark` does: nothing outside a game in progress or
/// off the board; otherwise the one cell toggles and all else stays.
pub open spec fn toggle_post(pre: GameSession, post: GameSession, coord: (u32, u32)) -> bool {
    let cx = coord.0 as int;
    let cy = coord.1 as int;
    if !(pre.phase is InProgress) || !pre.board.in_bounds(cx, cy) {
        post == pre
    } else {
        &&& post.board == pre.board
        &&& post.phase == pre.phase
        &&& post.last_step == pre.last_step
        &&& post.cells@.len() == pre.cells@.len()
        &&& post.cell_at(cx, cy) == toggled(pre.cell_at(cx, cy))
        &&& forall|a: int, b: int|
            #![trigger post.cell_at(a, b)]
            pre.board.in_bounds(a, b) && !(a == cx && b == cy) ==> post.cell_at(a, b)
                == pre.cell_at(a, b)
    }
}

} // verus!
