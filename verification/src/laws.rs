//! The laws the session's operations obey, proved from the operation
//! contracts alone: the forgiving first click, mark-toggle round trips,
//! the exact win condition, and the flood-fill reach of a cascade.

use vstd::prelude::*;

use crate::board::adjacent;
use crate::cells::{CellState, lemma_toggled_involution, toggled};
use crate::session::{
    GameSession, cascade_chain, cascade_expands, cascade_post, cascade_reaches, cascade_triggered,
    cells_monotone, chord_loss, lemma_cells_pointwise_equal, mine_detonated, rule_fires,
    toggle_post, uncover_post,
};

verus! {

/// On a board without a single flag, a cell's flag count is zero.
proof fn lemma_no_flags_no_flag_nbrs(s: GameSession, x: int, y: int)
    requires
        forall|a: int, b: int|
            s.board.in_bounds(a, b) ==> !((#[trigger] s.cell_at(a, b)) is Flagged),
    ensures
        s.flag_nbrs(x, y) == 0,
{
    assert(!s.flagged_at(x - 1, y + 1));
    assert(!s.flagged_at(x, y + 1));
    assert(!s.flagged_at(x + 1, y + 1));
    assert(!s.flagged_at(x + 1, y));
    assert(!s.flagged_at(x + 1, y - 1));
    assert(!s.flagged_at(x, y - 1));
    assert(!s.flagged_at(x - 1, y - 1));
    assert(!s.flagged_at(x - 1, y));
}

/// A chain of pairwise-adjacent zero cells, all safe, in bounds and
/// still hidden: the shape of a connected zero region walked cell by
/// cell.
pub open spec fn zero_path(pre: GameSession, path: Seq<(int, int)>) -> bool {
    &&& forall|i: int|
        0 <= i < path.len() ==> {
            let q = #[trigger] path[i];
            &&& pre.board.in_bounds(q.0, q.1)
            &&& !pre.board.mine_at(q.0, q.1)
            &&& pre.board.neighbor_mines(q.0, q.1) == 0
            &&& pre.cell_at(q.0, q.1) is Hidden
        }
    &&& forall|i: int|
        0 <= i < path.len() - 1 ==> adjacent(
            (#[trigger] path[i]).0,
            path[i].1,
            path[i + 1].0,
            path[i + 1].1,
        )
}

/// Along a zero path from the clicked cell, each cell in turn is
/// revealed by the settled cascade.
proof fn lemma_zero_path_step(
    pre: GameSession,
    post: GameSession,
    coord: (u32, u32),
    path: Seq<(int, int)>,
    i: int,
)
    requires
        pre.wf(),
        forall|a: int, b: int|
            pre.board.in_bounds(a, b) ==> !((#[trigger] pre.cell_at(a, b)) is Flagged),
        cascade_post(pre, post, coord.0 as int, coord.1 as int),
        path.len() >= 1,
        path[0] == (coord.0 as int, coord.1 as int),
        zero_path(pre, path),
        0 <= i < path.len(),
    ensures
        post.cell_at((path[i]).0, (path[i]).1) is Revealed,
    decreases i,
{
    let cx = coord.0 as int;
    let cy = coord.1 as int;
    if i == 0 {
        assert(pre.cell_at(cx, cy) is Hidden);
    } else {
        lemma_zero_path_step(pre, post, coord, path, i - 1);
        let p = path[i - 1];
        let q = path[i];
        assert(cascade_triggered(pre, post, cx, cy, p.0, p.1));
        lemma_no_flags_no_flag_nbrs(pre, p.0, p.1);
        assert(pre.flag_nbrs(p.0, p.1) == pre.board.neighbor_mines(p.0, p.1));
        assert(adjacent(p.0, p.1, q.0, q.1));
        assert(pre.cell_at(q.0, q.1) is Hidden);
    }
}

/// Revealing a hidden zero cell on a board without flags reaches its
/// entire connected zero region, and the numbered ring beyond it: every
/// cell joined to the click by a chain of adjacent zero cells is
/// revealed, and so is every in-bounds neighbor of such a cell.  The
/// game is not lost by it.  (That the cascade terminates at all is part
/// of the verification of `uncover` itself: every loop in it carries a
/// proved termination measure.)
pub proof fn lemma_zero_region_cascade(
    pre: GameSession,
    post: GameSession,
    coord: (u32, u32),
    path: Seq<(int, int)>,
)
    requires
        pre.wf(),
        pre.phase is InProgress,
        !pre.last_step.uncover,
        forall|a: int, b: int|
            pre.board.in_bounds(a, b) ==> ((#[trigger] pre.cell_at(a, b)) is Hidden || pre.cell_at(
                a,
                b,
            ) is Revealed),
        uncover_post(pre, post, coord),
        path.len() >= 1,
        path[0] == (coord.0 as int, coord.1 as int),
        zero_path(pre, path),
    ensures
        !(post.phase is Lost),
        forall|i: int| 0 <= i < path.len() ==> post.cell_at((#[trigger] path[i]).0, path[i].1)
            is Revealed,
        forall|i: int, a: int, b: int|
            #![trigger path[i], post.cell_at(a, b)]
            0 <= i < path.len() && adjacent(path[i].0, path[i].1, a, b) && pre.board.in_bounds(
                a,
                b,
            ) ==> post.cell_at(a, b) is Revealed,
{
    let cx = coord.0 as int;
    let cy = coord.1 as int;
    assert(pre.board.in_bounds(cx, cy));
    assert(!pre.board.mine_at(cx, cy));
    assert(!(pre.cell_at(cx, cy) is Flagged));
    assert(!(post.phase is Lost)) by {
        if post.phase is Lost {
            assert(chord_loss(pre, post, cx, cy));
            let (mx, my) = choose|mx: int, my: int|
                #[trigger] mine_detonated(pre, post, mx, my) && cascade_reaches(
                    pre,
                    cx,
                    cy,
                    mx,
                    my,
                );
            let path = choose|path: Seq<(int, int)>|
                #[trigger] cascade_chain(pre, cx, cy, path) && path.last() == (mx, my);
            assert(path.len() >= 2) by {
                if path.len() == 1 {
                    assert(path.last() == path[0]);
                }
            }
            let j = path.len() - 2;
            assert(rule_fires(pre, path[j].0, path[j].1));
            assert(adjacent(path[j].0, path[j].1, mx, my)) by {
                assert(path[j + 1] == path.last());
            }
            lemma_no_flags_no_flag_nbrs(pre, path[j].0, path[j].1);
            pre.board.lemma_adjacent_mine_counts(path[j].0, path[j].1, mx, my);
        }
    }
    assert(cascade_post(pre, post, cx, cy));
    assert forall|i: int| 0 <= i < path.len() implies post.cell_at(
        (#[trigger] path[i]).0,
        path[i].1,
    ) is Revealed by {
        lemma_zero_path_step(pre, post, coord, path, i);
    }
    assert forall|i: int, a: int, b: int|
        #![trigger path[i], post.cell_at(a, b)]
        0 <= i < path.len() && adjacent(path[i].0, path[i].1, a, b) && pre.board.in_bounds(
            a,
            b,
        ) implies post.cell_at(a, b) is Revealed by {
        let p = path[i];
        lemma_zero_path_step(pre, post, coord, path, i);
        assert(cascade_triggered(pre, post, cx, cy, p.0, p.1));
        lemma_no_flags_no_flag_nbrs(pre, p.0, p.1);
        if pre.cell_at(a, b) is Hidden {
            assert(pre.flag_nbrs(p.0, p.1) == pre.board.neighbor_mines(p.0, p.1));
        } else {
            assert(pre.cell_at(a, b) is Revealed);
            assert(cells_monotone(pre, post));
            assert(post.cell_at(a, b) == pre.cell_at(a, b));
        }
    }
}

/// Along any walk of firing cells from the click, each cell in turn is
/// revealed by the settled cascade.
proof fn lemma_chain_revealed(
    pre: GameSession,
    post: GameSession,
    cx: int,
    cy: int,
    path: Seq<(int, int)>,
    i: int,
)
    requires
        pre.board.in_bounds(cx, cy),
        cascade_expands(pre, post, cx, cy),
        pre.cell_at(cx, cy) is Hidden ==> post.cell_at(cx, cy) is Revealed,
        pre.cell_at(cx, cy) is Revealed ==> post.cell_at(cx, cy) is Revealed,
        pre.cell_at(cx, cy) is Hidden || pre.cell_at(cx, cy) is Revealed,
        cascade_chain(pre, cx, cy, path),
        0 <= i < path.len(),
    ensures
        post.cell_at((path[i]).0, (path[i]).1) is Revealed,
    decreases i,
{
    if i > 0 {
        lemma_chain_revealed(pre, post, cx, cy, path, i - 1);
        let p = path[i - 1];
        let q = path[i];
        assert(rule_fires(pre, p.0, p.1));
        assert(adjacent(p.0, p.1, q.0, q.1));
        assert(pre.board.in_bounds(q.0, q.1));
        assert(pre.cell_at(q.0, q.1) is Hidden);
        assert(pre.board.in_bounds(p.0, p.1));
        assert(cascade_triggered(pre, post, cx, cy, p.0, p.1));
    }
}

/// The settled cascade's extent, exactly: a hidden cell is revealed
/// precisely when some walk of firing cells from the click ends on it.
/// Nothing inside that reach stays hidden, and nothing outside it
/// opens.
pub proof fn lemma_cascade_extent_is_the_reach(
    pre: GameSession,
    post: GameSession,
    coord: (u32, u32),
)
    requires
        pre.wf(),
        pre.phase is InProgress,
        !pre.last_step.uncover,
        pre.board.in_bounds(coord.0 as int, coord.1 as int),
        !pre.board.mine_at(coord.0 as int, coord.1 as int),
        pre.cell_at(coord.0 as int, coord.1 as int) is Hidden || pre.cell_at(
            coord.0 as int,
            coord.1 as int,
        ) is Revealed,
        uncover_post(pre, post, coord),
        !(post.phase is Lost),
    ensures
        forall|a: int, b: int|
            #![trigger cascade_reaches(pre, coord.0 as int, coord.1 as int, a, b)]
            pre.board.in_bounds(a, b) && pre.cell_at(a, b) is Hidden ==> (post.cell_at(a, b)
                is Revealed <==> cascade_reaches(pre, coord.0 as int, coord.1 as int, a, b)),
{
    let cx = coord.0 as int;
    let cy = coord.1 as int;
    assert(cascade_post(pre, post, cx, cy));
    assert(pre.cell_at(cx, cy) is Revealed ==> post.cell_at(cx, cy) is Revealed) by {
        if pre.cell_at(cx, cy) is Revealed {
            assert(cells_monotone(pre, post));
            assert(post.cell_at(cx, cy) == pre.cell_at(cx, cy));
        }
    }
    assert forall|a: int, b: int|
        pre.board.in_bounds(a, b) && pre.cell_at(a, b) is Hidden && cascade_reaches(
            pre,
            cx,
            cy,
            a,
            b,
        ) implies post.cell_at(a, b) is Revealed by {
        let path = choose|path: Seq<(int, int)>|
            #[trigger] cascade_chain(pre, cx, cy, path) && path.last() == (a, b);
        lemma_chain_revealed(pre, post, cx, cy, path, path.len() - 1);
    }
    assert forall|a: int, b: int|
        pre.board.in_bounds(a, b) && pre.cell_at(a, b) is Hidden && post.cell_at(a, b)
            is Revealed implies cascade_reaches(pre, cx, cy, a, b) by {
        assert(post.cell_at(a, b) is Revealed);
    }
}

/// The forgiving first click: revealing a mine as the very first step of
/// a session does not lose the game and uncovers nothing — it only sets
/// the pending-loss flag; revealing the same coordinate once more does
/// lose it and performs the loss reveal, showing every mine that was
/// still hidden.
pub proof fn lemma_forgiving_first_click(
    s0: GameSession,
    s1: GameSession,
    s2: GameSession,
    coord: (u32, u32),
)
    requires
        s0.wf(),
        s0.phase is InProgress,
        s0.last_step.coord is None,
        s0.board.in_bounds(coord.0 as int, coord.1 as int),
        s0.board.mine_at(coord.0 as int, coord.1 as int),
        !(s0.cell_at(coord.0 as int, coord.1 as int) is Flagged),
        uncover_post(s0, s1, coord),
        uncover_post(s1, s2, coord),
    ensures
        s1.phase is InProgress,
        s1.cells@ == s0.cells@,
        s1.last_step.uncover,
        s2.phase is Lost,
        mine_detonated(s1, s2, coord.0 as int, coord.1 as int),
        s2.cell_at(coord.0 as int, coord.1 as int) is DetonatedMine,
        forall|x: int, y: int|
            s0.board.in_bounds(x, y) && s0.board.mine_at(x, y) && !(x == coord.0 as int && y
                == coord.1 as int) && (#[trigger] s0.cell_at(x, y)) is Hidden ==> s2.cell_at(x, y)
                is RevealedMine,
{
    let cx = coord.0 as int;
    let cy = coord.1 as int;
    assert(s1.board == s0.board);
    assert(s1.last_step.coord == Some(coord));
    assert(mine_detonated(s1, s2, cx, cy));
    assert forall|x: int, y: int|
        s0.board.in_bounds(x, y) && s0.board.mine_at(x, y) && !(x == cx && y == cy) && (
        #[trigger] s0.cell_at(x, y)) is Hidden implies s2.cell_at(x, y) is RevealedMine by {
        assert(s1.cell_at(x, y) == s0.cell_at(x, y));
        assert(s2.cell_at(x, y) == CellState::RevealedMine);
    }
}

/// Toggling the mark twice on any coordinate is the identity on the
/// whole cell table, and leaves the phase, the board and the last-step
/// memory alone.
pub proof fn lemma_toggle_twice_identity(
    s0: GameSession,
    s1: GameSession,
    s2: GameSession,
    coord: (u32, u32),
)
    requires
        s0.wf(),
        toggle_post(s0, s1, coord),
        toggle_post(s1, s2, coord),
    ensures
        s2.cells@ == s0.cells@,
        s2.board == s0.board,
        s2.phase == s0.phase,
        s2.last_step == s0.last_step,
{
    let cx = coord.0 as int;
    let cy = coord.1 as int;
    if !(s0.phase is InProgress) || !s0.board.in_bounds(cx, cy) {
        assert(s1 == s0);
        assert(s2 == s1);
    } else {
        assert(s1.board == s0.board);
        assert(s2.cell_at(cx, cy) == toggled(toggled(s0.cell_at(cx, cy))));
        lemma_toggled_involution(s0.cell_at(cx, cy));
        assert forall|x: int, y: int|
            s0.board.in_bounds(x, y) implies #[trigger] s2.cells@[s0.board.index_of(x, y)]
            == s0.cells@[s0.board.index_of(x, y)] by {
            if x == cx && y == cy {
                assert(s2.cell_at(x, y) == s0.cell_at(x, y));
            } else {
                assert(s2.cell_at(x, y) == s1.cell_at(x, y));
                assert(s1.cell_at(x, y) == s0.cell_at(x, y));
            }
        }
        lemma_cells_pointwise_equal(s0.board, s2.cells@, s0.cells@);
    }
}

/// The win is declared exactly when the number of cells still hidden or
/// flagged equals the mine count, checked after the cascade of a safe,
/// unflagged reveal has settled without detonating a mine.
pub proof fn lemma_win_exactly_at_mine_count(
    pre: GameSession,
    post: GameSession,
    coord: (u32, u32),
)
    requires
        pre.wf(),
        pre.phase is InProgress,
        !pre.last_step.uncover,
        pre.board.in_bounds(coord.0 as int, coord.1 as int),
        !pre.board.mine_at(coord.0 as int, coord.1 as int),
        !(pre.cell_at(coord.0 as int, coord.1 as int) is Flagged),
        uncover_post(pre, post, coord),
        !(post.phase is Lost),
    ensures
        post.phase is Won <==> post.unrevealed_cells() == pre.board.bomb_count,
{
}

} // verus!
