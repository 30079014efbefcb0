//! The mine grid: random generation from board parameters, and the pure
//! adjacency queries over it (mine lookup, neighbor mine count, in-bounds
//! neighbor enumeration).

use vstd::prelude::*;

use rand::Rng;

use crate::GameError;
use crate::arith::{lemma_index_bound, lemma_mul_le};
use crate::counting::{
    count_where, lemma_count_where_concat, lemma_count_where_full, lemma_count_where_prefix_step,
    lemma_count_where_push, lemma_count_where_update,
};
use crate::options::BoardOptions;

verus! {

/// 1 for a mine, 0 for a safe cell; the unit the neighbor count adds up.
pub open spec fn b2i(b: bool) -> int {
    if b {
        1
    } else {
        0
    }
}

/// The predicate under which grid cells are counted as mines.
pub open spec fn is_mine_flag() -> spec_fn(bool) -> bool {
    |b: bool| b
}

/// A line of `n` dashes, as the board picture's frame uses it.
pub open spec fn dash_chars(n: int) -> Seq<char>
    decreases n,
{
    if n <= 0 {
        Seq::empty()
    } else {
        dash_chars(n - 1).push('-')
    }
}

/// Whether `(a, b)` is one of the eight compass neighbors of `(x, y)`.
pub open spec fn adjacent(x: int, y: int, a: int, b: int) -> bool {
    &&& -1 <= a - x <= 1
    &&& -1 <= b - y <= 1
    &&& !(a == x && b == y)
}

/// A generated mine grid: `mines[y * width + x]` tells whether the cell at
/// `(x, y)` holds a mine.  Exactly `bomb_count` entries are set.
#[derive(Debug)]
pub struct Board {
    pub width: u32,
    pub height: u32,
    pub bomb_count: u32,
    pub mines: Vec<bool>,
}

impl Board {
    /// The well-formedness every generated board has: positive dimensions,
    /// a cell array of exactly `width * height` entries, and exactly
    /// `bomb_count` of them mines.
    pub open spec fn wf(self) -> bool {
        &&& self.width >= 1
        &&& self.height >= 1
        &&& self.width * self.height <= usize::MAX
        &&& self.mines@.len() == self.width * self.height
        &&& count_where(self.mines@, is_mine_flag()) == self.bomb_count
    }

    /// Whether `(x, y)` lies on the board.
    pub open spec fn in_bounds(self, x: int, y: int) -> bool {
        0 <= x < self.width && 0 <= y < self.height
    }

    /// The row-major position of `(x, y)` in the cell array.
    pub open spec fn index_of(self, x: int, y: int) -> int {
        y * self.width + x
    }

    /// Whether the cell at `(x, y)` holds a mine.  Coordinates off the
    /// board never hold one.
    pub open spec fn mine_at(self, x: int, y: int) -> bool {
        self.in_bounds(x, y) && self.mines@[self.index_of(x, y)]
    }

    /// How many of the up to eight neighbors of `(x, y)` hold a mine,
    /// listed in compass order from the top left, clockwise.  Neighbors off
    /// the board count as safe.
    pub open spec fn neighbor_mines(self, x: int, y: int) -> int {
        b2i(self.mine_at(x - 1, y + 1)) + b2i(self.mine_at(x, y + 1)) + b2i(
            self.mine_at(x + 1, y + 1),
        ) + b2i(self.mine_at(x + 1, y)) + b2i(self.mine_at(x + 1, y - 1)) + b2i(
            self.mine_at(x, y - 1),
        ) + b2i(self.mine_at(x - 1, y - 1)) + b2i(self.mine_at(x - 1, y))
    }

    /// `(x, y)` if it lies on the board, as a one- or zero-element list.
    pub open spec fn cand(self, x: int, y: int) -> Seq<(u32, u32)> {
        if self.in_bounds(x, y) {
            seq![(x as u32, y as u32)]
        } else {
            Seq::empty()
        }
    }

    /// The in-bounds neighbors of `(x, y)`, in compass order from the top
    /// left, clockwise.
    pub open spec fn neighbor_list(self, x: int, y: int) -> Seq<(u32, u32)> {
        self.cand(x - 1, y + 1) + self.cand(x, y + 1) + self.cand(x + 1, y + 1) + self.cand(
            x + 1,
            y,
        ) + self.cand(x + 1, y - 1) + self.cand(x, y - 1) + self.cand(x - 1, y - 1) + self.cand(
            x - 1,
            y,
        )
    }

    /// Reads the mine flag of `(x, y)`, `false` for coordinates off the
    /// board.
    pub fn get(&self, coord: (u32, u32)) -> (r: bool)
        requires
            self.wf(),
        ensures
            r == self.mine_at(coord.0 as int, coord.1 as int),
    {
        let (x, y) = coord;
        if x < self.width && y < self.height {
            proof {
                lemma_index_bound(x as int, y as int, self.width as int, self.height as int);
                lemma_mul_le(y as int, self.width as int, u32::MAX as int, u32::MAX as int);
            }
            let i = (y as u64) * (self.width as u64) + (x as u64);
            self.mines[i as usize]
        } else {
            false
        }
    }

    /// Whether the cell at `coord` holds a mine; `false` off the board.
    pub fn is_bomb_at(&self, coord: (u32, u32)) -> (r: bool)
        requires
            self.wf(),
        ensures
            r == self.mine_at(coord.0 as int, coord.1 as int),
    {
        self.get(coord)
    }

    /// The number of mines among the in-bounds neighbors of `coord`; 0 for
    /// a mine cell itself and for coordinates off the board.
    pub fn bomb_count_at(&self, coord: (u32, u32)) -> (n: u32)
        requires
            self.wf(),
        ensures
            n == if self.in_bounds(coord.0 as int, coord.1 as int) && !self.mine_at(
                coord.0 as int,
                coord.1 as int,
            ) {
                self.neighbor_mines(coord.0 as int, coord.1 as int)
            } else {
                0
            },
            n <= 8,
    {
        let (x, y) = coord;
        if !(x < self.width && y < self.height) {
            return 0;
        }
        if self.is_bomb_at(coord) {
            return 0;
        }
        let mut n: u32 = 0;
        if x > 0 && self.get((x - 1, y + 1)) {
            n += 1;
        }
        if self.get((x, y + 1)) {
            n += 1;
        }
        if self.get((x + 1, y + 1)) {
            n += 1;
        }
        if self.get((x + 1, y)) {
            n += 1;
        }
        if y > 0 && self.get((x + 1, y - 1)) {
            n += 1;
        }
        if y > 0 && self.get((x, y - 1)) {
            n += 1;
        }
        if x > 0 && y > 0 && self.get((x - 1, y - 1)) {
            n += 1;
        }
        if x > 0 && self.get((x - 1, y)) {
            n += 1;
        }
        n
    }

    /// The in-bounds neighbors of `coord`, in compass order from the top
    /// left, clockwise, as `neighbor_list` states them.
    pub fn safe_square_at(&self, coord: (u32, u32)) -> (r: Vec<(u32, u32)>)
        requires
            self.wf(),
        ensures
            r@ == self.neighbor_list(coord.0 as int, coord.1 as int),
    {
        let (x, y) = coord;
        let ghost gx = x as int;
        let ghost gy = y as int;
        let mut v: Vec<(u32, u32)> = Vec::new();
        if x >= 1 && x - 1 < self.width && y < self.height - 1 {
            v.push((x - 1, y + 1));
        }
        assert(v@ =~= self.cand(gx - 1, gy + 1));
        if x < self.width && y < self.height - 1 {
            v.push((x, y + 1));
        }
        assert(v@ =~= self.cand(gx - 1, gy + 1) + self.cand(gx, gy + 1));
        if x < self.width - 1 && y < self.height - 1 {
            v.push((x + 1, y + 1));
        }
        assert(v@ =~= self.cand(gx - 1, gy + 1) + self.cand(gx, gy + 1) + self.cand(
            gx + 1,
            gy + 1,
        ));
        if x < self.width - 1 && y < self.height {
            v.push((x + 1, y));
        }
        assert(v@ =~= self.cand(gx - 1, gy + 1) + self.cand(gx, gy + 1) + self.cand(gx + 1, gy + 1)
            + self.cand(gx + 1, gy));
        if x < self.width - 1 && y >= 1 && y - 1 < self.height {
            v.push((x + 1, y - 1));
        }
        assert(v@ =~= self.cand(gx - 1, gy + 1) + self.cand(gx, gy + 1) + self.cand(gx + 1, gy + 1)
            + self.cand(gx + 1, gy) + self.cand(gx + 1, gy - 1));
        if x < self.width && y >= 1 && y - 1 < self.height {
            v.push((x, y - 1));
        }
        assert(v@ =~= self.cand(gx - 1, gy + 1) + self.cand(gx, gy + 1) + self.cand(gx + 1, gy + 1)
            + self.cand(gx + 1, gy) + self.cand(gx + 1, gy - 1) + self.cand(gx, gy - 1));
        if x >= 1 && x - 1 < self.width && y >= 1 && y - 1 < self.height {
            v.push((x - 1, y - 1));
        }
        assert(v@ =~= self.cand(gx - 1, gy + 1) + self.cand(gx, gy + 1) + self.cand(gx + 1, gy + 1)
            + self.cand(gx + 1, gy) + self.cand(gx + 1, gy - 1) + self.cand(gx, gy - 1)
            + self.cand(gx - 1, gy - 1));
        if x >= 1 && x - 1 < self.width && y < self.height {
            v.push((x - 1, y));
        }
        assert(v@ =~= self.neighbor_list(gx, gy));
        v
    }

    /// The eight-term neighbor mine sum is the number of mines on the
    /// in-bounds neighbor list: `neighborMineCount` counts exactly the
    /// mines among the in-bounds neighbors.
    pub proof fn lemma_neighbor_mines_counts_list(self, x: int, y: int)
        ensures
            self.neighbor_mines(x, y) == count_where(
                self.neighbor_list(x, y),
                |q: (u32, u32)| self.mine_at(q.0 as int, q.1 as int),
            ),
    {
        let p = |q: (u32, u32)| self.mine_at(q.0 as int, q.1 as int);
        assert forall|a: int, b: int|
            count_where(#[trigger] self.cand(a, b), p) == b2i(self.mine_at(a, b)) by {
            if self.in_bounds(a, b) {
                assert(self.cand(a, b) =~= Seq::empty().push((a as u32, b as u32)));
                lemma_count_where_push(Seq::empty(), p, (a as u32, b as u32));
            }
        }
        let c1 = self.cand(x - 1, y + 1);
        let c2 = self.cand(x, y + 1);
        let c3 = self.cand(x + 1, y + 1);
        let c4 = self.cand(x + 1, y);
        let c5 = self.cand(x + 1, y - 1);
        let c6 = self.cand(x, y - 1);
        let c7 = self.cand(x - 1, y - 1);
        let c8 = self.cand(x - 1, y);
        lemma_count_where_concat(c1, c2, p);
        lemma_count_where_concat(c1 + c2, c3, p);
        lemma_count_where_concat(c1 + c2 + c3, c4, p);
        lemma_count_where_concat(c1 + c2 + c3 + c4, c5, p);
        lemma_count_where_concat(c1 + c2 + c3 + c4 + c5, c6, p);
        lemma_count_where_concat(c1 + c2 + c3 + c4 + c5 + c6, c7, p);
        lemma_count_where_concat(c1 + c2 + c3 + c4 + c5 + c6 + c7, c8, p);
    }

    /// A cell next to a mine reports at least one neighbor mine.
    pub proof fn lemma_adjacent_mine_counts(self, x: int, y: int, mx: int, my: int)
        requires
            adjacent(x, y, mx, my),
            self.mine_at(mx, my),
        ensures
            self.neighbor_mines(x, y) >= 1,
    {
    }

    /// Every entry of the neighbor list is an in-bounds neighbor of
    /// `(x, y)`.
    pub proof fn lemma_neighbor_list_sound(self, x: int, y: int)
        ensures
            forall|j: int|
                0 <= j < self.neighbor_list(x, y).len() ==> {
                    let q = #[trigger] self.neighbor_list(x, y)[j];
                    self.in_bounds(q.0 as int, q.1 as int) && adjacent(x, y, q.0 as int, q.1 as int)
                },
    {
    }

    /// Every in-bounds neighbor of `(x, y)` appears in the neighbor list.
    pub proof fn lemma_neighbor_list_complete(self, x: int, y: int, a: int, b: int)
        requires
            adjacent(x, y, a, b),
            self.in_bounds(a, b),
        ensures
            exists|j: int|
                0 <= j < self.neighbor_list(x, y).len() && #[trigger] self.neighbor_list(x, y)[j]
                    == (a as u32, b as u32),
    {
        let l = self.neighbor_list(x, y);
        if a == x - 1 && b == y + 1 {
            assert(l[0] == (a as u32, b as u32));
        } else if a == x && b == y + 1 {
            let j = self.cand(x - 1, y + 1).len() as int;
            assert(l[j] == (a as u32, b as u32));
        } else if a == x + 1 && b == y + 1 {
            let j = (self.cand(x - 1, y + 1) + self.cand(x, y + 1)).len() as int;
            assert(l[j] == (a as u32, b as u32));
        } else if a == x + 1 && b == y {
            let j = (self.cand(x - 1, y + 1) + self.cand(x, y + 1) + self.cand(
                x + 1,
                y + 1,
            )).len() as int;
            assert(l[j] == (a as u32, b as u32));
        } else if a == x + 1 && b == y - 1 {
            let j = (self.cand(x - 1, y + 1) + self.cand(x, y + 1) + self.cand(x + 1, y + 1)
                + self.cand(x + 1, y)).len() as int;
            assert(l[j] == (a as u32, b as u32));
        } else if a == x && b == y - 1 {
            let j = (self.cand(x - 1, y + 1) + self.cand(x, y + 1) + self.cand(x + 1, y + 1)
                + self.cand(x + 1, y) + self.cand(x + 1, y - 1)).len() as int;
            assert(l[j] == (a as u32, b as u32));
        } else if a == x - 1 && b == y - 1 {
            let j = (self.cand(x - 1, y + 1) + self.cand(x, y + 1) + self.cand(x + 1, y + 1)
                + self.cand(x + 1, y) + self.cand(x + 1, y - 1) + self.cand(
                x,
                y - 1,
            )).len() as int;
            assert(l[j] == (a as u32, b as u32));
        } else {
            assert(a == x - 1 && b == y);
            let j = (self.cand(x - 1, y + 1) + self.cand(x, y + 1) + self.cand(x + 1, y + 1)
                + self.cand(x + 1, y) + self.cand(x + 1, y - 1) + self.cand(x, y - 1) + self.cand(
                x - 1,
                y - 1,
            )).len() as int;
            assert(l[j] == (a as u32, b as u32));
        }
    }

    /// Builds a board from an explicit mine layout; the way a caller pins
    /// the mine positions down, where `reset` draws them at random.
    /// Rejected unless the dimensions are positive, the layout has exactly
    /// `width * height` entries, and its mine total fits the count field.
    pub fn with_mines(width: u32, height: u32, mines: Vec<bool>) -> (r: Result<Board, GameError>)
        ensures
            match r {
                Ok(b) => {
                    &&& b.wf()
                    &&& b.width == width
                    &&& b.height == height
                    &&& b.mines@ == mines@
                    &&& b.bomb_count == count_where(mines@, is_mine_flag())
                },
                Err(e) => {
                    &&& e == GameError::InvalidParameters
                    &&& !({
                        &&& width >= 1
                        &&& height >= 1
                        &&& width * height <= usize::MAX
                        &&& mines@.len() == width * height
                        &&& count_where(mines@, is_mine_flag()) <= u32::MAX
                    })
                },
            },
    {
        proof {
            lemma_mul_le(width as int, height as int, u32::MAX as int, u32::MAX as int);
        }
        let area = (width as u64) * (height as u64);
        if width < 1 || height < 1 || area > (usize::MAX as u64) || (mines.len() as u64) != area {
            return Err(GameError::InvalidParameters);
        }
        let mut count: u64 = 0;
        let mut i: usize = 0;
        while i < mines.len()
            invariant
                i <= mines@.len(),
                count == count_where(mines@.subrange(0, i as int), is_mine_flag()),
                count <= i,
            decreases mines@.len() - i,
        {
            proof {
                lemma_count_where_prefix_step(mines@, is_mine_flag(), i as int);
            }
            if mines[i] {
                count += 1;
            }
            i += 1;
        }
        proof {
            lemma_count_where_full(mines@, is_mine_flag());
        }
        if count > (u32::MAX as u64) {
            return Err(GameError::InvalidParameters);
        }
        Ok(Board { width, height, bomb_count: count as u32, mines })
    }

    /// Draws a fresh grid from `options`: the first `bomb_count` cells are
    /// laid out as mines, then one randomized pass swaps each position
    /// with a uniformly drawn one whenever their mine flags differ.  The
    /// pass never changes the mine total, so the board holds exactly
    /// `options.bomb_count` mines.  Impossible parameters are rejected.
    pub fn generate(options: &BoardOptions) -> (r: Result<Board, GameError>)
        ensures
            match r {
                Ok(b) => {
                    &&& options.valid()
                    &&& b.wf()
                    &&& b.width == options.width
                    &&& b.height == options.height
                    &&& b.bomb_count == options.bomb_count
                },
                Err(e) => {
                    &&& e == GameError::InvalidParameters
                    &&& !options.valid()
                },
            },
    {
        if !options.check() {
            return Err(GameError::InvalidParameters);
        }
        proof {
            lemma_mul_le(1, 1, options.width as int, options.height as int);
        }
        let area = options.area() as usize;
        let bombs = options.bomb_count as usize;
        let ghost p = is_mine_flag();
        let mut mines: Vec<bool> = Vec::new();
        let mut i: usize = 0;
        while i < area
            invariant
                i <= area,
                bombs == options.bomb_count,
                bombs <= area,
                mines@.len() == i,
                count_where(mines@, p) == if i <= bombs {
                    i as int
                } else {
                    bombs as int
                },
                p == is_mine_flag(),
            decreases area - i,
        {
            proof {
                lemma_count_where_push(mines@, p, i < bombs);
            }
            mines.push(i < bombs);
            i += 1;
        }
        let mut i: usize = 0;
        while i < area
            invariant
                i <= area,
                area >= 1,
                mines@.len() == area,
                count_where(mines@, p) == bombs,
                bombs == options.bomb_count,
                p == is_mine_flag(),
            decreases area - i,
        {
            let r = random_below(area);
            let at_i = mines[i];
            let at_r = mines[r];
            if at_i != at_r {
                proof {
                    lemma_count_where_update(mines@, p, i as int, false);
                    lemma_count_where_update(mines@.update(i as int, false), p, r as int, true);
                }
                mines.set(i, false);
                mines.set(r, true);
            }
            i += 1;
        }
        Ok(
            Board {
                width: options.width,
                height: options.height,
                bomb_count: options.bomb_count,
                mines,
            },
        )
    }

    /// The two-wide numeric code one cell shows: `10` for a mine, ` 0`
    /// for a safe cell.
    pub open spec fn cell_code(self, x: int, y: int) -> Seq<char> {
        if self.mine_at(x, y) {
            seq!['1', '0']
        } else {
            seq![' ', '0']
        }
    }

    /// The first `upto` cells of one board row, space-joined.
    pub open spec fn row_cells(self, y: int, upto: int) -> Seq<char>
        decreases upto,
    {
        if upto <= 1 {
            self.cell_code(0, y)
        } else {
            self.row_cells(y, upto - 1) + seq![' '] + self.cell_code(upto - 1, y)
        }
    }

    /// One row of the board picture: the cells of row `y`, space-joined
    /// and framed by `|`.
    pub open spec fn row_chars(self, y: int) -> Seq<char> {
        seq!['|'] + self.row_cells(y, self.width as int) + seq!['|']
    }

    /// The dash line that frames the picture above and below.
    pub open spec fn sep_chars(self) -> Seq<char> {
        dash_chars(3 * self.height + 1)
    }

    /// The top separator followed by the first `k` rows, highest row
    /// first, each on its own line.
    pub open spec fn render_upto(self, k: int) -> Seq<char>
        decreases k,
    {
        if k <= 0 {
            self.sep_chars()
        } else {
            self.render_upto(k - 1) + seq!['\n'] + self.row_chars(self.height - k)
        }
    }

    /// The whole board picture: a dash separator, the rows from the top,
    /// and the closing separator, newline-separated with no trailing
    /// newline.
    pub open spec fn render(self) -> Seq<char> {
        self.render_upto(self.height as int) + seq!['\n'] + self.sep_chars()
    }

    /// The board's mine layout as text, exactly as `render` states it:
    /// rows of two-wide cell codes between dash separator lines.
    pub fn console_output(&self) -> (s: String)
        requires
            self.wf(),
        ensures
            s@ == self.render(),
    {
        let mut s = String::new();
        let sep_len: u64 = 3u64 * (self.height as u64) + 1;
        let mut j: u64 = 0;
        while j < sep_len
            invariant
                j <= sep_len,
                s@ == dash_chars(j as int),
            decreases sep_len - j,
        {
            s.push('-');
            j += 1;
        }
        let mut k: u32 = 0;
        while k < self.height
            invariant
                self.wf(),
                k <= self.height,
                s@ == self.render_upto(k as int),
            decreases self.height - k,
        {
            let y = self.height - 1 - k;
            s.push('\n');
            s.push('|');
            let mut x: u32 = 0;
            while x < self.width
                invariant
                    self.wf(),
                    k < self.height,
                    y == self.height - 1 - k,
                    x <= self.width,
                    x == 0 ==> s@ == self.render_upto(k as int) + seq!['\n', '|'],
                    x >= 1 ==> s@ == self.render_upto(k as int) + seq!['\n', '|']
                        + self.row_cells(y as int, x as int),
                decreases self.width - x,
            {
                if x > 0 {
                    s.push(' ');
                }
                if self.get((x, y)) {
                    s.push('1');
                    s.push('0');
                } else {
                    s.push(' ');
                    s.push('0');
                }
                proof {
                    if x == 0 {
                        assert(s@ =~= self.render_upto(k as int) + seq!['\n', '|']
                            + self.row_cells(y as int, 1));
                    } else {
                        assert(s@ =~= self.render_upto(k as int) + seq!['\n', '|']
                            + self.row_cells(y as int, x as int + 1));
                    }
                }
                x += 1;
            }
            s.push('|');
            proof {
                assert(s@ =~= self.render_upto(k as int + 1));
            }
            k += 1;
        }
        s.push('\n');
        let ghost rows_done = s@;
        let mut j: u64 = 0;
        while j < sep_len
            invariant
                j <= sep_len,
                sep_len == 3 * self.height + 1,
                rows_done == self.render_upto(self.height as int) + seq!['\n'],
                s@ == rows_done + dash_chars(j as int),
            decreases sep_len - j,
        {
            s.push('-');
            j += 1;
        }
        proof {
            assert(s@ =~= self.render());
        }
        s
    }

    /// Replaces the grid with a freshly generated one, as `generate` does;
    /// an impossible request leaves the board untouched.
    pub fn reset(&mut self, options: &BoardOptions) -> (r: Result<(), GameError>)
        ensures
            match r {
                Ok(()) => {
                    &&& options.valid()
                    &&& final(self).wf()
                    &&& final(self).width == options.width
                    &&& final(self).height == options.height
                    &&& final(self).bomb_count == options.bomb_count
                },
                Err(e) => {
                    &&& e == GameError::InvalidParameters
                    &&& !options.valid()
                    &&& *final(self) == *old(self)
                },
            },
    {
        match Board::generate(options) {
            Ok(b) => {
                *self = b;
                Ok(())
            },
            Err(e) => Err(e),
        }
    }
}

/// Relies on `String::push`, which appends the given character to the
/// end of the string.
pub assume_specification[ String::push ](s: &mut String, ch: char)
    ensures
        final(s)@ == old(s)@.push(ch),
;

/// Relies on `rand::Rng::gen_range` over `0..n`: it returns a uniformly
/// drawn value of that range, and panics only when the range is empty,
/// which `n >= 1` rules out.
#[verifier::external_body]
fn random_below(n: usize) -> (r: usize)
    requires
        n >= 1,
    ensures
        r < n,
{
    rand::thread_rng().gen_range(0..n)
}

} // verus!
