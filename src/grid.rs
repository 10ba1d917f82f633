//! The placement grid: which fragment occupies each block cell, and the
//! greedy search that fills it from edge fingerprints.

use vstd::prelude::*;
use vstd::arithmetic::div_mod::{
    lemma_div_pos_is_pos, lemma_fundamental_div_mod, lemma_fundamental_div_mod_converse,
};
use itertools::Itertools;

verus! {

/// The abstract grid: `cells` in row-major order, `width` cells per row.
pub struct Layout {
    pub cells: Seq<Option<usize>>,
    pub width: nat,
    pub height: nat,
}

impl Layout {
    pub open spec fn wf(self) -> bool {
        self.cells.len() == self.width * self.height
    }

    pub open spec fn empty(width: nat, height: nat) -> Layout {
        Layout { cells: Seq::new(width * height, |k: int| None), width, height }
    }

    pub open spec fn in_range(self, r: int, c: int) -> bool {
        0 <= r < self.height && 0 <= c < self.width
    }

    /// The fragment at `(r, c)`; nothing outside the grid.
    pub open spec fn get(self, r: int, c: int) -> Option<usize> {
        if self.in_range(r, c) {
            self.cells[r * self.width + c]
        } else {
            None
        }
    }

    /// Number of empty cells from `(r, c)` downward, up to the first filled
    /// cell or the bottom edge.
    pub open spec fn space_for(self, r: int, c: int) -> nat
        decreases self.height - r,
    {
        if 0 <= r < self.height && self.get(r, c) is None {
            1 + self.space_for(r + 1, c)
        } else {
            0
        }
    }

    /// Number of cells directly above `(r, c)` that hold fragment `v`, without
    /// a gap.
    pub open spec fn run_above(self, r: int, c: int, v: usize) -> nat
        decreases r,
    {
        if r > 0 && self.get(r - 1, c) == Some(v) {
            1 + self.run_above(r - 1, c, v)
        } else {
            0
        }
    }

    /// The fragment at `(r, c)` and which of its blocks lies there.
    pub open spec fn key_index(self, r: int, c: int) -> Option<(usize, nat)> {
        match self.get(r, c) {
            Some(v) => Some((v, self.run_above(r, c, v))),
            None => None,
        }
    }

    /// The grid with fragment `index` written into the `n` cells of column
    /// `col` from row `row` down.
    pub open spec fn place(self, row: int, col: int, index: usize, n: int) -> Layout {
        Layout {
            cells: Seq::new(
                self.cells.len(),
                |k: int|
                    if k % (self.width as int) == col && row <= k / (self.width as int) < row + n {
                        Some(index)
                    } else {
                        self.cells[k]
                    },
            ),
            width: self.width,
            height: self.height,
        }
    }

    pub open spec fn all_filled(self) -> bool {
        forall|k: int| 0 <= k < self.cells.len() ==> #[trigger] self.cells[k] is Some
    }

    /// Fragment `k` already lies somewhere in the grid.
    pub open spec fn used(self, k: int) -> bool {
        self.cells.contains(Some(k as usize))
    }

    /// Row `i` of fragment `k` placed at `(row, col)` agrees with the block
    /// to its left: that block's right key equals this block's left key.
    pub open spec fn left_match(
        self,
        keys: Seq<Seq<(u32, u32)>>,
        row: int,
        col: int,
        k: int,
        i: int,
    ) -> bool {
        col > 0 && match self.key_index(row + i, col - 1) {
            Some((kk, ki)) => match edge_at(keys, kk as int, ki as int) {
                Some(e) => e.1 == keys[k][i].0,
                None => false,
            },
            None => false,
        }
    }

    /// Row `i` of fragment `k` placed at `(row, col)` agrees with the block
    /// to its right: that block's left key equals this block's right key.
    pub open spec fn right_match(
        self,
        keys: Seq<Seq<(u32, u32)>>,
        row: int,
        col: int,
        k: int,
        i: int,
    ) -> bool {
        col + 1 < self.width && match self.key_index(row + i, col + 1) {
            Some((kk, ki)) => match edge_at(keys, kk as int, ki as int) {
                Some(e) => e.0 == keys[k][i].1,
                None => false,
            },
            None => false,
        }
    }

    pub open spec fn fits_left(self, keys: Seq<Seq<(u32, u32)>>, row: int, col: int, k: int) -> bool {
        exists|i: int| 0 <= i < keys[k].len() && #[trigger] self.left_match(keys, row, col, k, i)
    }

    pub open spec fn fits_right(self, keys: Seq<Seq<(u32, u32)>>, row: int, col: int, k: int) -> bool {
        exists|i: int| 0 <= i < keys[k].len() && #[trigger] self.right_match(keys, row, col, k, i)
    }

    /// Fragment `k`, not yet placed, fits below `(row, col)` and agrees with
    /// a neighbour on some row.
    pub open spec fn candidate(self, keys: Seq<Seq<(u32, u32)>>, row: int, col: int, k: int) -> bool {
        &&& self.in_range(row, col)
        &&& 0 <= k < keys.len()
        &&& keys[k].len() <= self.space_for(row, col)
        &&& !self.used(k)
        &&& (self.fits_left(keys, row, col, k) || self.fits_right(keys, row, col, k))
    }

    pub open spec fn has_candidate(self, keys: Seq<Seq<(u32, u32)>>) -> bool {
        exists|r: int, c: int, k: int| #[trigger] self.candidate(keys, r, c, k)
    }

    /// The candidate met first when cells are scanned in row-major order and,
    /// within a cell, fragments by index.
    pub open spec fn first_candidate(
        self,
        keys: Seq<Seq<(u32, u32)>>,
        row: int,
        col: int,
        k: int,
    ) -> bool {
        &&& self.candidate(keys, row, col, k)
        &&& forall|r: int, c: int, j: int|
            #[trigger] precedes(r, c, j, row, col, k) ==> !self.candidate(keys, r, c, j)
    }

    /// One round of the search: the first candidate placed, or the grid
    /// unchanged when it is full or no candidate is left.
    pub open spec fn step(self, keys: Seq<Seq<(u32, u32)>>) -> Layout {
        if !self.all_filled() && exists|r: int, c: int, k: int|
            #[trigger] self.first_candidate(keys, r, c, k) {
            let (r, c, k) = choose|r: int, c: int, k: int|
                #[trigger] self.first_candidate(keys, r, c, k);
            self.place(r, c, k as usize, keys[k].len() as int)
        } else {
            self
        }
    }

    pub open spec fn iterate(self, keys: Seq<Seq<(u32, u32)>>, n: nat) -> Layout
        decreases n,
    {
        if n == 0 {
            self
        } else {
            self.iterate(keys, (n - 1) as nat).step(keys)
        }
    }

    /// `fin` is where repeated rounds from this grid come to rest, and
    /// `solved` says whether it is full.
    pub open spec fn solve_outcome(
        self,
        keys: Seq<Seq<(u32, u32)>>,
        fin: Layout,
        solved: bool,
    ) -> bool {
        &&& exists|n: nat| self.iterate(keys, n) == fin
        &&& solved == fin.all_filled()
        &&& (fin.all_filled() || !fin.has_candidate(keys))
    }
}

/// The key pair of block `ki` of fragment `k`, if there is one.
pub open spec fn edge_at(keys: Seq<Seq<(u32, u32)>>, k: int, ki: int) -> Option<(u32, u32)> {
    if 0 <= k < keys.len() && 0 <= ki < keys[k].len() {
        Some(keys[k][ki])
    } else {
        None
    }
}

/// `(r1, c1, k1)` comes before `(r2, c2, k2)` in scan order.
pub open spec fn precedes(r1: int, c1: int, k1: int, r2: int, c2: int, k2: int) -> bool {
    r1 < r2 || (r1 == r2 && (c1 < c2 || (c1 == c2 && k1 < k2)))
}

pub open spec fn edges(keys: &Vec<Vec<(u32, u32)>>) -> Seq<Seq<(u32, u32)>> {
    keys@.map_values(|b: Vec<(u32, u32)>| b@)
}

/// Number of empty cells.
pub open spec fn empties(cells: Seq<Option<usize>>) -> nat
    decreases cells.len(),
{
    if cells.len() == 0 {
        0
    } else {
        empties(cells.drop_last()) + if cells.last() is None {
            1nat
        } else {
            0
        }
    }
}

/// The placement grid: for each block cell, the fragment that covers it.
pub struct FilledPieces {
    filled: Vec<Option<usize>>,
    width: usize,
    height: usize,
}

impl View for FilledPieces {
    type V = Layout;

    closed spec fn view(&self) -> Layout {
        Layout { cells: self.filled@, width: self.width as nat, height: self.height as nat }
    }
}

proof fn lemma_cell_index(w: int, h: int, r: int, c: int)
    requires
        0 <= r < h,
        0 <= c < w,
    ensures
        0 <= r * w + c < w * h,
        (r * w + c) / w == r,
        (r * w + c) % w == c,
{
    assert(r * w + c < w * h) by (nonlinear_arith)
        requires
            0 <= r < h,
            0 <= c < w,
    ;
    assert(0 <= r * w) by (nonlinear_arith)
        requires
            0 <= r,
            0 <= c < w,
    ;
    lemma_fundamental_div_mod_converse(r * w + c, w, r, c);
}

proof fn lemma_space_for_covers(g: Layout, r: int, c: int, i: int)
    requires
        0 <= i < g.space_for(r, c),
    ensures
        r + i < g.height,
        0 <= r,
        g.get(r + i, c) is None,
    decreases i,
{
    if i > 0 {
        lemma_space_for_covers(g, r + 1, c, i - 1);
    }
}

proof fn lemma_empties_mono(a: Seq<Option<usize>>, b: Seq<Option<usize>>)
    requires
        a.len() == b.len(),
        forall|i: int| 0 <= i < a.len() && #[trigger] a[i] is Some ==> b[i] is Some,
    ensures
        empties(b) <= empties(a),
    decreases a.len(),
{
    if a.len() > 0 {
        lemma_empties_mono(a.drop_last(), b.drop_last());
    }
}

proof fn lemma_empties_shrink(a: Seq<Option<usize>>, b: Seq<Option<usize>>, j: int)
    requires
        a.len() == b.len(),
        forall|i: int| 0 <= i < a.len() && #[trigger] a[i] is Some ==> b[i] is Some,
        0 <= j < a.len(),
        a[j] is None,
        b[j] is Some,
    ensures
        empties(b) < empties(a),
    decreases a.len(),
{
    if j == a.len() - 1 {
        lemma_empties_mono(a.drop_last(), b.drop_last());
    } else {
        lemma_empties_shrink(a.drop_last(), b.drop_last(), j);
    }
}

/// Placing a fragment into empty cells inside the grid keeps every filled
/// cell filled and fills the first cell of the run.
proof fn lemma_place_fills(g: Layout, row: int, col: int, index: usize, n: int)
    requires
        g.wf(),
        g.in_range(row, col),
        1 <= n <= g.space_for(row, col),
    ensures
        g.place(row, col, index, n).wf(),
        row + n <= g.height,
        forall|i: int|
            0 <= i < g.cells.len() && #[trigger] g.cells[i] is Some ==> g.place(
                row,
                col,
                index,
                n,
            ).cells[i] is Some,
        0 <= row * g.width + col < g.cells.len(),
        g.cells[row * g.width + col] is None,
        g.place(row, col, index, n).cells[row * g.width + col] is Some,
{
    let w = g.width as int;
    lemma_space_for_covers(g, row, col, n - 1);
    lemma_space_for_covers(g, row, col, 0);
    lemma_cell_index(w, g.height as int, row, col);
    assert forall|i: int|
        0 <= i < g.cells.len() && #[trigger] g.cells[i] is Some implies g.place(
            row,
            col,
            index,
            n,
        ).cells[i] is Some by {
        lemma_fundamental_div_mod(i, w);
        if i % w == col && row <= i / w < row + n {
            lemma_space_for_covers(g, row, col, i / w - row);
            assert(i == w * (i / w) + i % w);
            assert(w * (i / w) == (i / w) * w) by (nonlinear_arith);
            assert(0 <= i / w) by {
                lemma_div_pos_is_pos(i, w);
            }
        }
    }
}

/// When `(row, col, k)` is the first candidate of a grid that is not full,
/// one round places exactly it.
proof fn lemma_step_places(g: Layout, keys: Seq<Seq<(u32, u32)>>, row: int, col: int, k: int)
    requires
        !g.all_filled(),
        g.first_candidate(keys, row, col, k),
    ensures
        g.step(keys) == g.place(row, col, k as usize, keys[k].len() as int),
{
    assert(g.first_candidate(keys, row, col, k));
    let (r, c, j) = choose|r: int, c: int, j: int| #[trigger] g.first_candidate(keys, r, c, j);
    if (r, c, j) != (row, col, k) {
        if precedes(r, c, j, row, col, k) {
            assert(!g.candidate(keys, r, c, j));
        } else {
            assert(precedes(row, col, k, r, c, j));
            assert(!g.candidate(keys, row, col, k));
        }
    }
}

/// A grid that one round leaves unchanged stays unchanged by any number of
/// rounds.
proof fn lemma_iterate_fixed(g: Layout, keys: Seq<Seq<(u32, u32)>>, n: nat)
    requires
        g.step(keys) == g,
    ensures
        g.iterate(keys, n) == g,
    decreases n,
{
    if n > 0 {
        lemma_iterate_fixed(g, keys, (n - 1) as nat);
    }
}

/// Relies on itertools' `Itertools::contains`: whether some cell holds
/// exactly `Some(index)`.
#[verifier::external_body]
fn contains_entry(cells: &Vec<Option<usize>>, index: usize) -> (r: bool)
    ensures
        r == cells@.contains(Some(index)),
{
    cells.iter().contains(&Some(index))
}

/// On a freshly created grid, the free run below any cell reaches the bottom
/// edge: `height - r` cells.
pub proof fn empty_grid_space_for(width: nat, height: nat, r: int, c: int)
    requires
        0 <= r < height,
        0 <= c < width,
    ensures
        Layout::empty(width, height).space_for(r, c) == height - r,
    decreases height - r,
{
    let g = Layout::empty(width, height);
    lemma_cell_index(width as int, height as int, r, c);
    assert(g.get(r, c) is None);
    if r + 1 < height {
        empty_grid_space_for(width, height, r + 1, c);
    } else {
        assert(g.space_for(r + 1, c) == 0);
    }
}

/// Solving a grid that an earlier solve filled completely reports success
/// again and changes nothing.
pub proof fn solve_after_success_is_idle(
    g0: Layout,
    keys: Seq<Seq<(u32, u32)>>,
    g1: Layout,
    g2: Layout,
    solved: bool,
)
    requires
        g0.solve_outcome(keys, g1, true),
        g1.solve_outcome(keys, g2, solved),
    ensures
        solved,
        g2 == g1,
{
    let n = choose|n: nat| g1.iterate(keys, n) == g2;
    lemma_iterate_fixed(g1, keys, n);
}

proof fn lemma_iterate_past_rest(g: Layout, keys: Seq<Seq<(u32, u32)>>, n: nat, m: nat)
    requires
        g.iterate(keys, n).step(keys) == g.iterate(keys, n),
        n <= m,
    ensures
        g.iterate(keys, m) == g.iterate(keys, n),
    decreases m,
{
    if m > n {
        lemma_iterate_past_rest(g, keys, n, (m - 1) as nat);
    }
}

proof fn lemma_outcome_rests(g: Layout, keys: Seq<Seq<(u32, u32)>>, fin: Layout, solved: bool)
    requires
        g.solve_outcome(keys, fin, solved),
    ensures
        fin.step(keys) == fin,
{
    if !fin.all_filled() && exists|r: int, c: int, k: int| #[trigger] fin.first_candidate(keys, r, c, k) {
        let (r, c, k) = choose|r: int, c: int, k: int| #[trigger] fin.first_candidate(keys, r, c, k);
        assert(fin.candidate(keys, r, c, k));
    }
}

/// The search is deterministic: from one grid and one key table, it comes
/// to rest on one grid with one verdict.
pub proof fn solve_outcome_is_unique(
    g: Layout,
    keys: Seq<Seq<(u32, u32)>>,
    fin1: Layout,
    solved1: bool,
    fin2: Layout,
    solved2: bool,
)
    requires
        g.solve_outcome(keys, fin1, solved1),
        g.solve_outcome(keys, fin2, solved2),
    ensures
        fin1 == fin2,
        solved1 == solved2,
{
    let n1 = choose|n: nat| g.iterate(keys, n) == fin1;
    let n2 = choose|n: nat| g.iterate(keys, n) == fin2;
    lemma_outcome_rests(g, keys, fin1, solved1);
    lemma_outcome_rests(g, keys, fin2, solved2);
    if n1 <= n2 {
        lemma_iterate_past_rest(g, keys, n1, n2);
    } else {
        lemma_iterate_past_rest(g, keys, n2, n1);
    }
}

impl FilledPieces {
    pub open spec fn wf(&self) -> bool {
        self@.wf()
    }

    /// An empty grid of `width` by `height` cells.
    pub fn new(width: usize, height: usize) -> (r: Self)
        requires
            width * height <= usize::MAX,
        ensures
            r.wf(),
            r@ == Layout::empty(width as nat, height as nat),
    {
        let n = width * height;
        let mut filled: Vec<Option<usize>> = Vec::new();
        let mut k: usize = 0;
        while k < n
            invariant
                k <= n,
                filled@ =~= Seq::new(k as nat, |j: int| None::<usize>),
            decreases n - k,
        {
            filled.push(None);
            k += 1;
        }
        let r = FilledPieces { filled, width, height };
        assert(r@.cells =~= Layout::empty(width as nat, height as nat).cells);
        r
    }

    /// Number of cells in a row.
    pub fn width(&self) -> (r: usize)
        ensures
            r == self@.width,
    {
        self.width
    }

    /// Number of cells in a column.
    pub fn height(&self) -> (r: usize)
        ensures
            r == self@.height,
    {
        self.height
    }

    fn in_range(&self, row: usize, column: usize) -> (r: bool)
        ensures
            r == self@.in_range(row as int, column as int),
    {
        row < self.height && column < self.width
    }

    fn idx(&self, row: usize, column: usize) -> (r: Option<usize>)
        requires
            self.wf(),
        ensures
            r is Some == self@.in_range(row as int, column as int),
            r matches Some(i) ==> i == row * self@.width + column && i < self@.cells.len(),
    {
        if self.in_range(row, column) {
            let n = self.filled.len();
            proof {
                lemma_cell_index(self.width as int, self.height as int, row as int, column as int);
                assert(row * self.width + column < n);
            }
            Some(row * self.width + column)
        } else {
            None
        }
    }

    /// The fragment at `(row, column)`; `None` when the cell is empty or
    /// outside the grid.
    pub fn get(&self, row: usize, column: usize) -> (r: Option<usize>)
        requires
            self.wf(),
        ensures
            r == self@.get(row as int, column as int),
    {
        match self.idx(row, column) {
            Some(i) => self.filled[i],
            None => None,
        }
    }

    /// Writes fragment `index` into `height` cells of `column` from `row`
    /// down, when they lie inside the grid; otherwise changes nothing and
    /// returns false. Whether the cells were empty is the caller's concern.
    pub fn set(&mut self, row: usize, column: usize, index: usize, height: usize) -> (r: bool)
        requires
            old(self).wf(),
            height >= 1,
        ensures
            final(self).wf(),
            r == (column < old(self)@.width && row + height <= old(self)@.height),
            r ==> final(self)@ == old(self)@.place(row as int, column as int, index, height as int),
            !r ==> final(self)@ == old(self)@,
    {
        if !(column < self.width && row < self.height && height <= self.height - row) {
            return false;
        }
        let ghost g0 = self@;
        let ghost w = self.width as int;
        let end = row + height;
        let mut r: usize = row;
        assert(g0.place(row as int, column as int, index, 0).cells =~= g0.cells);
        while r < end
            invariant
                g0 == old(self)@,
                w == g0.width,
                self.wf(),
                self.width == g0.width,
                self.height == g0.height,
                column < self.width,
                row <= r <= end <= self.height,
                self@ == g0.place(row as int, column as int, index, r - row),
            decreases end - r,
        {
            let i = self.idx(r, column).unwrap();
            self.filled.set(i, Some(index));
            proof {
                lemma_cell_index(w, self.height as int, r as int, column as int);
                assert forall|k: int| 0 <= k < self@.cells.len() implies #[trigger] self@.cells[k]
                    == g0.place(row as int, column as int, index, r + 1 - row).cells[k] by {
                    lemma_fundamental_div_mod(k, w);
                    if k % w == column && k / w == r {
                        assert(k == w * (k / w) + k % w);
                        assert(w * (k / w) == (k / w) * w) by (nonlinear_arith);
                    }
                }
                assert(self@.cells =~= g0.place(row as int, column as int, index, r + 1 - row).cells);
            }
            r += 1;
        }
        true
    }

    /// Number of empty cells from `(row, column)` downward.
    pub fn space_for(&self, row: usize, column: usize) -> (r: usize)
        requires
            self.wf(),
        ensures
            r == self@.space_for(row as int, column as int),
    {
        let mut r: usize = row;
        while r < self.height && self.get(r, column).is_none()
            invariant
                self.wf(),
                row <= r,
                row < self.height ==> r <= self.height,
                self@.space_for(row as int, column as int) == (r - row) + self@.space_for(
                    r as int,
                    column as int,
                ),
            decreases self.height - r,
        {
            r += 1;
        }
        r - row
    }

    /// All cells in row-major order.
    pub fn indices(&self) -> (r: Vec<(usize, usize)>)
        requires
            self.wf(),
        ensures
            r@.len() == self@.width * self@.height,
            forall|k: int|
                0 <= k < r@.len() ==> (#[trigger] r@[k]).0 == k / (self@.width as int) && r@[k].1
                    == k % (self@.width as int),
    {
        let mut out: Vec<(usize, usize)> = Vec::new();
        let ghost w = self.width as int;
        let mut r: usize = 0;
        while r < self.height
            invariant
                self.wf(),
                w == self.width,
                r <= self.height,
                out@.len() == r * w,
                forall|k: int|
                    0 <= k < out@.len() ==> #[trigger] out@[k].0 == k / w && out@[k].1 == k % w,
            decreases self.height - r,
        {
            let mut c: usize = 0;
            while c < self.width
                invariant
                    self.wf(),
                    w == self.width,
                    r < self.height,
                    c <= self.width,
                    out@.len() == r * w + c,
                    forall|k: int|
                        0 <= k < out@.len() ==> #[trigger] out@[k].0 == k / w && out@[k].1 == k % w,
                decreases self.width - c,
            {
                proof {
                    lemma_cell_index(w, self.height as int, r as int, c as int);
                }
                out.push((r, c));
                c += 1;
            }
            assert((r + 1) * w == r * w + w) by (nonlinear_arith);
            r += 1;
        }
        assert(self@.width * self@.height == self.height * w) by (nonlinear_arith)
            requires
                w == self@.width,
                self.height == self@.height,
        ;
        assert forall|k: int| 0 <= k < out@.len() implies (#[trigger] out@[k]).0 == k / (
        self@.width as int) && out@[k].1 == k % (self@.width as int) by {
            assert(out@[k].0 == k / w && out@[k].1 == k % w);
        }
        out
    }

    /// The fragment at `(row, column)` with the number of cells directly
    /// above that hold it too: which of its blocks lies there.
    pub fn key_index(&self, row: usize, column: usize) -> (r: Option<(usize, usize)>)
        requires
            self.wf(),
        ensures
            match r {
                Some((v, o)) => self@.key_index(row as int, column as int) == Some((v, o as nat))
                    && o <= row,
                None => self@.key_index(row as int, column as int) is None,
            },
    {
        let v = match self.get(row, column) {
            Some(v) => v,
            None => return None,
        };
        let mut r: usize = row;
        while r > 0 && self.get(r - 1, column) == Some(v)
            invariant
                self.wf(),
                r <= row,
                self@.run_above(row as int, column as int, v) == (row - r) + self@.run_above(
                    r as int,
                    column as int,
                    v,
                ),
            decreases r,
        {
            r -= 1;
        }
        Some((v, row - r))
    }

    fn all_filled(&self) -> (r: bool)
        ensures
            r == self@.all_filled(),
    {
        let mut k: usize = 0;
        while k < self.filled.len()
            invariant
                k <= self@.cells.len(),
                forall|j: int| 0 <= j < k ==> #[trigger] self@.cells[j] is Some,
            decreases self@.cells.len() - k,
        {
            if self.filled[k].is_none() {
                return false;
            }
            k += 1;
        }
        true
    }

    fn key_used(&self, index: usize) -> (r: bool)
        ensures
            r == self@.used(index as int),
    {
        contains_entry(&self.filled, index)
    }

    fn fits_left(&self, keys: &Vec<Vec<(u32, u32)>>, row: usize, column: usize, k: usize) -> (r:
        bool)
        requires
            self.wf(),
            self@.in_range(row as int, column as int),
            k < keys@.len(),
            keys@[k as int]@.len() <= self@.space_for(row as int, column as int),
        ensures
            r == self@.fits_left(edges(keys), row as int, column as int, k as int),
    {
        let ghost ks = edges(keys);
        if column == 0 {
            return false;
        }
        let n = keys[k].len();
        let mut i: usize = 0;
        while i < n
            invariant
                self.wf(),
                ks == edges(keys),
                0 < column,
                k < keys@.len(),
                n == ks[k as int].len(),
                n <= self@.space_for(row as int, column as int),
                i <= n,
                forall|j: int|
                    0 <= j < i ==> !#[trigger] self@.left_match(ks, row as int, column as int, k as int, j),
            decreases n - i,
        {
            proof {
                lemma_space_for_covers(self@, row as int, column as int, i as int);
            }
            match self.key_index(row + i, column - 1) {
                Some((kk, ki)) => {
                    if kk < keys.len() && ki < keys[kk].len() && keys[kk][ki].1 == keys[k][i].0 {
                        assert(self@.left_match(ks, row as int, column as int, k as int, i as int));
                        return true;
                    }
                },
                None => {},
            }
            i += 1;
        }
        false
    }

    fn fits_right(&self, keys: &Vec<Vec<(u32, u32)>>, row: usize, column: usize, k: usize) -> (r:
        bool)
        requires
            self.wf(),
            self@.in_range(row as int, column as int),
            k < keys@.len(),
            keys@[k as int]@.len() <= self@.space_for(row as int, column as int),
        ensures
            r == self@.fits_right(edges(keys), row as int, column as int, k as int),
    {
        let ghost ks = edges(keys);
        if column + 1 >= self.width {
            return false;
        }
        let n = keys[k].len();
        let mut i: usize = 0;
        while i < n
            invariant
                self.wf(),
                ks == edges(keys),
                column + 1 < self@.width,
                k < keys@.len(),
                n == ks[k as int].len(),
                n <= self@.space_for(row as int, column as int),
                i <= n,
                forall|j: int|
                    0 <= j < i ==> !#[trigger] self@.right_match(ks, row as int, column as int, k as int, j),
            decreases n - i,
        {
            proof {
                lemma_space_for_covers(self@, row as int, column as int, i as int);
            }
            match self.key_index(row + i, column + 1) {
                Some((kk, ki)) => {
                    if kk < keys.len() && ki < keys[kk].len() && keys[kk][ki].0 == keys[k][i].1 {
                        assert(self@.right_match(ks, row as int, column as int, k as int, i as int));
                        return true;
                    }
                },
                None => {},
            }
            i += 1;
        }
        false
    }

    /// The first candidate in scan order, if any.
    fn find_candidate(&self, keys: &Vec<Vec<(u32, u32)>>) -> (r: Option<(usize, usize, usize)>)
        requires
            self.wf(),
        ensures
            match r {
                Some((row, col, k)) => self@.first_candidate(edges(keys), row as int, col as int, k as int),
                None => !self@.has_candidate(edges(keys)),
            },
    {
        let ghost ks = edges(keys);
        let mut row: usize = 0;
        while row < self.height
            invariant
                self.wf(),
                ks == edges(keys),
                row <= self@.height,
                forall|r: int, c: int, j: int| r < row ==> !#[trigger] self@.candidate(ks, r, c, j),
            decreases self.height - row,
        {
            let mut col: usize = 0;
            while col < self.width
                invariant
                    self.wf(),
                    ks == edges(keys),
                    row < self@.height,
                    col <= self@.width,
                    forall|r: int, c: int, j: int| r < row ==> !#[trigger] self@.candidate(ks, r, c, j),
                    forall|c: int, j: int| c < col ==> !#[trigger] self@.candidate(ks, row as int, c, j),
                decreases self.width - col,
            {
                let mut k: usize = 0;
                while k < keys.len()
                    invariant
                        self.wf(),
                        ks == edges(keys),
                        row < self@.height,
                        col < self@.width,
                        k <= keys@.len(),
                        forall|r: int, c: int, j: int| r < row ==> !#[trigger] self@.candidate(ks, r, c, j),
                        forall|c: int, j: int| c < col ==> !#[trigger] self@.candidate(ks, row as int, c, j),
                        forall|j: int| j < k ==> !#[trigger] self@.candidate(ks, row as int, col as int, j),
                    decreases keys@.len() - k,
                {
                    let space = self.space_for(row, col);
                    if space >= keys[k].len() && !self.key_used(k) {
                        let fl = self.fits_left(keys, row, col, k);
                        let fr = self.fits_right(keys, row, col, k);
                        if fl || fr {
                            proof {
                                assert forall|r: int, c: int, j: int|
                                    #[trigger] precedes(r, c, j, row as int, col as int, k as int)
                                    implies !self@.candidate(ks, r, c, j) by {
                                    if r < row {
                                    } else if c < col {
                                    } else {
                                    }
                                }
                            }
                            return Some((row, col, k));
                        }
                    }
                    k += 1;
                }
                proof {
                    assert forall|j: int| !#[trigger] self@.candidate(ks, row as int, col as int, j) by {
                        if j < k {
                        }
                    }
                }
                col += 1;
            }
            proof {
                assert forall|c: int, j: int| !#[trigger] self@.candidate(ks, row as int, c, j) by {
                    if c < col {
                    }
                }
            }
            row += 1;
        }
        assert forall|r: int, c: int, j: int| !#[trigger] self@.candidate(ks, r, c, j) by {
            if r < row {
            }
        }
        None
    }

    /// Fills the grid greedily from edge agreement: again and again, the
    /// first candidate in scan order is placed, until the grid is full
    /// (true) or no candidate is left (false). Each fragment's key list
    /// must hold at least one block.
    pub fn solve(&mut self, keys: &Vec<Vec<(u32, u32)>>) -> (r: bool)
        requires
            old(self).wf(),
            forall|k: int| 0 <= k < keys@.len() ==> #[trigger] keys@[k]@.len() >= 1,
        ensures
            final(self).wf(),
            final(self)@.width == old(self)@.width,
            final(self)@.height == old(self)@.height,
            old(self)@.solve_outcome(edges(keys), final(self)@, r),
    {
        let ghost start = self@;
        let ghost ks = edges(keys);
        let ghost mut n: nat = 0;
        loop
            invariant
                self.wf(),
                ks == edges(keys),
                start == old(self)@,
                self@.width == start.width,
                self@.height == start.height,
                forall|k: int| 0 <= k < keys@.len() ==> #[trigger] keys@[k]@.len() >= 1,
                start.iterate(ks, n) == self@,
            decreases empties(self@.cells),
        {
            if self.all_filled() {
                assert(start.iterate(ks, n) == self@);
                return true;
            }
            match self.find_candidate(keys) {
                None => {
                    assert(start.iterate(ks, n) == self@);
                    return false;
                },
                Some((row, col, k)) => {
                    let ghost before = self@;
                    proof {
                        lemma_step_places(self@, ks, row as int, col as int, k as int);
                        lemma_place_fills(self@, row as int, col as int, k, ks[k as int].len() as int);
                    }
                    let ok = self.set(row, col, k, keys[k].len());
                    proof {
                        assert(ok);
                        lemma_empties_shrink(
                            before.cells,
                            self@.cells,
                            row * before.width + col,
                        );
                        n = n + 1;
                    }
                },
            }
        }
    }
}

} // verus!
