use vstd::prelude::*;

use crate::direction::{
    dx_of, dy_of, is_dir, lemma_dir_bits, lemma_or_bit, lemma_small_mask, opposite_of, E, N, S, W,
};

verus! {

/// A rectangular grid of passage masks, `grid[y][x]`, `size == (width, height)`.
pub struct Maze {
    pub grid: Vec<Vec<u8>>,
    pub size: (u64, u64),
}

pub open spec fn in_bounds(w: int, h: int, x: int, y: int) -> bool {
    0 <= x < w && 0 <= y < h
}

/// The mask `m` has the passage bit `d` open.
pub open spec fn has(m: u8, d: u8) -> bool {
    m & d != 0
}

/// The mask of cell (x, y) of a grid given row by row.
pub open spec fn cell_of(g: Seq<Vec<u8>>, x: int, y: int) -> u8 {
    g[y]@[x]
}

/// `h` rows of `w` cells each.
pub open spec fn shaped(g: Seq<Vec<u8>>, w: int, h: int) -> bool {
    &&& g.len() == h
    &&& forall|y: int| 0 <= y < h ==> (#[trigger] g[y]@).len() == w
}

/// Every mask holds direction bits only.
pub open spec fn small_masks(g: Seq<Vec<u8>>, w: int, h: int) -> bool {
    forall|x: int, y: int| in_bounds(w, h, x, y) ==> #[trigger] cell_of(g, x, y) < 16
}

/// Every open passage leads to a cell of the grid that has the opposite
/// passage open.
pub open spec fn symmetric(g: Seq<Vec<u8>>, w: int, h: int) -> bool {
    forall|x: int, y: int, d: u8|
        in_bounds(w, h, x, y) && is_dir(d) && #[trigger] has(cell_of(g, x, y), d) ==> {
            &&& in_bounds(w, h, x + dx_of(d), y + dy_of(d))
            &&& has(cell_of(g, x + dx_of(d), y + dy_of(d)), opposite_of(d))
        }
}

/// Cell (a, b) reaches cell (sx, sy) in at most `k` moves, each from a cell
/// of the grid through one of its open passages.
pub open spec fn linked(g: Seq<Vec<u8>>, w: int, h: int, sx: int, sy: int, a: int, b: int, k: nat) -> bool
    decreases k,
{
    (a == sx && b == sy) || (k > 0 && in_bounds(w, h, a, b) && exists|d: u8|
        is_dir(d) && #[trigger] has(cell_of(g, a, b), d) && linked(
            g,
            w,
            h,
            sx,
            sy,
            a + dx_of(d),
            b + dy_of(d),
            (k - 1) as nat,
        ))
}

/// Opening more passages keeps every link.
pub proof fn lemma_linked_grows(g0: Seq<Vec<u8>>, g2: Seq<Vec<u8>>, w: int, h: int, sx: int, sy: int, a: int, b: int, k: nat)
    requires
        forall|p: int, q: int, e: u8| in_bounds(w, h, p, q) && #[trigger] has(cell_of(g0, p, q), e) ==> has(cell_of(g2, p, q), e),
        linked(g0, w, h, sx, sy, a, b, k),
    ensures
        linked(g2, w, h, sx, sy, a, b, k),
    decreases k,
{
    if !(a == sx && b == sy) {
        let d = choose|d: u8|
            is_dir(d) && #[trigger] has(cell_of(g0, a, b), d) && linked(
                g0,
                w,
                h,
                sx,
                sy,
                a + dx_of(d),
                b + dy_of(d),
                (k - 1) as nat,
            );
        lemma_linked_grows(g0, g2, w, h, sx, sy, a + dx_of(d), b + dy_of(d), (k - 1) as nat);
        assert(has(cell_of(g2, a, b), d));
    }
}

/// Weighs a mask 1 when it is empty, else 0.
pub open spec fn empty_weight() -> spec_fn(u8) -> nat {
    |m: u8| if m == 0 {
        1nat
    } else {
        0nat
    }
}

/// Weighs a mask by the number of its four direction bits that are set.
pub open spec fn bit_weight() -> spec_fn(u8) -> nat {
    |m: u8|
        (if has(m, N) {
            1nat
        } else {
            0nat
        }) + (if has(m, S) {
            1nat
        } else {
            0nat
        }) + (if has(m, E) {
            1nat
        } else {
            0nat
        }) + (if has(m, W) {
            1nat
        } else {
            0nat
        })
}

/// The total weight of the masks of a row.
pub open spec fn row_sum(r: Seq<u8>, f: spec_fn(u8) -> nat) -> nat
    decreases r.len(),
{
    if r.len() == 0 {
        0
    } else {
        row_sum(r.drop_last(), f) + f(r.last())
    }
}

/// The total weight of the masks of a grid.
pub open spec fn grid_sum(g: Seq<Vec<u8>>, f: spec_fn(u8) -> nat) -> nat
    decreases g.len(),
{
    if g.len() == 0 {
        0
    } else {
        grid_sum(g.drop_last(), f) + row_sum(g.last()@, f)
    }
}

/// Number of empty masks in a grid.
pub open spec fn grid_zeros(g: Seq<Vec<u8>>) -> nat {
    grid_sum(g, empty_weight())
}

/// Number of open passage bits in a grid: twice the number of passages when
/// the grid is symmetric.
pub open spec fn passage_bits(g: Seq<Vec<u8>>) -> nat {
    grid_sum(g, bit_weight())
}

proof fn lemma_row_sum_update(r: Seq<u8>, i: int, v: u8, f: spec_fn(u8) -> nat)
    requires
        0 <= i < r.len(),
    ensures
        row_sum(r.update(i, v), f) + f(r[i]) == row_sum(r, f) + f(v),
    decreases r.len(),
{
    let r2 = r.update(i, v);
    if i == r.len() - 1 {
        assert(r2.drop_last() =~= r.drop_last());
    } else {
        assert(r2.drop_last() =~= r.drop_last().update(i, v));
        lemma_row_sum_update(r.drop_last(), i, v, f);
    }
}

/// Changing one mask of row `y` changes the total weight by what that one
/// mask's weight changed.
pub proof fn lemma_grid_sum_update(g1: Seq<Vec<u8>>, g2: Seq<Vec<u8>>, x: int, y: int, v: u8, f: spec_fn(u8) -> nat)
    requires
        0 <= y < g1.len(),
        0 <= x < g1[y]@.len(),
        g2.len() == g1.len(),
        forall|b: int| 0 <= b < g1.len() && b != y ==> (#[trigger] g2[b])@ == g1[b]@,
        g2[y]@ == g1[y]@.update(x, v),
    ensures
        grid_sum(g2, f) + f(g1[y]@[x]) == grid_sum(g1, f) + f(v),
    decreases g1.len(),
{
    let n = g1.len() - 1;
    if y == n {
        assert forall|b: int| 0 <= b < n implies (#[trigger] g2.drop_last()[b])@
            == g1.drop_last()[b]@ by {
            assert(g2[b]@ == g1[b]@);
        }
        lemma_grid_sum_same(g1.drop_last(), g2.drop_last(), f);
        lemma_row_sum_update(g1[y]@, x, v, f);
    } else {
        assert(g2[n]@ == g1[n]@);
        assert forall|b: int| 0 <= b < n && b != y implies (#[trigger] g2.drop_last()[b])@
            == g1.drop_last()[b]@ by {
            assert(g2[b]@ == g1[b]@);
        }
        lemma_grid_sum_update(g1.drop_last(), g2.drop_last(), x, y, v, f);
    }
}

proof fn lemma_grid_sum_same(g1: Seq<Vec<u8>>, g2: Seq<Vec<u8>>, f: spec_fn(u8) -> nat)
    requires
        g2.len() == g1.len(),
        forall|b: int| 0 <= b < g1.len() ==> (#[trigger] g2[b])@ == g1[b]@,
    ensures
        grid_sum(g2, f) == grid_sum(g1, f),
    decreases g1.len(),
{
    if g1.len() > 0 {
        let n = g1.len() - 1;
        assert(g2[n]@ == g1[n]@);
        assert forall|b: int| 0 <= b < n implies (#[trigger] g2.drop_last()[b])@
            == g1.drop_last()[b]@ by {
            assert(g2[b]@ == g1[b]@);
        }
        lemma_grid_sum_same(g1.drop_last(), g2.drop_last(), f);
    }
}

proof fn lemma_row_sum_const(r: Seq<u8>, f: spec_fn(u8) -> nat, k: nat)
    requires
        forall|i: int| 0 <= i < r.len() ==> f(#[trigger] r[i]) == k,
    ensures
        row_sum(r, f) == r.len() * k,
    decreases r.len(),
{
    if r.len() > 0 {
        lemma_row_sum_const(r.drop_last(), f, k);
        assert(f(r[r.len() - 1]) == k);
        assert((r.len() - 1) * k + k == r.len() * k) by (nonlinear_arith);
    }
}

/// A grid of `h` rows of `w` masks that all weigh `k` weighs `w * h * k`.
pub proof fn lemma_grid_sum_const(g: Seq<Vec<u8>>, w: int, h: int, f: spec_fn(u8) -> nat, k: nat)
    requires
        shaped(g, w, h),
        forall|x: int, y: int| in_bounds(w, h, x, y) ==> f(#[trigger] cell_of(g, x, y)) == k,
    ensures
        grid_sum(g, f) == w * h * k,
    decreases h,
{
    if h > 0 {
        let g0 = g.drop_last();
        assert forall|x: int, y: int| in_bounds(w, h - 1, x, y) implies f(#[trigger] cell_of(g0, x, y)) == k by {
            assert(cell_of(g0, x, y) == cell_of(g, x, y));
        }
        assert forall|y: int| 0 <= y < h - 1 implies (#[trigger] g0[y]@).len() == w by {
            assert(g0[y] == g[y]);
        }
        lemma_grid_sum_const(g0, w, h - 1, f, k);
        let r = g[h - 1]@;
        assert(r.len() == w);
        assert forall|i: int| 0 <= i < r.len() implies f(#[trigger] r[i]) == k by {
            assert(r[i] == cell_of(g, i, h - 1));
        }
        lemma_row_sum_const(r, f, k);
        assert(w * (h - 1) * k + w * k == w * h * k) by (nonlinear_arith);
    } else {
        assert(w * h * k == 0) by (nonlinear_arith)
            requires
                h == 0,
        ;
    }
}

/// Or-ing a direction that was not set into a mask adds one bit.
pub proof fn lemma_bit_weight_or(c: u8, d: u8)
    requires
        is_dir(d),
        !(has(c, d)),
    ensures
        bit_weight()(c | d) == bit_weight()(c) + 1,
{
    lemma_or_bit(c, d, N);
    lemma_or_bit(c, d, S);
    lemma_or_bit(c, d, E);
    lemma_or_bit(c, d, W);
    lemma_dir_bits(d, N);
    lemma_dir_bits(d, S);
    lemma_dir_bits(d, E);
    lemma_dir_bits(d, W);
}

/// The character under cell (x, y): open when the cell and the one below
/// are both untouched, or when the passage south is open.
pub open spec fn floor_char(g: Seq<Vec<u8>>, h: int, x: int, y: int) -> char {
    let c = cell_of(g, x, y);
    if c == 0 && y + 1 < h && cell_of(g, x, y + 1) == 0 {
        ' '
    } else if has(c, S) {
        ' '
    } else {
        '_'
    }
}

/// The character right of cell (x, y): a wall `|` unless the passage east is
/// open or both cells are untouched, and then a floor or a gap below it.
pub open spec fn side_char(g: Seq<Vec<u8>>, w: int, h: int, x: int, y: int) -> char {
    let c = cell_of(g, x, y);
    if c == 0 && x + 1 < w && cell_of(g, x + 1, y) == 0 {
        if y + 1 < h && (cell_of(g, x, y + 1) == 0 || cell_of(g, x + 1, y + 1) == 0) {
            ' '
        } else {
            '_'
        }
    } else if has(c, E) {
        if has(c | cell_of(g, x + 1, y), S) {
            ' '
        } else {
            '_'
        }
    } else {
        '|'
    }
}

/// The text of row y up to its first `k` cells: a `|`, then two
/// characters per cell.
pub open spec fn row_text(g: Seq<Vec<u8>>, w: int, h: int, y: int, k: int) -> Seq<char>
    decreases k,
{
    if k <= 0 {
        seq!['|']
    } else {
        row_text(g, w, h, y, k - 1) + seq![floor_char(g, h, k - 1, y), side_char(g, w, h, k - 1, y)]
    }
}

/// The top border: `2 * w + 1` underscores and a line break.
pub open spec fn top_line(w: int) -> Seq<char> {
    Seq::new((2 * w + 1) as nat, |i: int| '_').push('\n')
}

/// The drawing of the first `j` rows under the top border, a line each.
pub open spec fn maze_text(g: Seq<Vec<u8>>, w: int, h: int, j: int) -> Seq<char>
    decreases j,
{
    if j <= 0 {
        top_line(w)
    } else {
        maze_text(g, w, h, j - 1) + row_text(g, w, h, j - 1, w) + seq!['\n']
    }
}

/// In a single-cell maze whose passages match, the one cell has no passage.
pub proof fn lemma_single_cell_closed(m: Maze)
    requires
        m.wf(),
        m.passages_match(),
        m.width() == 1,
        m.height() == 1,
    ensures
        m.cell(0, 0) == 0,
{
    let c = m.cell(0, 0);
    assert(in_bounds(1, 1, 0, 0));
    assert(!(has(c, N))) by {
        if has(c, N) {
            assert(in_bounds(1, 1, 0 + dx_of(N), 0 + dy_of(N)));
        }
    }
    assert(!(has(c, S))) by {
        if has(c, S) {
            assert(in_bounds(1, 1, 0 + dx_of(S), 0 + dy_of(S)));
        }
    }
    assert(!(has(c, E))) by {
        if has(c, E) {
            assert(in_bounds(1, 1, 0 + dx_of(E), 0 + dy_of(E)));
        }
    }
    assert(!(has(c, W))) by {
        if has(c, W) {
            assert(in_bounds(1, 1, 0 + dx_of(W), 0 + dy_of(W)));
        }
    }
    assert(cell_of(m.grid@, 0, 0) < 16);
    lemma_small_mask(c, N);
}

/// Relies on std's `String: FromIterator<char>`: the characters, in order.
#[verifier::external_body]
fn string_of(cs: &Vec<char>) -> (r: String)
    ensures
        r@ == cs@,
{
    cs.iter().collect()
}

impl Maze {
    pub open spec fn width(&self) -> int {
        self.size.0 as int
    }

    pub open spec fn height(&self) -> int {
        self.size.1 as int
    }

    /// The mask of cell (x, y).
    pub open spec fn cell(&self, x: int, y: int) -> u8 {
        cell_of(self.grid@, x, y)
    }

    /// Every mask holds direction bits only, and every open passage leads to
    /// a cell of the grid that has the opposite passage open.
    pub open spec fn passages_match(&self) -> bool {
        &&& small_masks(self.grid@, self.width(), self.height())
        &&& symmetric(self.grid@, self.width(), self.height())
    }

    /// Every cell has an open passage, unless the grid is a single cell.
    pub open spec fn all_reached(&self) -> bool {
        self.width() > 1 || self.height() > 1 ==> forall|x: int, y: int|
            in_bounds(self.width(), self.height(), x, y) ==> #[trigger] self.cell(x, y) != 0
    }

    /// Some cell of the grid is reached from every cell through open
    /// passages.
    pub open spec fn connected(&self) -> bool {
        exists|sx: int, sy: int|
            #![trigger in_bounds(self.width(), self.height(), sx, sy)]
            in_bounds(self.width(), self.height(), sx, sy) && forall|a: int, b: int|
                #![trigger self.cell(a, b)]
                in_bounds(self.width(), self.height(), a, b) ==> exists|k: nat|
                    linked(self.grid@, self.width(), self.height(), sx, sy, a, b, k)
    }

    /// `height` rows of `width` cells, both sides addressable.
    pub open spec fn wf(&self) -> bool {
        &&& self.size.0 <= usize::MAX
        &&& self.size.1 <= usize::MAX
        &&& shaped(self.grid@, self.width(), self.height())
    }

    /// A grid of `height` rows by `width` columns with every passage closed.
    pub fn new(width: u64, height: u64) -> (r: Self)
        requires
            width <= usize::MAX,
            height <= usize::MAX,
        ensures
            r.size == (width, height),
            r.wf(),
            forall|x: int, y: int| in_bounds(r.width(), r.height(), x, y) ==> #[trigger] r.cell(x, y) == 0,
    {
        let w = width as usize;
        let h = height as usize;
        let mut grid: Vec<Vec<u8>> = Vec::new();
        let mut j: usize = 0;
        while j < h
            invariant
                j <= h,
                grid@.len() == j,
                forall|b: int| 0 <= b < j ==> (#[trigger] grid@[b]@).len() == w,
                forall|a: int, b: int| 0 <= a < w && 0 <= b < j ==> #[trigger] cell_of(grid@, a, b) == 0,
            decreases h - j,
        {
            let mut row: Vec<u8> = Vec::new();
            let mut i: usize = 0;
            while i < w
                invariant
                    i <= w,
                    row@.len() == i,
                    forall|a: int| 0 <= a < i ==> #[trigger] row@[a] == 0,
                decreases w - i,
            {
                row.push(0);
                i = i + 1;
            }
            let ghost g0 = grid@;
            grid.push(row);
            assert forall|a: int, b: int| 0 <= a < w && 0 <= b < j + 1 implies #[trigger] cell_of(grid@, a, b) == 0 by {
                if b < j {
                    assert(grid@[b] == g0[b]);
                    assert(cell_of(g0, a, b) == 0);
                }
            }
            j = j + 1;
        }
        Maze { grid, size: (width, height) }
    }

    /// The dimensions as `(width, height)` in `usize`.
    pub fn sz(&self) -> (r: (usize, usize))
        requires
            self.wf(),
        ensures
            r.0 == self.size.0,
            r.1 == self.size.1,
    {
        (self.size.0 as usize, self.size.1 as usize)
    }

    /// The maze drawn with `_`, `|` and spaces, one line per row under a
    /// top border.
    pub fn render_chars(&self) -> (r: Vec<char>)
        requires
            self.wf(),
            self.passages_match(),
        ensures
            r@ == maze_text(self.grid@, self.width(), self.height(), self.height()),
    {
        let (w, h) = self.sz();
        let ghost g = self.grid@;
        let mut out: Vec<char> = Vec::new();
        let mut i: usize = 0;
        while i < w
            invariant
                i <= w,
                out@ == Seq::new((2 * i) as nat, |k: int| '_'),
            decreases w - i,
        {
            out.push('_');
            out.push('_');
            i = i + 1;
            assert(out@ =~= Seq::new((2 * i) as nat, |k: int| '_'));
        }
        out.push('_');
        assert(out@ =~= Seq::new((2 * w + 1) as nat, |k: int| '_'));
        out.push('\n');
        let mut y: usize = 0;
        while y < h
            invariant
                self.wf(),
                self.passages_match(),
                g == self.grid@,
                w == self.width(),
                h == self.height(),
                y <= h,
                out@ == maze_text(g, w as int, h as int, y as int),
            decreases h - y,
        {
            let ghost before = out@;
            out.push('|');
            let mut x: usize = 0;
            while x < w
                invariant
                    self.wf(),
                    self.passages_match(),
                    g == self.grid@,
                    w == self.width(),
                    h == self.height(),
                    y < h,
                    x <= w,
                    out@ == before + row_text(g, w as int, h as int, y as int, x as int),
                decreases w - x,
            {
                let c = self.grid[y][x];
                let below_empty = y + 1 < h && self.grid[y + 1][x] == 0;
                let floor = if c == 0 && below_empty {
                    ' '
                } else if c & S != 0 {
                    ' '
                } else {
                    '_'
                };
                let side = if c == 0 && x + 1 < w && self.grid[y][x + 1] == 0 {
                    if y + 1 < h && (self.grid[y + 1][x] == 0 || self.grid[y + 1][x + 1] == 0) {
                        ' '
                    } else {
                        '_'
                    }
                } else if c & E != 0 {
                    proof {
                        assert(has(cell_of(g, x as int, y as int), E));
                        assert(in_bounds(w as int, h as int, x + dx_of(E), y + dy_of(E)));
                    }
                    if (c | self.grid[y][x + 1]) & S != 0 {
                        ' '
                    } else {
                        '_'
                    }
                } else {
                    '|'
                };
                assert(floor == floor_char(g, h as int, x as int, y as int));
                assert(side == side_char(g, w as int, h as int, x as int, y as int));
                out.push(floor);
                out.push(side);
                x = x + 1;
                assert(out@ =~= before + row_text(g, w as int, h as int, y as int, x as int));
            }
            out.push('\n');
            y = y + 1;
            assert(out@ =~= maze_text(g, w as int, h as int, y as int));
        }
        out
    }

    /// The drawing of `render_chars` as a string.
    pub fn render(&self) -> (r: String)
        requires
            self.wf(),
            self.passages_match(),
        ensures
            r@ == maze_text(self.grid@, self.width(), self.height(), self.height()),
    {
        let cs = self.render_chars();
        string_of(&cs)
    }

    /// Opens the passage bits `dir` on cell (x, y) and nothing else; the
    /// neighbouring cell is left to the caller.
    pub fn open_passage(&mut self, x: usize, y: usize, dir: u8)
        requires
            old(self).wf(),
            x < old(self).width(),
            y < old(self).height(),
        ensures
            final(self).wf(),
            final(self).size == old(self).size,
            final(self).grid@.len() == old(self).grid@.len(),
            forall|b: int| 0 <= b < old(self).height() && b != y ==> (#[trigger] final(self).grid@[b])@ == old(self).grid@[b]@,
            final(self).grid@[y as int]@ == old(self).grid@[y as int]@.update(x as int, old(self).cell(x as int, y as int) | dir),
            forall|a: int, b: int| in_bounds(old(self).width(), old(self).height(), a, b) ==> #[trigger] final(self).cell(a, b) == if a == x && b == y {
                old(self).cell(x as int, y as int) | dir
            } else {
                old(self).cell(a, b)
            },
    {
        let mut row: Vec<u8> = Vec::new();
        self.grid.set_and_swap(y, &mut row);
        let m = row[x] | dir;
        row.set(x, m);
        self.grid.set_and_swap(y, &mut row);
    }
}

} // verus!
