use vstd::prelude::*;
use vstd::string::StrSliceExecFns;

use rand_chacha::ChaCha20Rng;

use crate::base::{MazeGenerator, SizeError};
use crate::carving::{
    all_dirs, first_open, growth_inv, lemma_carve, lemma_finished, lemma_retire,
    lemma_shuffled_dirs, lemma_start, visited,
};
use crate::direction::{
    dx_of, dy_of, get_opposite, lemma_opposite_involution, lemma_or_nonzero, lemma_small_mask,
    opposite_of, E, N, S, W,
};
use crate::maze::{
    bit_weight, cell_of, empty_weight, grid_zeros, has, in_bounds, lemma_bit_weight_or,
    lemma_grid_sum_const, lemma_grid_sum_update, lemma_single_cell_closed, linked, passage_bits,
    Maze,
};
use crate::random::{draw_below, shuffle_in_place};

verus! {

/// How a frontier index is picked once a weighted pair has been chosen.
#[derive(Debug, Copy, Clone, PartialEq, Eq, Structural)]
pub enum IndexMode {
    Random,
    Newest,
    Middle,
    Oldest,
}

/// The index a deterministic mode picks in a frontier of `ceil` cells.
pub open spec fn index_of(mode: IndexMode, ceil: int) -> int {
    match mode {
        IndexMode::Random => 0,
        IndexMode::Newest => ceil - 1,
        IndexMode::Middle => ceil / 2,
        IndexMode::Oldest => 0,
    }
}

/// The mode that a lower-case name stands for.
pub open spec fn mode_named(s: Seq<char>) -> Option<IndexMode> {
    if s == "random"@ {
        Some(IndexMode::Random)
    } else if s == "newest"@ {
        Some(IndexMode::Newest)
    } else if s == "oldest"@ {
        Some(IndexMode::Oldest)
    } else if s == "middle"@ {
        Some(IndexMode::Middle)
    } else {
        None
    }
}

fn same_text(s: &str, t: &str) -> (r: bool)
    ensures
        r == (s@ == t@),
{
    let n = s.unicode_len();
    if n != t.unicode_len() {
        return false;
    }
    let mut i: usize = 0;
    while i < n
        invariant
            n == s@.len(),
            n == t@.len(),
            i <= n,
            forall|k: int| 0 <= k < i ==> s@[k] == t@[k],
        decreases n - i,
    {
        if s.get_char(i) != t.get_char(i) {
            return false;
        }
        i = i + 1;
    }
    assert(s@ =~= t@);
    true
}

impl IndexMode {
    /// Picks an index of a frontier of `ceil` cells: uniformly at random,
    /// the last, the middle (rounded down) or the first.
    pub fn evaluate(self, ceil: usize, rng: &mut ChaCha20Rng) -> (r: usize)
        requires
            ceil >= 1,
        ensures
            r < ceil,
            self != IndexMode::Random ==> r == index_of(self, ceil as int),
    {
        match self {
            IndexMode::Random => draw_below(rng, ceil as u64) as usize,
            IndexMode::Newest => ceil - 1,
            IndexMode::Middle => ceil / 2,
            IndexMode::Oldest => 0,
        }
    }

    /// Reads one of "random", "newest", "oldest", "middle".
    pub fn from_lower_str(s: &str) -> (r: Option<Self>)
        ensures
            r == mode_named(s@),
    {
        if same_text(s, "random") {
            Some(IndexMode::Random)
        } else if same_text(s, "newest") {
            Some(IndexMode::Newest)
        } else if same_text(s, "oldest") {
            Some(IndexMode::Oldest)
        } else if same_text(s, "middle") {
            Some(IndexMode::Middle)
        } else {
            None
        }
    }
}


/// The mode of the pair of group `ws` that draw `v` falls into.
pub open spec fn mode_at(ws: Seq<(u64, IndexMode)>, v: int) -> IndexMode {
    ws[chosen_pos(ws, v)].1
}

/// `r` is an index of a frontier of `ceil` cells that group `ws` can pick:
/// for some draw below the group's sum, it is what the chosen mode picks,
/// unless that mode is `Random`.
pub open spec fn may_pick(ws: Seq<(u64, IndexMode)>, ceil: int, r: int) -> bool {
    &&& 0 <= r < ceil
    &&& exists|v: int|
        0 <= v < weight_sum(ws) && (#[trigger] mode_at(ws, v) != IndexMode::Random ==> r == index_of(
            mode_at(ws, v),
            ceil,
        ))
}

/// A group whose pairs all carry the same deterministic mode always picks
/// the index of that mode: all `Oldest` picks the first frontier cell (growth
/// breadth first), all `Newest` the last (growth depth first).
pub proof fn lemma_single_mode_group(ws: Seq<(u64, IndexMode)>, m: IndexMode, ceil: int, r: int)
    requires
        forall|i: int| 0 <= i < ws.len() ==> (#[trigger] ws[i]).1 == m,
        m != IndexMode::Random,
        may_pick(ws, ceil, r),
    ensures
        r == index_of(m, ceil),
{
    let v = choose|v: int|
        0 <= v < weight_sum(ws) && (#[trigger] mode_at(ws, v) != IndexMode::Random ==> r == index_of(
            mode_at(ws, v),
            ceil,
        ));
    lemma_chosen_pos_in_range(ws, v);
    assert(mode_at(ws, v) == m);
}

/// Where the cursor of a chain of `n` groups stands after `k` steps from `c`.
pub open spec fn cursor_after(n: int, c: int, k: nat) -> int
    decreases k,
{
    if k == 0 {
        c
    } else {
        (cursor_after(n, c, (k - 1) as nat) + 1) % n
    }
}

/// Steps use the groups round-robin whatever the frontier: after `k` steps
/// from cursor `c` the cursor is `(c + k) % n`; with two groups from the
/// first, the steps alternate between group 0 and group 1.
pub proof fn lemma_round_robin(n: int, c: int, k: nat)
    requires
        n > 0,
        0 <= c < n,
    ensures
        cursor_after(n, c, k) == (c + k) % n,
        n == 2 && c == 0 ==> cursor_after(n, c, k) == k % 2,
    decreases k,
{
    if k > 0 {
        lemma_round_robin(n, c, (k - 1) as nat);
        let p = c + k - 1;
        assert(((p % n) + 1) % n == (p + 1) % n) by {
            vstd::arithmetic::div_mod::lemma_add_mod_noop(p, 1, n);
            if n == 1 {
                vstd::arithmetic::div_mod::lemma_mod_self_0(1);
            } else {
                vstd::arithmetic::div_mod::lemma_small_mod(1, n as nat);
            }
        }
    } else {
        vstd::arithmetic::div_mod::lemma_small_mod(c as nat, n as nat);
    }
}

/// Why a selection policy was refused.
#[derive(Debug, Copy, Clone, PartialEq, Eq, Structural)]
pub enum PolicyError {
    /// A group without any (weight, mode) pair.
    EmptyGroup,
    /// A pair whose weight is zero.
    ZeroWeight,
    /// A group whose weights add up past `u64::MAX`.
    WeightOverflow,
    /// A chain without any group.
    EmptyChain,
}

/// The sum of the weights of a group.
pub open spec fn weight_sum(ws: Seq<(u64, IndexMode)>) -> nat
    decreases ws.len(),
{
    if ws.len() == 0 {
        0
    } else {
        ws[0].0 as nat + weight_sum(ws.drop_first())
    }
}

/// The position of the pair that a draw `v` falls into when the weights are
/// laid end to end as half-open intervals, in order.
pub open spec fn chosen_pos(ws: Seq<(u64, IndexMode)>, v: int) -> int
    decreases ws.len(),
{
    if ws.len() == 0 {
        0
    } else if v < ws[0].0 {
        0
    } else {
        1 + chosen_pos(ws.drop_first(), v - ws[0].0)
    }
}

/// Every weight of the group is positive.
pub open spec fn weights_positive(ws: Seq<(u64, IndexMode)>) -> bool {
    forall|i: int| 0 <= i < ws.len() ==> (#[trigger] ws[i]).0 > 0
}

/// The sum of two groups laid end to end is the sum of their sums.
pub proof fn lemma_weight_sum_concat(a: Seq<(u64, IndexMode)>, b: Seq<(u64, IndexMode)>)
    ensures
        weight_sum(a + b) == weight_sum(a) + weight_sum(b),
    decreases a.len(),
{
    if a.len() > 0 {
        assert((a + b).drop_first() =~= a.drop_first() + b);
        lemma_weight_sum_concat(a.drop_first(), b);
    }
}

/// A draw below the total falls into a pair of the group.
pub proof fn lemma_chosen_pos_in_range(ws: Seq<(u64, IndexMode)>, v: int)
    requires
        0 <= v < weight_sum(ws),
    ensures
        0 <= chosen_pos(ws, v) < ws.len(),
    decreases ws.len(),
{
    if ws.len() > 0 && v >= ws[0].0 {
        lemma_chosen_pos_in_range(ws.drop_first(), v - ws[0].0);
    }
}

/// One group of a policy chain: (weight, mode) pairs, all weights positive,
/// with their sum.
pub struct IndexCommand {
    weights: Vec<(u64, IndexMode)>,
    total: u64,
}

impl IndexCommand {
    #[verifier::type_invariant]
    closed spec fn inv(&self) -> bool {
        &&& self.weights@.len() > 0
        &&& weights_positive(self.weights@)
        &&& self.total == weight_sum(self.weights@)
    }

    /// The (weight, mode) pairs, in order.
    pub closed spec fn pairs(&self) -> Seq<(u64, IndexMode)> {
        self.weights@
    }

    /// Builds a group; refuses an empty group, a zero weight, and weights
    /// whose sum does not fit in `u64`, in that order.
    pub fn new(weights: Vec<(u64, IndexMode)>) -> (r: Result<Self, PolicyError>)
        ensures
            weights@.len() == 0 ==> r == Err::<Self, PolicyError>(PolicyError::EmptyGroup),
            weights@.len() > 0 && !weights_positive(weights@) ==> r == Err::<Self, PolicyError>(
                PolicyError::ZeroWeight,
            ),
            weights@.len() > 0 && weights_positive(weights@) && weight_sum(weights@) > u64::MAX
                ==> r == Err::<Self, PolicyError>(PolicyError::WeightOverflow),
            weights@.len() > 0 && weights_positive(weights@) && weight_sum(weights@) <= u64::MAX
                ==> r is Ok && r->Ok_0.pairs() == weights@,
    {
        let n = weights.len();
        if n == 0 {
            return Err(PolicyError::EmptyGroup);
        }
        let mut i: usize = 0;
        while i < n
            invariant
                n == weights@.len(),
                i <= n,
                forall|k: int| 0 <= k < i ==> (#[trigger] weights@[k]).0 > 0,
            decreases n - i,
        {
            if weights[i].0 == 0 {
                return Err(PolicyError::ZeroWeight);
            }
            i = i + 1;
        }
        assert(weights_positive(weights@));
        let mut total: u64 = 0;
        let mut j: usize = 0;
        while j < n
            invariant
                n == weights@.len(),
                weights_positive(weights@),
                j <= n,
                total == weight_sum(weights@.take(j as int)),
            decreases n - j,
        {
            proof {
                assert(weights@.take(j + 1) =~= weights@.take(j as int) + seq![weights@[j as int]]);
                lemma_weight_sum_concat(weights@.take(j as int), seq![weights@[j as int]]);
                let one = seq![weights@[j as int]];
                assert(one[0] == weights@[j as int]);
                assert(one.drop_first() =~= Seq::<(u64, IndexMode)>::empty());
                assert(weight_sum(one.drop_first()) == 0);
                assert(weight_sum(one) == weights@[j as int].0);
                assert(weights@ =~= weights@.take(j as int) + weights@.skip(j as int));
                lemma_weight_sum_concat(weights@.take(j as int), weights@.skip(j as int));
                assert(weights@.skip(j as int) =~= weights@.take(j + 1).skip(j as int) + weights@.skip(j + 1));
                lemma_weight_sum_concat(weights@.take(j + 1).skip(j as int), weights@.skip(j + 1));
            }
            match total.checked_add(weights[j].0) {
                Some(t) => {
                    total = t;
                },
                None => {
                    return Err(PolicyError::WeightOverflow);
                },
            }
            j = j + 1;
        }
        assert(weights@.take(n as int) =~= weights@);
        Ok(IndexCommand::from_pairs(weights, total))
    }

    fn from_pairs(weights: Vec<(u64, IndexMode)>, total: u64) -> (r: Self)
        requires
            weights@.len() > 0,
            weights_positive(weights@),
            total == weight_sum(weights@),
        ensures
            r.pairs() == weights@,
    {
        IndexCommand { weights, total }
    }

    /// The mode of the pair that the draw `v` falls into: the first pair,
    /// in order, whose weight exceeds what is left of `v` after the weights
    /// before it are taken off.
    pub fn mode_for(&self, v: u64) -> (r: IndexMode)
        requires
            v < weight_sum(self.pairs()),
        ensures
            0 <= chosen_pos(self.pairs(), v as int) < self.pairs().len(),
            r == self.pairs()[chosen_pos(self.pairs(), v as int)].1,
    {
        proof {
            use_type_invariant(self);
            lemma_chosen_pos_in_range(self.weights@, v as int);
        }
        let n = self.weights.len();
        let mut rest: u64 = v;
        let mut i: usize = 0;
        assert(self.weights@.skip(0) =~= self.weights@);
        while i < n
            invariant
                n == self.weights@.len(),
                i <= n,
                rest < weight_sum(self.weights@.skip(i as int)),
                chosen_pos(self.weights@, v as int) == i + chosen_pos(self.weights@.skip(i as int), rest as int),
            decreases n - i,
        {
            let ghost tail = self.weights@.skip(i as int);
            assert(tail[0] == self.weights@[i as int]);
            if rest < self.weights[i].0 {
                return self.weights[i].1;
            }
            assert(tail.drop_first() =~= self.weights@.skip(i + 1));
            rest = rest - self.weights[i].0;
            i = i + 1;
        }
        proof {
            assert(self.weights@.skip(n as int).len() == 0);
        }
        self.weights[0].1
    }

    /// Draws a value below the group's sum, picks the pair it falls into,
    /// and lets that pair's mode pick an index of a frontier of `ceil` cells.
    pub fn evaluate(&self, ceil: usize, rng: &mut ChaCha20Rng) -> (r: usize)
        requires
            ceil >= 1,
        ensures
            may_pick(self.pairs(), ceil as int, r as int),
    {
        proof {
            use_type_invariant(self);
        }
        let v = draw_below(rng, self.total);
        let mode = self.mode_for(v);
        let r = mode.evaluate(ceil, rng);
        assert(mode_at(self.pairs(), v as int) == mode);
        r
    }
}


/// The frontier-selection policy of a growing-tree generator: a chain of
/// weighted groups used round-robin, one group per step.
pub struct GrowingTree {
    index_commands: Vec<IndexCommand>,
    current_index_cmd: usize,
}

impl GrowingTree {
    #[verifier::type_invariant]
    closed spec fn inv(&self) -> bool {
        &&& self.index_commands@.len() > 0
        &&& self.current_index_cmd < self.index_commands@.len()
    }

    /// The groups of the chain, in order.
    pub closed spec fn groups(&self) -> Seq<Seq<(u64, IndexMode)>> {
        self.index_commands@.map_values(|c: IndexCommand| c.pairs())
    }

    /// The position of the group that the next step uses.
    pub closed spec fn cursor(&self) -> int {
        self.current_index_cmd as int
    }

    /// A generator over the chain `index_commands`, starting at its first
    /// group; an empty chain is refused.
    pub fn new(index_commands: Vec<IndexCommand>) -> (r: Result<Self, PolicyError>)
        ensures
            index_commands@.len() == 0 ==> r == Err::<Self, PolicyError>(PolicyError::EmptyChain),
            index_commands@.len() > 0 ==> r is Ok && r->Ok_0.groups() == index_commands@.map_values(
                |c: IndexCommand| c.pairs(),
            ) && r->Ok_0.cursor() == 0,
    {
        if index_commands.len() == 0 {
            return Err(PolicyError::EmptyChain);
        }
        Ok(GrowingTree { index_commands, current_index_cmd: 0 })
    }

    /// Picks an index of a frontier of `ceil` cells with the group under
    /// the cursor, and moves the cursor on to the next group, wrapping round.
    pub fn next_index(&mut self, ceil: usize, rng: &mut ChaCha20Rng) -> (r: usize)
        requires
            ceil >= 1,
        ensures
            final(self).groups() == old(self).groups(),
            0 <= old(self).cursor() < old(self).groups().len(),
            final(self).cursor() == (old(self).cursor() + 1) % (old(self).groups().len() as int),
            may_pick(old(self).groups()[old(self).cursor()], ceil as int, r as int),
    {
        proof {
            use_type_invariant(&*self);
        }
        let c = self.current_index_cmd;
        let n = self.index_commands.len();
        assert(c < n);
        let r = self.index_commands[c].evaluate(ceil, rng);
        self.current_index_cmd = if c + 1 < n {
            c + 1
        } else {
            0
        };
        proof {
            let m = n as int;
            let k = c as int + 1;
            if k < m {
                assert(k % m == k) by (nonlinear_arith)
                    requires
                        0 <= k < m,
                ;
            } else {
                assert(k % m == 0) by (nonlinear_arith)
                    requires
                        k == m,
                        m > 0,
                ;
            }
        }
        r
    }
}

impl GrowingTree {
    /// Generates a maze after checking the dimensions: a zero side is
    /// refused first, then a side that does not fit in `usize`.
    pub fn generate_checked(&mut self, width: u64, height: u64, rng: &mut ChaCha20Rng) -> (r: Result<Maze, SizeError>)
        ensures
            width == 0 || height == 0 ==> r == Err::<Maze, SizeError>(SizeError::ZeroSide),
            width > 0 && height > 0 && (width > usize::MAX || height > usize::MAX) ==> r == Err::<Maze, SizeError>(SizeError::SideTooLarge),
            width > 0 && height > 0 && width <= usize::MAX && height <= usize::MAX ==> r is Ok && {
                let m = r->Ok_0;
                &&& m.size == (width, height)
                &&& m.wf()
                &&& m.passages_match()
                &&& m.all_reached()
                &&& m.connected()
                &&& passage_bits(m.grid@) + 2 == 2 * (width * height)
            },
            final(self).groups() == old(self).groups(),
    {
        if width == 0 || height == 0 {
            return Err(SizeError::ZeroSide);
        }
        if width > usize::MAX as u64 || height > usize::MAX as u64 {
            return Err(SizeError::SideTooLarge);
        }
        Ok(self.generate_maze(width, height, rng))
    }
}

/// The built-in chain: {40 newest, 12 random, 2 oldest}, then
/// {10 random, 20 middle, 45 newest}.
pub open spec fn default_groups() -> Seq<Seq<(u64, IndexMode)>> {
    seq![
        seq![(40u64, IndexMode::Newest), (12u64, IndexMode::Random), (2u64, IndexMode::Oldest)],
        seq![(10u64, IndexMode::Random), (20u64, IndexMode::Middle), (45u64, IndexMode::Newest)],
    ]
}

impl Default for GrowingTree {
    fn default() -> (r: Self)
        ensures
            r.groups() == default_groups(),
            r.cursor() == 0,
    {
        let mut first: Vec<(u64, IndexMode)> = Vec::new();
        first.push((40, IndexMode::Newest));
        first.push((12, IndexMode::Random));
        first.push((2, IndexMode::Oldest));
        let mut second: Vec<(u64, IndexMode)> = Vec::new();
        second.push((10, IndexMode::Random));
        second.push((20, IndexMode::Middle));
        second.push((45, IndexMode::Newest));
        proof {
            reveal_with_fuel(weight_sum, 4);
            assert(first@ =~= default_groups()[0]);
            assert(second@ =~= default_groups()[1]);
            assert(first@.drop_first().drop_first().drop_first() =~= Seq::<(u64, IndexMode)>::empty());
            assert(second@.drop_first().drop_first().drop_first() =~= Seq::<(u64, IndexMode)>::empty());
        }
        let mut index_commands: Vec<IndexCommand> = Vec::new();
        index_commands.push(IndexCommand::from_pairs(first, 54));
        index_commands.push(IndexCommand::from_pairs(second, 75));
        proof {
            assert(index_commands@.map_values(|c: IndexCommand| c.pairs()) =~= default_groups());
        }
        GrowingTree { index_commands, current_index_cmd: 0 }
    }
}

impl MazeGenerator for GrowingTree {
    open spec fn same_policy(&self, other: &Self) -> bool {
        self.groups() == other.groups()
    }

    /// Grows a maze from one random cell: each step picks a frontier cell
    /// with the next group of the chain, shuffles the four directions, and
    /// carves into the first empty neighbour (which joins the frontier), or
    /// drops the cell from the frontier when there is none.
    fn generate_maze(&mut self, width: u64, height: u64, rng: &mut ChaCha20Rng) -> (r: Maze) {
        let mut maze = Maze::new(width, height);
        let (w, h) = maze.sz();
        let mut cells: Vec<(usize, usize)> = Vec::new();
        let x0 = draw_below(rng, width) as usize;
        let y0 = draw_below(rng, height) as usize;
        cells.push((x0, y0));
        let ghost sx = x0 as int;
        let ghost sy = y0 as int;
        let ghost groups = self.groups();
        let ghost wh = w as int * h as int;
        proof {
            assert forall|a: int, b: int| in_bounds(w as int, h as int, a, b) implies #[trigger] cell_of(maze.grid@, a, b) == 0 by {
                assert(maze.cell(a, b) == 0);
            }
            lemma_start(maze.grid@, w as int, h as int, sx, sy, cells@);
        }
        while cells.len() > 0
            invariant
                maze.wf(),
                maze.size == (width, height),
                w == width,
                h == height,
                self.groups() == groups,
                growth_inv(maze.grid@, w as int, h as int, sx, sy, cells@),
                wh == w * h,
                passage_bits(maze.grid@) + 2 * grid_zeros(maze.grid@) + 2 == 2 * wh + if cell_of(maze.grid@, sx, sy) == 0 {
                    2int
                } else {
                    0int
                },
            decreases 2 * grid_zeros(maze.grid@) + cells@.len(),
        {
            let i = self.next_index(cells.len(), rng);
            let (x, y) = cells[i];
            let mut dirs: Vec<u8> = Vec::new();
            dirs.push(N);
            dirs.push(S);
            dirs.push(E);
            dirs.push(W);
            assert(dirs@ =~= all_dirs());
            shuffle_in_place(rng, &mut dirs);
            proof {
                lemma_shuffled_dirs(dirs@);
            }
            match first_open(&maze, x, y, &dirs) {
                Some((_k, d, nx, ny)) => {
                    let ghost g0 = maze.grid@;
                    let ghost c0 = maze.cell(x as int, y as int);
                    maze.open_passage(x, y, d);
                    let ghost g1 = maze.grid@;
                    let od = get_opposite(d);
                    maze.open_passage(nx, ny, od);
                    proof {
                        let g2 = maze.grid@;
                        lemma_or_nonzero(c0, d);
                        lemma_or_nonzero(0u8, od);
                        lemma_small_mask(0u8, od);
                        assert(cell_of(g1, nx as int, ny as int) == 0);
                        lemma_grid_sum_update(g0, g1, x as int, y as int, c0 | d, empty_weight());
                        lemma_grid_sum_update(g1, g2, nx as int, ny as int, (0u8 | od), empty_weight());
                        lemma_grid_sum_update(g0, g1, x as int, y as int, c0 | d, bit_weight());
                        lemma_grid_sum_update(g1, g2, nx as int, ny as int, (0u8 | od), bit_weight());
                        lemma_opposite_involution(d);
                        lemma_or_nonzero(0u8, od);
                        if has(c0, d) {
                            assert(has(cell_of(g0, x + dx_of(d), y + dy_of(d)), opposite_of(d)));
                        }
                        lemma_bit_weight_or(c0, d);
                        lemma_or_nonzero(0u8, N);
                        lemma_or_nonzero(0u8, S);
                        lemma_or_nonzero(0u8, E);
                        lemma_or_nonzero(0u8, W);
                        lemma_bit_weight_or(0u8, od);
                        assert(bit_weight()(0u8) == 0);
                        if cell_of(g0, sx, sy) == 0 {
                            assert(visited(g0, sx, sy, x as int, y as int));
                            assert(c0 == 0);
                        } else {
                            assert(visited(g0, sx, sy, x as int, y as int));
                            assert(c0 != 0);
                        }
                        assert forall|a: int, b: int| in_bounds(w as int, h as int, a, b) implies #[trigger] cell_of(g2, a, b) == if a == x && b == y {
                            cell_of(g0, a, b) | d
                        } else if a == nx && b == ny {
                            opposite_of(d)
                        } else {
                            cell_of(g0, a, b)
                        } by {
                            assert(maze.cell(a, b) == cell_of(g2, a, b));
                        }
                        lemma_carve(g0, g2, w as int, h as int, sx, sy, cells@, i as int, d, nx, ny);
                    }
                    cells.push((nx, ny));
                },
                None => {
                    proof {
                        lemma_retire(maze.grid@, w as int, h as int, sx, sy, cells@, i as int, dirs@);
                    }
                    cells.remove(i);
                },
            }
        }
        proof {
            assert(cells@ =~= Seq::<(usize, usize)>::empty());
            lemma_finished(maze.grid@, w as int, h as int, sx, sy);
            assert forall|a: int, b: int| in_bounds(w as int, h as int, a, b) && (w > 1 || h > 1) implies #[trigger] maze.cell(a, b) != 0 by {
                assert(cell_of(maze.grid@, a, b) != 0);
            }
            if w > 1 || h > 1 {
                assert forall|a: int, b: int| in_bounds(w as int, h as int, a, b) implies empty_weight()(#[trigger] cell_of(maze.grid@, a, b)) == 0 by {
                    assert(cell_of(maze.grid@, a, b) != 0);
                }
                lemma_grid_sum_const(maze.grid@, w as int, h as int, empty_weight(), 0);
                assert(cell_of(maze.grid@, sx, sy) != 0);
            } else {
                lemma_single_cell_closed(maze);
                assert(sx == 0 && sy == 0);
                assert forall|a: int, b: int| in_bounds(w as int, h as int, a, b) implies empty_weight()(#[trigger] cell_of(maze.grid@, a, b)) == 1 by {
                    assert(a == 0 && b == 0);
                }
                lemma_grid_sum_const(maze.grid@, w as int, h as int, empty_weight(), 1);
                assert(w == 1 && h == 1);
                assert((w as int) * (h as int) * 1 == 1) by (nonlinear_arith)
                    requires
                        w == 1,
                        h == 1,
                ;
                assert(grid_zeros(maze.grid@) == 1);
                assert(cell_of(maze.grid@, sx, sy) == 0);
            }
            assert(passage_bits(maze.grid@) + 2 == 2 * wh);
            assert forall|a: int, b: int| in_bounds(w as int, h as int, a, b) implies exists|k: nat| linked(maze.grid@, w as int, h as int, sx, sy, a, b, k) by {
                assert(in_bounds(w as int, h as int, a, b));
            }
            assert(in_bounds(maze.width(), maze.height(), sx, sy));
            assert(maze.connected());
        }
        maze
    }
}

} // verus!
