use vstd::prelude::*;

use crate::direction::{
    dx_of, dy_of, get_dx, get_dy, is_dir, lemma_dir_bits, lemma_opposite_involution, lemma_or_bit,
    lemma_or_nonzero, lemma_small_mask, opposite_of, E, N, S, W,
};
use crate::maze::{
    bit_weight, cell_of, empty_weight, grid_zeros, has, in_bounds, lemma_grid_sum_const,
    lemma_linked_grows, linked, passage_bits, shaped, small_masks, symmetric, Maze,
};

verus! {

/// A cell has been reached: its mask is not empty, or it is the cell that
/// generation started from (whose mask stays empty until it is first carved).
pub open spec fn visited(g: Seq<Vec<u8>>, sx: int, sy: int, a: int, b: int) -> bool {
    cell_of(g, a, b) != 0 || (a == sx && b == sy)
}

/// Every neighbour of (a, b) inside the grid has been reached.
pub open spec fn neighbours_visited(g: Seq<Vec<u8>>, w: int, h: int, sx: int, sy: int, a: int, b: int) -> bool {
    &&& a > 0 ==> visited(g, sx, sy, a - 1, b)
    &&& a + 1 < w ==> visited(g, sx, sy, a + 1, b)
    &&& b > 0 ==> visited(g, sx, sy, a, b - 1)
    &&& b + 1 < h ==> visited(g, sx, sy, a, b + 1)
}

/// The frontier holds cell (a, b).
pub open spec fn frontier_has(cells: Seq<(usize, usize)>, a: int, b: int) -> bool {
    exists|i: int| 0 <= i < cells.len() && (#[trigger] cells[i]).0 == a && cells[i].1 == b
}

/// Moving from (x, y) in direction `d` leaves the grid or meets a cell that
/// has been carved into already.
pub open spec fn blocked(g: Seq<Vec<u8>>, w: int, h: int, x: int, y: int, d: u8) -> bool {
    !in_bounds(w, h, x + dx_of(d), y + dy_of(d)) || cell_of(g, x + dx_of(d), y + dy_of(d)) != 0
}

/// The neighbour of (x, y) in direction `d`, when it lies inside a `w` by `h`
/// grid.
pub fn step(x: usize, y: usize, w: usize, h: usize, d: u8) -> (r: Option<(usize, usize)>)
    requires
        in_bounds(w as int, h as int, x as int, y as int),
        is_dir(d),
    ensures
        r is Some == in_bounds(w as int, h as int, x + dx_of(d), y + dy_of(d)),
        r is Some ==> r->Some_0.0 == x + dx_of(d) && r->Some_0.1 == y + dy_of(d),
{
    let dx = get_dx(d);
    let dy = get_dy(d);
    if (dx < 0 && x == 0) || (dx > 0 && x + 1 >= w) || (dy < 0 && y == 0) || (dy > 0 && y + 1
        >= h) {
        None
    } else {
        let nx = if dx < 0 {
            x - 1
        } else if dx > 0 {
            x + 1
        } else {
            x
        };
        let ny = if dy < 0 {
            y - 1
        } else if dy > 0 {
            y + 1
        } else {
            y
        };
        Some((nx, ny))
    }
}

/// The first direction of `dirs`, in order, that leads from (x, y) to a
/// cell of the grid with an empty mask, with that cell.
pub fn first_open(maze: &Maze, x: usize, y: usize, dirs: &Vec<u8>) -> (r: Option<(usize, u8, usize, usize)>)
    requires
        maze.wf(),
        in_bounds(maze.width(), maze.height(), x as int, y as int),
        forall|k: int| 0 <= k < dirs@.len() ==> is_dir(#[trigger] dirs@[k]),
    ensures
        r is None ==> forall|k: int| 0 <= k < dirs@.len() ==> #[trigger] blocked(maze.grid@, maze.width(), maze.height(), x as int, y as int, dirs@[k]),
        r is Some ==> {
            let (k, d, nx, ny) = r->Some_0;
            &&& k < dirs@.len()
            &&& dirs@[k as int] == d
            &&& is_dir(d)
            &&& nx == x + dx_of(d)
            &&& ny == y + dy_of(d)
            &&& in_bounds(maze.width(), maze.height(), nx as int, ny as int)
            &&& maze.cell(nx as int, ny as int) == 0
            &&& forall|j: int| 0 <= j < k ==> #[trigger] blocked(maze.grid@, maze.width(), maze.height(), x as int, y as int, dirs@[j])
        },
{
    let (w, h) = maze.sz();
    let n = dirs.len();
    let mut k: usize = 0;
    while k < n
        invariant
            n == dirs@.len(),
            k <= n,
            w == maze.width(),
            h == maze.height(),
            maze.wf(),
            in_bounds(w as int, h as int, x as int, y as int),
            forall|j: int| 0 <= j < dirs@.len() ==> is_dir(#[trigger] dirs@[j]),
            forall|j: int| 0 <= j < k ==> #[trigger] blocked(maze.grid@, w as int, h as int, x as int, y as int, dirs@[j]),
        decreases n - k,
    {
        let d = dirs[k];
        match step(x, y, w, h, d) {
            Some((nx, ny)) => {
                if maze.grid[ny][nx] == 0 {
                    return Some((k, d, nx, ny));
                }
            },
            None => {},
        }
        k = k + 1;
    }
    None
}

proof fn lemma_row_covered(g: Seq<Vec<u8>>, w: int, h: int, sx: int, sy: int, a: int)
    requires
        in_bounds(w, h, sx, sy),
        0 <= a < w,
        forall|p: int, q: int| in_bounds(w, h, p, q) && visited(g, sx, sy, p, q) ==> #[trigger] neighbours_visited(g, w, h, sx, sy, p, q),
    ensures
        visited(g, sx, sy, a, sy),
    decreases if a >= sx { a - sx } else { sx - a },
{
    if a > sx {
        lemma_row_covered(g, w, h, sx, sy, a - 1);
        assert(neighbours_visited(g, w, h, sx, sy, a - 1, sy));
    } else if a < sx {
        lemma_row_covered(g, w, h, sx, sy, a + 1);
        assert(neighbours_visited(g, w, h, sx, sy, a + 1, sy));
    }
}

proof fn lemma_cell_covered(g: Seq<Vec<u8>>, w: int, h: int, sx: int, sy: int, a: int, b: int)
    requires
        in_bounds(w, h, sx, sy),
        in_bounds(w, h, a, b),
        forall|p: int, q: int| in_bounds(w, h, p, q) && visited(g, sx, sy, p, q) ==> #[trigger] neighbours_visited(g, w, h, sx, sy, p, q),
    ensures
        visited(g, sx, sy, a, b),
    decreases if b >= sy { b - sy } else { sy - b },
{
    if b > sy {
        lemma_cell_covered(g, w, h, sx, sy, a, b - 1);
        assert(neighbours_visited(g, w, h, sx, sy, a, b - 1));
    } else if b < sy {
        lemma_cell_covered(g, w, h, sx, sy, a, b + 1);
        assert(neighbours_visited(g, w, h, sx, sy, a, b + 1));
    } else {
        lemma_row_covered(g, w, h, sx, sy, a);
    }
}

/// A set of reached cells that holds the start and every neighbour of each
/// of its cells is the whole grid.
pub proof fn lemma_closed_covers(g: Seq<Vec<u8>>, w: int, h: int, sx: int, sy: int)
    requires
        in_bounds(w, h, sx, sy),
        forall|p: int, q: int| in_bounds(w, h, p, q) && visited(g, sx, sy, p, q) ==> #[trigger] neighbours_visited(g, w, h, sx, sy, p, q),
    ensures
        forall|a: int, b: int| in_bounds(w, h, a, b) ==> #[trigger] visited(g, sx, sy, a, b),
{
    assert forall|a: int, b: int| in_bounds(w, h, a, b) implies #[trigger] visited(g, sx, sy, a, b) by {
        lemma_cell_covered(g, w, h, sx, sy, a, b);
    }
}


/// What holds between two steps of generation started from (sx, sy) with
/// frontier `cells`: the grid is well formed and symmetric, the start's mask
/// is empty only while every mask is, each frontier cell has been reached,
/// and each reached cell off the frontier has all its neighbours reached.
pub open spec fn growth_inv(g: Seq<Vec<u8>>, w: int, h: int, sx: int, sy: int, cells: Seq<(usize, usize)>) -> bool {
    &&& shaped(g, w, h)
    &&& in_bounds(w, h, sx, sy)
    &&& small_masks(g, w, h)
    &&& symmetric(g, w, h)
    &&& cell_of(g, sx, sy) == 0 ==> forall|a: int, b: int| in_bounds(w, h, a, b) ==> #[trigger] cell_of(g, a, b) == 0
    &&& forall|i: int| 0 <= i < cells.len() ==> {
        &&& in_bounds(w, h, (#[trigger] cells[i]).0 as int, cells[i].1 as int)
        &&& visited(g, sx, sy, cells[i].0 as int, cells[i].1 as int)
    }
    &&& forall|a: int, b: int| in_bounds(w, h, a, b) && visited(g, sx, sy, a, b) && !frontier_has(cells, a, b) ==> #[trigger] neighbours_visited(g, w, h, sx, sy, a, b)
    &&& forall|a: int, b: int| in_bounds(w, h, a, b) && #[trigger] visited(g, sx, sy, a, b) ==> exists|k: nat| linked(g, w, h, sx, sy, a, b, k)
}

/// A closed grid whose frontier is the start alone meets the invariant,
/// with every mask empty and no passage bit set.
pub proof fn lemma_start(g: Seq<Vec<u8>>, w: int, h: int, sx: int, sy: int, cells: Seq<(usize, usize)>)
    requires
        shaped(g, w, h),
        in_bounds(w, h, sx, sy),
        cells.len() == 1,
        cells[0].0 == sx,
        cells[0].1 == sy,
        forall|a: int, b: int| in_bounds(w, h, a, b) ==> #[trigger] cell_of(g, a, b) == 0,
    ensures
        growth_inv(g, w, h, sx, sy, cells),
        grid_zeros(g) == w * h,
        passage_bits(g) == 0,
{
    assert forall|a: int, b: int| in_bounds(w, h, a, b) implies empty_weight()(#[trigger] cell_of(g, a, b)) == 1 by {
        assert(cell_of(g, a, b) == 0);
    }
    lemma_grid_sum_const(g, w, h, empty_weight(), 1);
    lemma_or_nonzero(0u8, N);
    lemma_or_nonzero(0u8, S);
    lemma_or_nonzero(0u8, E);
    lemma_or_nonzero(0u8, W);
    assert(bit_weight()(0u8) == 0);
    assert forall|a: int, b: int| in_bounds(w, h, a, b) implies bit_weight()(#[trigger] cell_of(g, a, b)) == 0 by {
        assert(cell_of(g, a, b) == 0);
    }
    lemma_grid_sum_const(g, w, h, bit_weight(), 0);
    assert forall|a: int, b: int, e: u8| in_bounds(w, h, a, b) && is_dir(e) && #[trigger] has(cell_of(g, a, b), e) implies false by {
        lemma_or_nonzero(0u8, e);
    }
    assert forall|a: int, b: int| in_bounds(w, h, a, b) && visited(g, sx, sy, a, b) && !frontier_has(cells, a, b) implies #[trigger] neighbours_visited(g, w, h, sx, sy, a, b) by {
        assert(a == sx && b == sy);
        assert(frontier_has(cells, a, b));
    }
    assert forall|a: int, b: int| in_bounds(w, h, a, b) && #[trigger] visited(g, sx, sy, a, b) implies exists|k: nat| linked(g, w, h, sx, sy, a, b, k) by {
        assert(a == sx && b == sy);
        assert(linked(g, w, h, sx, sy, a, b, 0));
    }
}

/// The four directions, in their fixed order.
pub open spec fn all_dirs() -> Seq<u8> {
    seq![N, S, E, W]
}

/// Dropping a frontier cell none of whose four directions is open keeps the
/// invariant.
pub proof fn lemma_retire(g: Seq<Vec<u8>>, w: int, h: int, sx: int, sy: int, cells: Seq<(usize, usize)>, i: int, dirs: Seq<u8>)
    requires
        growth_inv(g, w, h, sx, sy, cells),
        0 <= i < cells.len(),
        dirs.to_multiset() == all_dirs().to_multiset(),
        forall|k: int| 0 <= k < dirs.len() ==> #[trigger] blocked(g, w, h, cells[i].0 as int, cells[i].1 as int, dirs[k]),
    ensures
        growth_inv(g, w, h, sx, sy, cells.remove(i)),
{
    let x = cells[i].0 as int;
    let y = cells[i].1 as int;
    let rest = cells.remove(i);
    broadcast use vstd::seq_lib::group_to_multiset_ensures;
    assert forall|d: u8| #[trigger] all_dirs().contains(d) implies blocked(g, w, h, x, y, d) by {
        assert(all_dirs().to_multiset().count(d) > 0);
        assert(dirs.contains(d));
        let k = choose|k: int| 0 <= k < dirs.len() && dirs[k] == d;
        assert(blocked(g, w, h, x, y, dirs[k]));
    }
    assert(all_dirs()[0] == N && all_dirs()[1] == S && all_dirs()[2] == E && all_dirs()[3] == W);
    assert(all_dirs().contains(N));
    assert(all_dirs().contains(S));
    assert(all_dirs().contains(E));
    assert(all_dirs().contains(W));
    assert(blocked(g, w, h, x, y, N));
    assert(blocked(g, w, h, x, y, S));
    assert(blocked(g, w, h, x, y, E));
    assert(blocked(g, w, h, x, y, W));
    assert(neighbours_visited(g, w, h, sx, sy, x, y));
    assert forall|j: int| 0 <= j < rest.len() implies {
        &&& in_bounds(w, h, (#[trigger] rest[j]).0 as int, rest[j].1 as int)
        &&& visited(g, sx, sy, rest[j].0 as int, rest[j].1 as int)
    } by {
        if j < i {
            assert(rest[j] == cells[j]);
        } else {
            assert(rest[j] == cells[j + 1]);
        }
    }
    assert forall|a: int, b: int| in_bounds(w, h, a, b) && visited(g, sx, sy, a, b) && !frontier_has(rest, a, b) implies #[trigger] neighbours_visited(g, w, h, sx, sy, a, b) by {
        if !(a == x && b == y) && frontier_has(cells, a, b) {
            let j = choose|j: int| 0 <= j < cells.len() && (#[trigger] cells[j]).0 == a && cells[j].1 == b;
            if j < i {
                assert(rest[j] == cells[j]);
            } else {
                assert(j != i);
                assert(rest[j - 1] == cells[j]);
            }
        }
    }
}

/// Carving from frontier cell `i` in direction `d` into an empty neighbour,
/// and appending that neighbour to the frontier, keeps the invariant.
pub proof fn lemma_carve(g0: Seq<Vec<u8>>, g2: Seq<Vec<u8>>, w: int, h: int, sx: int, sy: int, cells: Seq<(usize, usize)>, i: int, d: u8, nx: usize, ny: usize)
    requires
        growth_inv(g0, w, h, sx, sy, cells),
        0 <= i < cells.len(),
        is_dir(d),
        nx == cells[i].0 + dx_of(d),
        ny == cells[i].1 + dy_of(d),
        in_bounds(w, h, nx as int, ny as int),
        cell_of(g0, nx as int, ny as int) == 0,
        shaped(g2, w, h),
        forall|a: int, b: int| in_bounds(w, h, a, b) ==> #[trigger] cell_of(g2, a, b) == if a == cells[i].0 && b == cells[i].1 {
            cell_of(g0, a, b) | d
        } else if a == nx && b == ny {
            opposite_of(d)
        } else {
            cell_of(g0, a, b)
        },
    ensures
        growth_inv(g2, w, h, sx, sy, cells.push((nx, ny))),
{
    let x = cells[i].0 as int;
    let y = cells[i].1 as int;
    let od = opposite_of(d);
    let c0 = cell_of(g0, x, y);
    let cells2 = cells.push((nx, ny));
    lemma_opposite_involution(d);
    lemma_or_nonzero(c0, d);
    lemma_small_mask(c0, d);
    lemma_small_mask(0u8, od);
    lemma_dir_bits(od, od);
    lemma_dir_bits(d, d);
    assert(cell_of(g2, x, y) == c0 | d);
    assert(cell_of(g2, nx as int, ny as int) == od);
    assert(x != nx || y != ny);
    // Masks only grow.
    assert forall|a: int, b: int, e: u8| in_bounds(w, h, a, b) && #[trigger] has(cell_of(g0, a, b), e) implies has(cell_of(g2, a, b), e) by {
        lemma_or_bit(c0, d, e);
        lemma_or_nonzero(0u8, e);
        if a == x && b == y {
        } else if a == nx && b == ny {
            assert(false);
        } else {
            assert(cell_of(g2, a, b) == cell_of(g0, a, b));
        }
    }
    assert forall|a: int, b: int| in_bounds(w, h, a, b) && cell_of(g0, a, b) != 0 implies #[trigger] cell_of(g2, a, b) != 0 by {
        lemma_or_nonzero(cell_of(g0, a, b), d);
    }
    // The start's mask.
    if cell_of(g0, sx, sy) == 0 {
        assert(visited(g0, sx, sy, x, y));
        assert(cell_of(g0, x, y) == 0);
        assert(x == sx && y == sy);
    }
    assert(cell_of(g2, sx, sy) != 0);
    // Masks stay small.
    assert forall|a: int, b: int| in_bounds(w, h, a, b) implies #[trigger] cell_of(g2, a, b) < 16 by {
        assert(cell_of(g0, a, b) < 16);
    }
    // Symmetry.
    assert forall|a: int, b: int, e: u8| in_bounds(w, h, a, b) && is_dir(e) && #[trigger] has(cell_of(g2, a, b), e) implies {
        &&& in_bounds(w, h, a + dx_of(e), b + dy_of(e))
        &&& has(cell_of(g2, a + dx_of(e), b + dy_of(e)), opposite_of(e))
    } by {
        lemma_dir_bits(d, e);
        lemma_dir_bits(od, e);
        lemma_opposite_involution(e);
        if a == x && b == y {
            lemma_or_bit(c0, d, e);
            if e != d {
                assert(has(cell_of(g0, a, b), e));
                assert(has(cell_of(g0, a + dx_of(e), b + dy_of(e)), opposite_of(e)));
                assert(in_bounds(w, h, a + dx_of(e), b + dy_of(e)));
                assert(has(cell_of(g2, a + dx_of(e), b + dy_of(e)), opposite_of(e)));
            } else {
                assert(a + dx_of(e) == nx && b + dy_of(e) == ny);
                assert(has(cell_of(g2, nx as int, ny as int), od));
            }
        } else if a == nx && b == ny {
            assert(e == od);
            assert(a + dx_of(e) == x && b + dy_of(e) == y);
            assert(opposite_of(e) == d);
            lemma_or_bit(c0, d, d);
            assert(has(cell_of(g2, x, y), d));
        } else {
            assert(cell_of(g2, a, b) == cell_of(g0, a, b));
            assert(has(cell_of(g0, a, b), e));
            assert(has(cell_of(g0, a + dx_of(e), b + dy_of(e)), opposite_of(e)));
            assert(in_bounds(w, h, a + dx_of(e), b + dy_of(e)));
            assert(has(cell_of(g2, a + dx_of(e), b + dy_of(e)), opposite_of(e)));
        }
    }
    // The frontier.
    assert forall|j: int| 0 <= j < cells2.len() implies {
        &&& in_bounds(w, h, (#[trigger] cells2[j]).0 as int, cells2[j].1 as int)
        &&& visited(g2, sx, sy, cells2[j].0 as int, cells2[j].1 as int)
    } by {
        if j < cells.len() {
            assert(cells2[j] == cells[j]);
        }
    }
    // Links to the start.
    assert forall|a: int, b: int| in_bounds(w, h, a, b) && #[trigger] visited(g2, sx, sy, a, b) implies exists|k: nat| linked(g2, w, h, sx, sy, a, b, k) by {
        if a == nx && b == ny {
            assert(visited(g0, sx, sy, x, y));
            let k = choose|k: nat| linked(g0, w, h, sx, sy, x, y, k);
            lemma_linked_grows(g0, g2, w, h, sx, sy, x, y, k);
            assert(nx + dx_of(od) == x && ny + dy_of(od) == y);
            assert(has(cell_of(g2, nx as int, ny as int), od));
            assert(linked(g2, w, h, sx, sy, a, b, k + 1));
        } else {
            if !(a == x && b == y) {
                assert(cell_of(g2, a, b) == cell_of(g0, a, b));
            }
            assert(visited(g0, sx, sy, a, b));
            let k = choose|k: nat| linked(g0, w, h, sx, sy, a, b, k);
            lemma_linked_grows(g0, g2, w, h, sx, sy, a, b, k);
        }
    }
    // Cells off the frontier.
    assert forall|a: int, b: int| in_bounds(w, h, a, b) && visited(g2, sx, sy, a, b) && !frontier_has(cells2, a, b) implies #[trigger] neighbours_visited(g2, w, h, sx, sy, a, b) by {
        assert(cells2[cells.len() as int] == (nx, ny));
        if frontier_has(cells, a, b) {
            let j = choose|j: int| 0 <= j < cells.len() && (#[trigger] cells[j]).0 == a && cells[j].1 == b;
            assert(cells2[j] == cells[j]);
        }
        assert(cells2[i] == cells[i]);
        assert(!(a == x && b == y));
        assert(visited(g0, sx, sy, a, b));
        assert(neighbours_visited(g0, w, h, sx, sy, a, b));
    }
}


/// A shuffle of the four directions holds directions only.
pub proof fn lemma_shuffled_dirs(dirs: Seq<u8>)
    requires
        dirs.to_multiset() == all_dirs().to_multiset(),
    ensures
        forall|k: int| 0 <= k < dirs.len() ==> is_dir(#[trigger] dirs[k]),
{
    broadcast use vstd::seq_lib::group_to_multiset_ensures;
    assert forall|k: int| 0 <= k < dirs.len() implies is_dir(#[trigger] dirs[k]) by {
        assert(dirs.contains(dirs[k]));
        assert(dirs.to_multiset().count(dirs[k]) > 0);
        assert(all_dirs().contains(dirs[k]));
    }
}

/// Once the frontier is empty every cell has been reached, and every mask is
/// non-empty unless the grid is a single cell.
pub proof fn lemma_finished(g: Seq<Vec<u8>>, w: int, h: int, sx: int, sy: int)
    requires
        growth_inv(g, w, h, sx, sy, Seq::<(usize, usize)>::empty()),
    ensures
        forall|a: int, b: int| in_bounds(w, h, a, b) ==> #[trigger] visited(g, sx, sy, a, b),
        w > 1 || h > 1 ==> forall|a: int, b: int| in_bounds(w, h, a, b) ==> #[trigger] cell_of(g, a, b) != 0,
        forall|a: int, b: int| in_bounds(w, h, a, b) ==> exists|k: nat| #[trigger] linked(g, w, h, sx, sy, a, b, k),
{
    lemma_closed_covers(g, w, h, sx, sy);
    assert forall|a: int, b: int| in_bounds(w, h, a, b) implies exists|k: nat| #[trigger] linked(g, w, h, sx, sy, a, b, k) by {
        assert(visited(g, sx, sy, a, b));
    }
    if w > 1 || h > 1 {
        if cell_of(g, sx, sy) == 0 {
            assert(neighbours_visited(g, w, h, sx, sy, sx, sy));
            if sx > 0 {
                assert(cell_of(g, sx - 1, sy) == 0);
            } else if sx + 1 < w {
                assert(cell_of(g, sx + 1, sy) == 0);
            } else if sy > 0 {
                assert(cell_of(g, sx, sy - 1) == 0);
            } else {
                assert(cell_of(g, sx, sy + 1) == 0);
            }
        }
        assert forall|a: int, b: int| in_bounds(w, h, a, b) implies #[trigger] cell_of(g, a, b) != 0 by {
            assert(visited(g, sx, sy, a, b));
        }
    }
}

} // verus!
