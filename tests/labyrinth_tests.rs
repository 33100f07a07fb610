use labyrinth::{
    get_dx, get_dy, get_opposite, GrowingTree, IndexCommand, IndexMode, Maze, MazeGenerator,
    PolicyError, SizeError, E, N, S, W,
};
use rand::SeedableRng;
use rand_chacha::ChaCha20Rng;

fn chain(groups: Vec<Vec<(u64, IndexMode)>>) -> GrowingTree {
    let mut cmds = Vec::new();
    for g in groups {
        cmds.push(IndexCommand::new(g).unwrap());
    }
    GrowingTree::new(cmds).unwrap()
}

fn generate(tree: &mut GrowingTree, w: u64, h: u64, seed: u64) -> Maze {
    let mut rng = ChaCha20Rng::seed_from_u64(seed);
    tree.generate_maze(w, h, &mut rng)
}

fn neighbour(x: usize, y: usize, d: u8) -> (i64, i64) {
    (x as i64 + get_dx(d), y as i64 + get_dy(d))
}

fn assert_symmetric(m: &Maze) {
    let (w, h) = (m.size.0 as i64, m.size.1 as i64);
    for y in 0..m.grid.len() {
        for x in 0..m.grid[y].len() {
            let c = m.grid[y][x];
            assert_eq!(c & !0x0f, 0);
            for d in [N, S, E, W] {
                if c & d != 0 {
                    let (nx, ny) = neighbour(x, y, d);
                    assert!(nx >= 0 && ny >= 0 && nx < w && ny < h);
                    assert_ne!(m.grid[ny as usize][nx as usize] & get_opposite(d), 0);
                }
            }
        }
    }
}

fn assert_perfect(m: &Maze) {
    let (w, h) = (m.size.0 as usize, m.size.1 as usize);
    assert_eq!(m.grid.len(), h);
    let mut bits = 0usize;
    for row in &m.grid {
        assert_eq!(row.len(), w);
        for &c in row {
            bits += (c & 0x0f).count_ones() as usize;
        }
    }
    assert_eq!(bits / 2, w * h - 1);
    let mut seen = vec![vec![false; w]; h];
    let mut stack = vec![(0usize, 0usize)];
    seen[0][0] = true;
    let mut count = 1usize;
    while let Some((x, y)) = stack.pop() {
        for d in [N, S, E, W] {
            if m.grid[y][x] & d != 0 {
                let (nx, ny) = neighbour(x, y, d);
                let (nx, ny) = (nx as usize, ny as usize);
                if !seen[ny][nx] {
                    seen[ny][nx] = true;
                    count += 1;
                    stack.push((nx, ny));
                }
            }
        }
    }
    assert_eq!(count, w * h);
}

#[test]
fn direction_offsets() {
    assert_eq!((get_dx(N), get_dy(N)), (0, -1));
    assert_eq!((get_dx(S), get_dy(S)), (0, 1));
    assert_eq!((get_dx(E), get_dy(E)), (1, 0));
    assert_eq!((get_dx(W), get_dy(W)), (-1, 0));
    assert_eq!((get_dx(0), get_dy(0)), (0, 0));
}

#[test]
fn direction_opposites() {
    assert_eq!(get_opposite(N), S);
    assert_eq!(get_opposite(S), N);
    assert_eq!(get_opposite(E), W);
    assert_eq!(get_opposite(W), E);
    assert_eq!(get_opposite(3), 0);
}

#[test]
fn new_maze_is_closed() {
    let m = Maze::new(3, 2);
    assert_eq!(m.size, (3, 2));
    assert_eq!(m.sz(), (3, 2));
    assert_eq!(m.grid, vec![vec![0u8; 3]; 2]);
}

#[test]
fn open_passage_sets_one_bit() {
    let mut m = Maze::new(2, 2);
    m.open_passage(1, 0, S);
    m.open_passage(1, 0, W);
    assert_eq!(m.grid, vec![vec![0, S | W], vec![0, 0]]);
}

#[test]
fn mode_names() {
    assert_eq!(IndexMode::from_lower_str("random"), Some(IndexMode::Random));
    assert_eq!(IndexMode::from_lower_str("newest"), Some(IndexMode::Newest));
    assert_eq!(IndexMode::from_lower_str("oldest"), Some(IndexMode::Oldest));
    assert_eq!(IndexMode::from_lower_str("middle"), Some(IndexMode::Middle));
    assert_eq!(IndexMode::from_lower_str("Random"), None);
    assert_eq!(IndexMode::from_lower_str(""), None);
}

#[test]
fn mode_indices() {
    let mut rng = ChaCha20Rng::seed_from_u64(1);
    assert_eq!(IndexMode::Newest.evaluate(7, &mut rng), 6);
    assert_eq!(IndexMode::Middle.evaluate(7, &mut rng), 3);
    assert_eq!(IndexMode::Middle.evaluate(1, &mut rng), 0);
    assert_eq!(IndexMode::Oldest.evaluate(7, &mut rng), 0);
    for _ in 0..50 {
        assert!(IndexMode::Random.evaluate(7, &mut rng) < 7);
    }
}

#[test]
fn group_errors() {
    assert_eq!(IndexCommand::new(vec![]).err(), Some(PolicyError::EmptyGroup));
    assert_eq!(
        IndexCommand::new(vec![(3, IndexMode::Newest), (0, IndexMode::Oldest)]).err(),
        Some(PolicyError::ZeroWeight)
    );
    assert_eq!(
        IndexCommand::new(vec![(u64::MAX, IndexMode::Newest), (1, IndexMode::Oldest)]).err(),
        Some(PolicyError::WeightOverflow)
    );
    assert!(IndexCommand::new(vec![(u64::MAX, IndexMode::Newest)]).is_ok());
}

#[test]
fn empty_chain_refused() {
    assert_eq!(GrowingTree::new(vec![]).err(), Some(PolicyError::EmptyChain));
}

#[test]
fn weighted_draw_half_open_boundary() {
    let g = IndexCommand::new(vec![(30, IndexMode::Oldest), (70, IndexMode::Newest)]).unwrap();
    assert_eq!(g.mode_for(0), IndexMode::Oldest);
    assert_eq!(g.mode_for(29), IndexMode::Oldest);
    assert_eq!(g.mode_for(30), IndexMode::Newest);
    assert_eq!(g.mode_for(99), IndexMode::Newest);
}

#[test]
fn weighted_draw_three_pairs() {
    let g = IndexCommand::new(vec![
        (40, IndexMode::Newest),
        (12, IndexMode::Random),
        (2, IndexMode::Oldest),
    ])
    .unwrap();
    assert_eq!(g.mode_for(39), IndexMode::Newest);
    assert_eq!(g.mode_for(40), IndexMode::Random);
    assert_eq!(g.mode_for(51), IndexMode::Random);
    assert_eq!(g.mode_for(52), IndexMode::Oldest);
    assert_eq!(g.mode_for(53), IndexMode::Oldest);
}

#[test]
fn single_mode_groups_are_fixed() {
    let mut rng = ChaCha20Rng::seed_from_u64(3);
    let oldest = IndexCommand::new(vec![(5, IndexMode::Oldest), (9, IndexMode::Oldest)]).unwrap();
    let newest = IndexCommand::new(vec![(1, IndexMode::Newest)]).unwrap();
    for n in 1..20 {
        assert_eq!(oldest.evaluate(n, &mut rng), 0);
        assert_eq!(newest.evaluate(n, &mut rng), n - 1);
    }
}

#[test]
fn round_robin_alternates() {
    let mut rng = ChaCha20Rng::seed_from_u64(9);
    let mut t = chain(vec![vec![(1, IndexMode::Oldest)], vec![(1, IndexMode::Newest)]]);
    let got: Vec<usize> = [5usize, 5, 8, 2, 9, 9].iter().map(|&n| t.next_index(n, &mut rng)).collect();
    assert_eq!(got, vec![0, 4, 0, 1, 0, 8]);
}

#[test]
fn generated_mazes_are_perfect() {
    for seed in 0..10 {
        for &(w, h) in &[(1u64, 2u64), (2, 1), (2, 2), (5, 3), (15, 15), (1, 9)] {
            let m = generate(&mut GrowingTree::default(), w, h, seed);
            assert_eq!(m.size, (w, h));
            assert_perfect(&m);
        }
    }
}

#[test]
fn generated_mazes_are_symmetric() {
    for seed in 0..10 {
        let m = generate(&mut GrowingTree::default(), 12, 7, seed);
        assert_symmetric(&m);
    }
}

#[test]
fn same_seed_same_maze() {
    let a = generate(&mut GrowingTree::default(), 20, 11, 42);
    let b = generate(&mut GrowingTree::default(), 20, 11, 42);
    assert_eq!(a.grid, b.grid);
    assert_eq!(a.render(), b.render());
}

#[test]
fn single_cell_maze_has_no_passage() {
    let m = generate(&mut GrowingTree::default(), 1, 1, 5);
    assert_eq!(m.grid, vec![vec![0u8]]);
    assert_eq!(m.render(), "___\n|_|\n");
}

#[test]
fn single_mode_chains_are_perfect() {
    for mode in [IndexMode::Oldest, IndexMode::Newest, IndexMode::Middle, IndexMode::Random] {
        let m = generate(&mut chain(vec![vec![(1, mode)]]), 9, 6, 11);
        assert_perfect(&m);
        assert_symmetric(&m);
    }
}

#[test]
fn newest_only_first_carves_form_a_path() {
    // Depth-first growth: while no cell has retired, every carve extends the
    // newest cell, so each new cell is adjacent to the previous one.
    let m = generate(&mut chain(vec![vec![(1, IndexMode::Newest)]]), 2, 1, 0);
    assert_eq!(m.grid, vec![vec![E, W]]);
}

#[test]
fn render_two_cells() {
    let m = Maze { grid: vec![vec![E, W]], size: (2, 1) };
    assert_eq!(m.render(), "_____\n|___|\n");
    let m = Maze { grid: vec![vec![S], vec![N]], size: (1, 2) };
    assert_eq!(m.render(), "___\n| |\n|_|\n");
}

#[test]
fn default_chain_generates() {
    let m = generate(&mut GrowingTree::default(), 15, 15, 1);
    let text = m.render();
    assert_eq!(text.lines().count(), 16);
    assert!(text.lines().all(|l| l.chars().count() == 31));
}

#[test]
fn shuffled_directions_vary_the_maze() {
    // With the directions tried in a fixed order, a newest-only chain would
    // give one maze per start cell: at most nine on a 3 by 3 grid.
    let mut seen: Vec<Vec<Vec<u8>>> = Vec::new();
    for seed in 0..200 {
        let m = generate(&mut chain(vec![vec![(1, IndexMode::Newest)]]), 3, 3, seed);
        if !seen.contains(&m.grid) {
            seen.push(m.grid);
        }
    }
    assert!(seen.len() > 9);
}

#[test]
fn random_mode_spreads_over_the_frontier() {
    let mut rng = ChaCha20Rng::seed_from_u64(21);
    let mut hit = [false; 5];
    for _ in 0..200 {
        hit[IndexMode::Random.evaluate(5, &mut rng)] = true;
    }
    assert!(hit.iter().all(|&h| h));
}

#[test]
fn checked_generation_refuses_zero_sides() {
    let mut rng = ChaCha20Rng::seed_from_u64(2);
    let mut t = GrowingTree::default();
    assert_eq!(t.generate_checked(0, 5, &mut rng).err(), Some(SizeError::ZeroSide));
    assert_eq!(t.generate_checked(5, 0, &mut rng).err(), Some(SizeError::ZeroSide));
    let m = t.generate_checked(4, 3, &mut rng).unwrap();
    assert_eq!(m.size, (4, 3));
    assert_perfect(&m);
}
