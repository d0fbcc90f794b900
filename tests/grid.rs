use particle_chemistry::Grid;

#[test]
fn new_grid_is_empty() {
    let g: Grid<u32> = Grid::new(4, 3);
    assert_eq!(g.cols(), 4);
    assert_eq!(g.rows(), 3);
    assert_eq!(g.cell_count(), 12);
    assert_eq!(g.particle_count(), 0);
    for c in 0..12 {
        assert!(g.cell(c).is_empty());
    }
}

#[test]
fn cell_index_is_row_major() {
    let g: Grid<u32> = Grid::new(4, 3);
    assert_eq!(g.cell_index(0, 0), 0);
    assert_eq!(g.cell_index(3, 0), 3);
    assert_eq!(g.cell_index(1, 2), 9);
}

#[test]
fn neighbors_wrap_round() {
    let g: Grid<u32> = Grid::new(4, 3);
    assert_eq!(g.neighbor(3, 1, 0), 0);
    assert_eq!(g.neighbor(0, -1, 0), 3);
    assert_eq!(g.neighbor(0, 0, -1), 8);
    assert_eq!(g.neighbor(9, 0, 1), 1);
    assert_eq!(g.neighbor(11, 1, 1), 0);
    assert_eq!(g.neighbor(5, 1, 1), 10);
    assert_eq!(g.neighbor(5, 0, 0), 5);
}

#[test]
fn forward_neighbors_are_east_south_southwest_southeast() {
    let g: Grid<u32> = Grid::new(4, 3);
    assert_eq!(g.forward_neighbors(5), vec![(6, 1, 0), (9, 0, 1), (8, -1, 1), (10, 1, 1)]);
    assert_eq!(g.forward_neighbors(11), vec![(8, 1, 0), (3, 0, 1), (2, -1, 1), (0, 1, 1)]);
    assert_eq!(g.forward_neighbors(0), vec![(1, 1, 0), (4, 0, 1), (7, -1, 1), (5, 1, 1)]);
}

#[test]
fn forward_stencil_reaches_each_touching_pair_once() {
    let (cols, rows) = (5usize, 4usize);
    let g: Grid<u32> = Grid::new(cols, rows);
    let n = cols * rows;
    let mut seen = vec![vec![0u32; n]; n];
    for c in 0..n {
        for (d, _, _) in g.forward_neighbors(c) {
            let (a, b) = if c < d { (c, d) } else { (d, c) };
            seen[a][b] += 1;
        }
    }
    for a in 0..n {
        for b in (a + 1)..n {
            let mut touching = false;
            for dx in [-1isize, 0, 1] {
                for dy in [-1isize, 0, 1] {
                    if (dx, dy) != (0, 0) && g.neighbor(a, dx, dy) == b {
                        touching = true;
                    }
                }
            }
            assert_eq!(seen[a][b], if touching { 1 } else { 0 }, "cells {} and {}", a, b);
        }
    }
}

#[test]
fn place_and_set() {
    let mut g: Grid<(u32, u32)> = Grid::new(2, 2);
    g.place(3, (1, 1));
    g.place(3, (2, 2));
    g.place(0, (3, 3));
    assert_eq!(g.particle_count(), 3);
    assert_eq!(g.cell_len(3), 2);
    assert_eq!(*g.get(3, 1), (2, 2));
    g.set(3, 1, (9, 9));
    assert_eq!(g.cell(3), &vec![(1, 1), (9, 9)]);
    assert_eq!(g.particle_count(), 3);
}

#[test]
fn relocating_east_from_the_last_column_wraps_to_column_zero() {
    let mut g: Grid<(u32, u32)> = Grid::new(3, 2);
    let from = g.cell_index(2, 1);
    g.place(from, (7, 0));
    g.relocate(from, 0, 1, 0);
    assert_eq!(g.cell_len(from), 0);
    let to = g.cell_index(0, 1);
    assert_eq!(g.cell(to), &vec![(7, 0)]);
}

#[test]
fn relocating_east_inside_the_grid_goes_one_column_over() {
    let mut g: Grid<u32> = Grid::new(3, 2);
    g.place(0, 5);
    g.relocate(0, 0, 1, 0);
    assert_eq!(g.cell(1), &vec![5]);
    assert!(g.cell(0).is_empty());
}

#[test]
fn relocate_swaps_the_last_into_the_freed_place() {
    let mut g: Grid<u32> = Grid::new(3, 3);
    for v in [10u32, 11, 12, 13] {
        g.place(4, v);
    }
    g.relocate(4, 1, -1, -1);
    assert_eq!(g.cell(4), &vec![10, 13, 12]);
    assert_eq!(g.cell(0), &vec![11]);
}

#[test]
fn particle_count_is_conserved_by_migration() {
    let mut g: Grid<u64> = Grid::new(4, 4);
    let mut state: u64 = 12345;
    for k in 0..200u64 {
        state = state.wrapping_mul(6364136223846793005).wrapping_add(1442695040888963407);
        g.place((state >> 33) as usize % 16, k);
    }
    assert_eq!(g.particle_count(), 200);
    for _ in 0..500 {
        state = state.wrapping_mul(6364136223846793005).wrapping_add(1442695040888963407);
        let cell = (state >> 33) as usize % 16;
        if g.cell_len(cell) == 0 {
            continue;
        }
        let i = (state >> 20) as usize % g.cell_len(cell);
        let dx = ((state >> 10) % 3) as isize - 1;
        let dy = ((state >> 5) % 3) as isize - 1;
        g.relocate(cell, i, dx, dy);
        assert_eq!(g.particle_count(), 200);
    }
    let mut all: Vec<u64> = (0..16).flat_map(|c| g.cell(c).clone()).collect();
    all.sort();
    assert_eq!(all, (0..200).collect::<Vec<u64>>());
}

#[test]
fn migrate_moves_each_particle_by_its_step() {
    let mut g: Grid<u32> = Grid::new(3, 3);
    g.place(0, 1);
    g.place(0, 2);
    g.place(0, 3);
    g.place(8, 4);
    g.place(4, 5);
    let mut moves: Vec<Vec<(isize, isize)>> = (0..9).map(|c| vec![(0, 0); g.cell_len(c)]).collect();
    moves[0] = vec![(0, 0), (-1, 0), (1, 1)];
    moves[8] = vec![(1, 1)];
    moves[4] = vec![(0, 0)];
    g.migrate(&moves);
    assert_eq!(g.particle_count(), 5);
    let sorted = |c: &Vec<u32>| {
        let mut v = c.clone();
        v.sort();
        v
    };
    assert_eq!(sorted(g.cell(0)), vec![1, 4]);
    assert_eq!(sorted(g.cell(2)), vec![2]);
    assert_eq!(sorted(g.cell(4)), vec![3, 5]);
    assert!(g.cell(8).is_empty());
}

#[test]
fn migrate_wraps_east_from_the_last_column() {
    let mut g: Grid<char> = Grid::new(4, 2);
    let from = g.cell_index(3, 0);
    g.place(from, 'a');
    g.place(from, 'b');
    let mut moves: Vec<Vec<(isize, isize)>> = vec![vec![]; 8];
    moves[from] = vec![(1, 0), (0, 0)];
    g.migrate(&moves);
    assert_eq!(g.cell(g.cell_index(0, 0)), &vec!['a']);
    assert_eq!(g.cell(from), &vec!['b']);
}

#[test]
fn migrate_keeps_every_particle() {
    let mut g: Grid<u64> = Grid::new(5, 3);
    let mut state: u64 = 99;
    for k in 0..300u64 {
        state = state.wrapping_mul(6364136223846793005).wrapping_add(1442695040888963407);
        g.place((state >> 33) as usize % 15, k);
    }
    for _ in 0..20 {
        let mut moves = Vec::new();
        for c in 0..15 {
            let mut m = Vec::new();
            for _ in 0..g.cell_len(c) {
                state = state.wrapping_mul(6364136223846793005).wrapping_add(1442695040888963407);
                m.push((((state >> 40) % 3) as isize - 1, ((state >> 50) % 3) as isize - 1));
            }
            moves.push(m);
        }
        g.migrate(&moves);
        assert_eq!(g.particle_count(), 300);
    }
    let mut all: Vec<u64> = (0..15).flat_map(|c| g.cell(c).clone()).collect();
    all.sort();
    assert_eq!(all, (0..300).collect::<Vec<u64>>());
}

#[test]
fn interaction_visits_list_each_pair_once() {
    let mut g: Grid<u32> = Grid::new(4, 3);
    g.place(5, 0);
    g.place(5, 1);
    g.place(5, 2);
    g.place(6, 10);
    g.place(9, 20);
    g.place(9, 21);
    g.place(4, 30);
    g.place(10, 40);
    g.place(8, 50);
    let v = g.interaction_visits(5);
    let mut expected = Vec::new();
    for i in 0..3usize {
        expected.push((i, 6, 0, 1, 0));
        expected.push((i, 9, 0, 0, 1));
        expected.push((i, 9, 1, 0, 1));
        expected.push((i, 8, 0, -1, 1));
        expected.push((i, 10, 0, 1, 1));
        for j in (i + 1)..3 {
            expected.push((i, 5, j, 0, 0));
        }
    }
    assert_eq!(v, expected);
}

#[test]
fn interaction_visits_of_an_empty_cell_are_empty() {
    let mut g: Grid<u32> = Grid::new(3, 3);
    g.place(1, 7);
    assert!(g.interaction_visits(0).is_empty());
}

#[test]
fn interaction_visits_of_a_lone_particle_reach_only_neighbors() {
    let mut g: Grid<u32> = Grid::new(3, 3);
    g.place(0, 7);
    g.place(1, 8);
    g.place(3, 9);
    g.place(2, 6);
    assert_eq!(g.interaction_visits(0), vec![(0, 1, 0, 1, 0), (0, 3, 0, 0, 1)]);
}
