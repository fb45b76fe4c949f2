use maze_gen::maze::{gen_maze, in_bound, remove_wall, Cell, Env, NeighborDir, Wall, WallKind};
use maze_gen::ppm::ppm_bytes;
use maze_gen::render::{draw_maze, fill_rect, img_size, render_maze, OPEN_COLOR, SOLID_COLOR};
use maze_gen::stack::Stack;
use rand::rngs::StdRng;
use rand::SeedableRng;

fn cell(row: usize, col: usize) -> Cell {
    Cell { row, col, visited: false }
}

fn generated(size: usize, seed: u64) -> Env {
    let mut env = Env::init(size);
    let mut rng = StdRng::seed_from_u64(seed);
    gen_maze(&mut env, &mut rng);
    env
}

fn find(parent: &mut Vec<usize>, mut i: usize) -> usize {
    while parent[i] != i {
        i = parent[i];
    }
    i
}

/// Checks with a union-find that the walls join all cells without a cycle.
fn assert_spanning_tree(env: &Env) {
    let n = env.size;
    assert_eq!(env.removed_walls.len(), n * n - 1);
    let mut parent: Vec<usize> = (0..n * n).collect();
    for w in env.removed_walls.iter() {
        let a = find(&mut parent, w.start.ind(n));
        let b = find(&mut parent, w.target.ind(n));
        assert_ne!(a, b, "a wall closes a cycle");
        parent[a] = b;
    }
    let root = find(&mut parent, 0);
    for i in 0..n * n {
        assert_eq!(find(&mut parent, i), root);
    }
}

#[test]
fn stack_is_last_in_first_out() {
    let mut s: Stack<u32> = Stack::new();
    assert_eq!(s.len(), 0);
    assert_eq!(s.pop(), None);
    s.push(1);
    s.push(2);
    assert_eq!(s.len(), 2);
    assert_eq!(s.pop(), Some(2));
    assert_eq!(s.pop(), Some(1));
    assert_eq!(s.pop(), None);
    assert_eq!(s.len(), 0);
}

#[test]
fn cell_index_is_row_major() {
    assert_eq!(cell(0, 0).ind(10), 0);
    assert_eq!(cell(3, 7).ind(10), 37);
    assert_eq!(cell(9, 9).ind(10), 99);
    assert_eq!(cell(1, 0).ind(2), 2);
}

#[test]
fn in_bound_is_half_open() {
    assert!(in_bound(0, 0, 10));
    assert!(in_bound(9, 0, 10));
    assert!(!in_bound(10, 0, 10));
    assert!(!in_bound(-1, 0, 10));
}

#[test]
fn init_places_every_cell_unvisited() {
    let env = Env::init(3);
    assert_eq!(env.size, 3);
    assert_eq!(env.grid.len(), 9);
    assert!(env.removed_walls.is_empty());
    for r in 0..3 {
        for c in 0..3 {
            let x = env.grid[r * 3 + c];
            assert_eq!((x.row, x.col, x.visited), (r, c, false));
        }
    }
}

#[test]
fn remove_wall_orders_and_labels() {
    let mut walls: Vec<Wall> = Vec::new();
    remove_wall(&mut walls, cell(0, 0), cell(0, 1));
    remove_wall(&mut walls, cell(0, 1), cell(0, 0));
    remove_wall(&mut walls, cell(2, 3), cell(1, 3));
    remove_wall(&mut walls, cell(1, 3), cell(2, 3));
    assert_eq!(walls.len(), 4);
    for w in &walls[0..2] {
        assert_eq!((w.start.row, w.start.col), (0, 0));
        assert_eq!((w.target.row, w.target.col), (0, 1));
        assert_eq!(w.kind, WallKind::Horizontal);
    }
    for w in &walls[2..4] {
        assert_eq!((w.start.row, w.start.col), (1, 3));
        assert_eq!((w.target.row, w.target.col), (2, 3));
        assert_eq!(w.kind, WallKind::Vertical);
    }
}

#[test]
fn first_unvisited_follows_the_given_order() {
    let mut env = Env::init(3);
    let order = vec![NeighborDir::North, NeighborDir::East, NeighborDir::South, NeighborDir::West];
    assert_eq!(env.first_unvisited(0, 0, &order), NeighborDir::East);
    assert_eq!(env.first_unvisited(1, 1, &order), NeighborDir::North);
    env.grid[1].visited = true;
    assert_eq!(env.first_unvisited(1, 1, &order), NeighborDir::East);
    env.grid[5].visited = true;
    env.grid[7].visited = true;
    env.grid[3].visited = true;
    assert_eq!(env.first_unvisited(1, 1, &order), NeighborDir::Center);
}

#[test]
fn unvisited_neighbors_finds_the_only_free_cell() {
    let mut env = Env::init(2);
    let mut rng = StdRng::seed_from_u64(3);
    env.grid[1].visited = true;
    env.grid[3].visited = true;
    for _ in 0..20 {
        assert_eq!(env.unvisited_neighbors(0, 0, &mut rng), NeighborDir::South);
    }
    env.grid[2].visited = true;
    assert_eq!(env.unvisited_neighbors(0, 0, &mut rng), NeighborDir::Center);
}

#[test]
fn maze_of_size_two_is_a_tree() {
    for seed in 0..20 {
        let env = generated(2, seed);
        assert_eq!(env.grid.len(), 4);
        assert_eq!(env.removed_walls.len(), 3);
        for (i, a) in env.removed_walls.iter().enumerate() {
            assert!(a.start.ind(2) != a.target.ind(2));
            for b in env.removed_walls.iter().skip(i + 1) {
                let same = a.start.ind(2) == b.start.ind(2) && a.target.ind(2) == b.target.ind(2);
                assert!(!same);
            }
        }
        assert_spanning_tree(&env);
    }
}

#[test]
fn generated_maze_is_a_spanning_tree() {
    for seed in 0..10 {
        let env = generated(10, seed);
        assert!(env.grid.iter().all(|c| c.visited));
        assert_spanning_tree(&env);
    }
}

#[test]
fn generated_walls_are_adjacent_and_oriented() {
    let env = generated(10, 42);
    for w in env.removed_walls.iter() {
        let (s, t) = (w.start, w.target);
        match w.kind {
            WallKind::Horizontal => assert!(s.row == t.row && s.col + 1 == t.col),
            WallKind::Vertical => assert!(s.col == t.col && s.row + 1 == t.row),
        }
    }
}

#[test]
fn same_seed_gives_same_maze_and_image() {
    let a = generated(10, 7);
    let b = generated(10, 7);
    assert_eq!(a.removed_walls, b.removed_walls);
    assert_eq!(render_maze(&a), render_maze(&b));
}

#[test]
fn image_side_formula() {
    assert_eq!(img_size(10), 111);
    assert_eq!(img_size(2), 23);
    assert_eq!(img_size(1), 12);
}

#[test]
fn fill_rect_paints_only_the_rectangle() {
    let mut p = vec![0u32; 16];
    fill_rect(&mut p, 4, 1, 2, 2, 1, 5);
    let expected = vec![0, 0, 0, 0, 0, 0, 0, 0, 0, 5, 5, 0, 0, 0, 0, 0];
    assert_eq!(p, expected);
}

#[test]
fn no_walls_removed_gives_closed_grid() {
    let env = Env::init(2);
    let side = img_size(2);
    let mut p = vec![7u32; side * side];
    draw_maze(&env, &mut p);
    for y in 0..side {
        for x in 0..side {
            let border = x % 11 == 0 || y % 11 == 0;
            let expected = if border { SOLID_COLOR } else { 7 };
            assert_eq!(p[y * side + x], expected, "pixel ({}, {})", x, y);
        }
    }
}

#[test]
fn one_wall_opens_one_segment() {
    let mut env = Env::init(2);
    remove_wall(&mut env.removed_walls, cell(0, 0), cell(0, 1));
    let side = img_size(2);
    let p = render_maze(&env);
    assert_eq!(p.len(), side * side);
    let mut open_on_border = Vec::new();
    for y in 0..side {
        for x in 0..side {
            let border = x % 11 == 0 || y % 11 == 0;
            if border && p[y * side + x] == OPEN_COLOR {
                open_on_border.push((x, y));
            }
            if !border {
                assert_eq!(p[y * side + x], OPEN_COLOR);
            }
        }
    }
    let expected: Vec<(usize, usize)> = (12..22).map(|x| (x, 0)).collect();
    assert_eq!(open_on_border, expected);
}

#[test]
fn ppm_header_and_length() {
    let env = generated(10, 1);
    let p = render_maze(&env);
    let bytes = ppm_bytes(&p, img_size(10));
    let header = b"P6\n111 111 255\n";
    assert_eq!(&bytes[..header.len()], &header[..]);
    assert_eq!(bytes.len(), header.len() + 111 * 111 * 3);
}

#[test]
fn ppm_pixels_are_red_green_blue() {
    let p = vec![0x32A852u32, 0x010203, 0x0, 0xFFFFFF];
    let bytes = ppm_bytes(&p, 2);
    let mut expected = b"P6\n2 2 255\n".to_vec();
    expected.extend_from_slice(&[0x32, 0xa8, 0x52, 1, 2, 3, 0, 0, 0, 255, 255, 255]);
    assert_eq!(bytes, expected);
}

#[test]
fn maze_of_size_one_has_no_walls() {
    let env = generated(1, 5);
    assert!(env.removed_walls.is_empty());
    assert!(env.grid[0].visited);
    let p = render_maze(&env);
    assert_eq!(p.len(), 144);
    for y in 0..12 {
        for x in 0..12 {
            let border = x % 11 == 0 || y % 11 == 0;
            let expected = if border { SOLID_COLOR } else { OPEN_COLOR };
            assert_eq!(p[y * 12 + x], expected);
        }
    }
}

#[test]
fn neighbour_order_is_shuffled() {
    let env = Env::init(3);
    let mut rng = StdRng::seed_from_u64(11);
    let mut seen = Vec::new();
    for _ in 0..64 {
        let d = env.unvisited_neighbors(1, 1, &mut rng);
        assert!(d != NeighborDir::Center);
        if !seen.contains(&d) {
            seen.push(d);
        }
    }
    assert_eq!(seen.len(), 4);
}

#[test]
fn different_seeds_give_different_mazes() {
    let first = generated(10, 100);
    let differs = (101..110).any(|seed| generated(10, seed).removed_walls != first.removed_walls);
    assert!(differs);
}
