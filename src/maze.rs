use crate::random::{random_below, shuffle_in_place};
use crate::stack::Stack;
use vstd::prelude::*;

verus! {

/// Largest grid side accepted, so that every cell and pixel index fits in a
/// 32-bit `usize`.
pub const MAX_SIZE: usize = 4096;

#[derive(Clone, Copy, Debug, Default, PartialEq, Eq, Structural)]
pub struct Cell {
    pub row: usize,
    pub col: usize,
    pub visited: bool,
}

#[derive(Clone, Copy, Debug, PartialEq, Eq, Structural)]
pub enum NeighborDir {
    Center,
    North,
    South,
    West,
    East,
}

#[derive(Clone, Copy, Debug, PartialEq, Eq, Structural)]
pub enum WallKind {
    Vertical,
    Horizontal,
}

/// A removed wall: the opening between two adjacent cells.
#[derive(Clone, Copy, Debug, PartialEq, Eq, Structural)]
pub struct Wall {
    pub start: Cell,
    pub target: Cell,
    pub kind: WallKind,
}

/// The grid, stored row by row, and the walls removed so far.
pub struct Env {
    pub size: usize,
    pub grid: Vec<Cell>,
    pub removed_walls: Vec<Wall>,
}

pub open spec fn idx(n: int, r: int, c: int) -> int {
    r * n + c
}

pub open spec fn in_grid(n: int, r: int, c: int) -> bool {
    0 <= r < n && 0 <= c < n
}

pub(crate) proof fn lemma_index_bounds(n: int, r: int, c: int)
    requires
        in_grid(n, r, c),
    ensures
        0 <= idx(n, r, c) < n * n,
{
    assert(0 <= r * n + c < n * n) by (nonlinear_arith)
        requires
            0 <= r < n,
            0 <= c < n,
    ;
}

pub(crate) proof fn lemma_index_unique(n: int, r1: int, c1: int, r2: int, c2: int)
    requires
        in_grid(n, r1, c1),
        in_grid(n, r2, c2),
        idx(n, r1, c1) == idx(n, r2, c2),
    ensures
        r1 == r2,
        c1 == c2,
{
    assert(r1 == r2) by (nonlinear_arith)
        requires
            0 <= r1 < n,
            0 <= c1 < n,
            0 <= r2 < n,
            0 <= c2 < n,
            r1 * n + c1 == r2 * n + c2,
    ;
}

impl Cell {
    pub open spec fn at(self, r: int, c: int) -> bool {
        self.row == r && self.col == c
    }

    /// The cell's linear index in a grid of side `size`.
    pub fn ind(&self, size: usize) -> (r: usize)
        requires
            self.row < size,
            self.col < size,
            size <= MAX_SIZE,
        ensures
            r == idx(size as int, self.row as int, self.col as int),
    {
        proof {
            lemma_index_bounds(size as int, self.row as int, self.col as int);
            assert(size * size <= MAX_SIZE * MAX_SIZE) by (nonlinear_arith)
                requires
                    size <= MAX_SIZE,
            ;
        }
        self.row * size + self.col
    }
}

/// The record kept for the opening between `a` and `b`: a row difference
/// gives a `Vertical` wall, a column difference a `Horizontal` one, and the
/// cell with the larger row or column becomes `target`.
pub open spec fn wall_record(a: Cell, b: Cell) -> Wall {
    let kind = if a.row != b.row {
        WallKind::Vertical
    } else {
        WallKind::Horizontal
    };
    if a.row > b.row || a.col > b.col {
        Wall { start: b, target: a, kind }
    } else {
        Wall { start: a, target: b, kind }
    }
}

/// `w` joins two orthogonally adjacent cells of a grid of side `n`, `start`
/// being the one with the smaller row or column.
pub open spec fn wall_ok(n: int, w: Wall) -> bool {
    in_grid(n, w.start.row as int, w.start.col as int) && in_grid(
        n,
        w.target.row as int,
        w.target.col as int,
    ) && ((w.start.row == w.target.row && w.start.col + 1 == w.target.col && w.kind
        == WallKind::Horizontal) || (w.start.col == w.target.col && w.start.row + 1
        == w.target.row && w.kind == WallKind::Vertical))
}

pub open spec fn touches(w: Wall, r: int, c: int) -> bool {
    w.start.at(r, c) || w.target.at(r, c)
}

/// Cell `(r, c)` is the root or an endpoint of one of the first `k` walls.
pub open spec fn in_tree(walls: Seq<Wall>, root: (int, int), k: int, r: int, c: int) -> bool {
    (r == root.0 && c == root.1) || exists|j: int| 0 <= j < k && #[trigger] touches(walls[j], r, c)
}

/// Each wall joins exactly one cell already reached from `root` by the walls
/// before it to one not yet reached.
pub open spec fn grows_tree(walls: Seq<Wall>, root: (int, int)) -> bool {
    forall|i: int|
        0 <= i < walls.len() ==> in_tree(
            walls,
            root,
            i,
            (#[trigger] walls[i]).start.row as int,
            walls[i].start.col as int,
        ) != in_tree(walls, root, i, walls[i].target.row as int, walls[i].target.col as int)
}

/// The walls form a spanning tree of the grid of side `n`: they join
/// adjacent cells, and, grown one wall at a time from some root, each wall
/// reaches one new cell until all `n * n` cells are reached.
pub open spec fn is_spanning_tree(n: int, walls: Seq<Wall>) -> bool {
    &&& walls.len() == n * n - 1
    &&& forall|i: int| 0 <= i < walls.len() ==> wall_ok(n, #[trigger] walls[i])
    &&& exists|root: (int, int)|
        in_grid(n, root.0, root.1) && grows_tree(walls, root) && forall|r: int, c: int|
            in_grid(n, r, c) ==> #[trigger] in_tree(walls, root, walls.len() as int, r, c)
}

pub open spec fn step(r: int, c: int, d: NeighborDir) -> (int, int) {
    match d {
        NeighborDir::North => (r - 1, c),
        NeighborDir::South => (r + 1, c),
        NeighborDir::West => (r, c - 1),
        NeighborDir::East => (r, c + 1),
        NeighborDir::Center => (r, c),
    }
}

impl Env {
    pub open spec fn wf(&self) -> bool {
        &&& 1 <= self.size <= MAX_SIZE
        &&& self.grid@.len() == self.size * self.size
        &&& forall|r: int, c: int|
            in_grid(self.size as int, r, c) ==> #[trigger] self.grid@[idx(
                self.size as int,
                r,
                c,
            )].at(r, c)
    }

    pub open spec fn visited(&self, r: int, c: int) -> bool {
        self.grid@[idx(self.size as int, r, c)].visited
    }

    /// Moving from `(r, c)` towards `d` stays in the grid and reaches an
    /// unvisited cell.
    pub open spec fn can_enter(&self, r: int, c: int, d: NeighborDir) -> bool {
        let p = step(r, c, d);
        d != NeighborDir::Center && in_grid(self.size as int, p.0, p.1) && !self.visited(p.0, p.1)
    }

    pub open spec fn has_unvisited_neighbor(&self, r: int, c: int) -> bool {
        self.can_enter(r, c, NeighborDir::North) || self.can_enter(r, c, NeighborDir::South)
            || self.can_enter(r, c, NeighborDir::West) || self.can_enter(r, c, NeighborDir::East)
    }

    /// An `size` by `size` grid with every cell unvisited and no wall removed.
    pub fn init(size: usize) -> (env: Env)
        requires
            1 <= size <= MAX_SIZE,
        ensures
            env.wf(),
            env.size == size,
            env.removed_walls@.len() == 0,
            forall|r: int, c: int| in_grid(size as int, r, c) ==> !#[trigger] env.visited(r, c),
    {
        let mut grid: Vec<Cell> = Vec::new();
        proof {
            assert(size * size <= MAX_SIZE * MAX_SIZE) by (nonlinear_arith)
                requires
                    size <= MAX_SIZE,
            ;
            assert(0 * size == 0);
        }
        for r in 0..size
            invariant
                size <= MAX_SIZE,
                grid@.len() == r * size,
                forall|i: int|
                    0 <= i < grid@.len() ==> (#[trigger] grid@[i]).row < size && grid@[i].col
                        < size && !grid@[i].visited && idx(
                        size as int,
                        grid@[i].row as int,
                        grid@[i].col as int,
                    ) == i,
        {
            for c in 0..size
                invariant
                    size <= MAX_SIZE,
                    r < size,
                    grid@.len() == r * size + c,
                    forall|i: int|
                        0 <= i < grid@.len() ==> (#[trigger] grid@[i]).row < size && grid@[i].col
                            < size && !grid@[i].visited && idx(
                            size as int,
                            grid@[i].row as int,
                            grid@[i].col as int,
                        ) == i,
            {
                proof {
                    lemma_index_bounds(size as int, r as int, c as int);
                }
                grid.push(Cell { row: r, col: c, visited: false });
            }
            proof {
                assert(r * size + size == (r + 1) * size) by (nonlinear_arith);
            }
        }
        let env = Env { size, grid, removed_walls: Vec::new() };
        assert forall|r: int, c: int| in_grid(size as int, r, c) implies #[trigger] env.grid@[idx(
            size as int,
            r,
            c,
        )].at(r, c) && !env.visited(r, c) by {
            lemma_index_bounds(size as int, r, c);
            let cell = env.grid@[idx(size as int, r, c)];
            lemma_index_unique(size as int, r, c, cell.row as int, cell.col as int);
        }
        assert forall|r: int, c: int| in_grid(size as int, r, c) implies !#[trigger] env.visited(
            r,
            c,
        ) by {
            lemma_index_bounds(size as int, r, c);
        }
        env
    }

    /// Sees whether `(row, col)` moved towards `d` lands in the grid on an
    /// unvisited cell.
    fn enterable(&self, row: usize, col: usize, d: NeighborDir) -> (b: bool)
        requires
            self.wf(),
            in_grid(self.size as int, row as int, col as int),
        ensures
            b == self.can_enter(row as int, col as int, d),
    {
        let n = self.size as i64;
        let mut new_row = row as i64;
        let mut new_col = col as i64;
        match d {
            NeighborDir::North => new_row = new_row - 1,
            NeighborDir::South => new_row = new_row + 1,
            NeighborDir::West => new_col = new_col - 1,
            NeighborDir::East => new_col = new_col + 1,
            NeighborDir::Center => return false,
        }
        if in_bound(new_row, 0, n) && in_bound(new_col, 0, n) {
            let i = Cell { row: new_row as usize, col: new_col as usize, visited: false }.ind(
                self.size,
            );
            proof {
                lemma_index_bounds(self.size as int, new_row as int, new_col as int);
            }
            !self.grid[i].visited
        } else {
            false
        }
    }
}

/// The first direction of `order` towards which `(r, c)` can move, or
/// `Center` when there is none.
pub open spec fn first_enterable(env: &Env, r: int, c: int, order: Seq<NeighborDir>) -> NeighborDir
    decreases order.len(),
{
    if order.len() == 0 {
        NeighborDir::Center
    } else if env.can_enter(r, c, order[0]) {
        order[0]
    } else {
        first_enterable(env, r, c, order.drop_first())
    }
}

proof fn lemma_first_enterable(env: &Env, r: int, c: int, order: Seq<NeighborDir>)
    ensures
        first_enterable(env, r, c, order) == NeighborDir::Center ==> forall|i: int|
            0 <= i < order.len() ==> !env.can_enter(r, c, #[trigger] order[i]),
        first_enterable(env, r, c, order) != NeighborDir::Center ==> env.can_enter(
            r,
            c,
            first_enterable(env, r, c, order),
        ),
    decreases order.len(),
{
    if order.len() > 0 {
        lemma_first_enterable(env, r, c, order.drop_first());
        if first_enterable(env, r, c, order) == NeighborDir::Center {
            assert forall|i: int| 0 <= i < order.len() implies !env.can_enter(
                r,
                c,
                #[trigger] order[i],
            ) by {
                if i > 0 {
                    assert(order[i] == order.drop_first()[i - 1]);
                }
            }
        }
    }
}

impl Env {
    /// The first direction of `order` that leads from `(row, col)` to an
    /// unvisited cell of the grid, or `Center` when none does.
    pub fn first_unvisited(&self, row: usize, col: usize, order: &Vec<NeighborDir>) -> (d:
        NeighborDir)
        requires
            self.wf(),
            in_grid(self.size as int, row as int, col as int),
        ensures
            d == first_enterable(self, row as int, col as int, order@),
    {
        let mut i: usize = 0;
        assert(order@.subrange(0, order@.len() as int) =~= order@);
        while i < order.len()
            invariant
                self.wf(),
                in_grid(self.size as int, row as int, col as int),
                i <= order@.len(),
                first_enterable(self, row as int, col as int, order@) == first_enterable(
                    self,
                    row as int,
                    col as int,
                    order@.subrange(i as int, order@.len() as int),
                ),
            decreases order@.len() - i,
        {
            let d = order[i];
            proof {
                let rest = order@.subrange(i as int, order@.len() as int);
                assert(rest[0] == d);
                assert(rest.drop_first() =~= order@.subrange(i + 1, order@.len() as int));
            }
            if self.enterable(row, col, d) {
                return d;
            }
            i = i + 1;
        }
        NeighborDir::Center
    }

    /// A direction, tried in a uniformly shuffled order, that leads from
    /// `(row, col)` to an unvisited cell of the grid; `Center` when every
    /// neighbour is visited or off the grid.
    pub fn unvisited_neighbors(&self, row: usize, col: usize, rng: &mut rand::rngs::StdRng) -> (d:
        NeighborDir)
        requires
            self.wf(),
            in_grid(self.size as int, row as int, col as int),
        ensures
            d == NeighborDir::Center <==> !self.has_unvisited_neighbor(row as int, col as int),
            d != NeighborDir::Center ==> self.can_enter(row as int, col as int, d),
    {
        let mut directions = vec![
            NeighborDir::North,
            NeighborDir::South,
            NeighborDir::East,
            NeighborDir::West,
        ];
        let ghost before = directions@;
        shuffle_in_place(&mut directions, rng);
        let d = self.first_unvisited(row, col, &directions);
        proof {
            lemma_first_enterable(self, row as int, col as int, directions@);
            broadcast use vstd::seq_lib::to_multiset_contains;
            assert(before.contains(before[0]));
            assert(before.contains(before[1]));
            assert(before.contains(before[2]));
            assert(before.contains(before[3]));
            assert(before.to_multiset().count(NeighborDir::North) > 0);
            assert(before.to_multiset().count(NeighborDir::South) > 0);
            assert(before.to_multiset().count(NeighborDir::East) > 0);
            assert(before.to_multiset().count(NeighborDir::West) > 0);
            assert(directions@.contains(NeighborDir::North));
            assert(directions@.contains(NeighborDir::South));
            assert(directions@.contains(NeighborDir::East));
            assert(directions@.contains(NeighborDir::West));
        }
        d
    }
}

proof fn lemma_walk_row(env: &Env, r: int, c0: int, c: int)
    requires
        env.wf(),
        in_grid(env.size as int, r, c0),
        in_grid(env.size as int, r, c),
        env.visited(r, c0),
        forall|rr: int, cc: int|
            in_grid(env.size as int, rr, cc) && env.visited(rr, cc)
                ==> !#[trigger] env.has_unvisited_neighbor(rr, cc),
    ensures
        env.visited(r, c),
    decreases (if c > c0 { c - c0 } else { c0 - c }),
{
    if c > c0 {
        lemma_walk_row(env, r, c0, c - 1);
        assert(!env.has_unvisited_neighbor(r, c - 1));
    } else if c < c0 {
        lemma_walk_row(env, r, c0, c + 1);
        assert(!env.has_unvisited_neighbor(r, c + 1));
    }
}

proof fn lemma_walk_col(env: &Env, r0: int, r: int, c: int)
    requires
        env.wf(),
        in_grid(env.size as int, r0, c),
        in_grid(env.size as int, r, c),
        env.visited(r0, c),
        forall|rr: int, cc: int|
            in_grid(env.size as int, rr, cc) && env.visited(rr, cc)
                ==> !#[trigger] env.has_unvisited_neighbor(rr, cc),
    ensures
        env.visited(r, c),
    decreases (if r > r0 { r - r0 } else { r0 - r }),
{
    if r > r0 {
        lemma_walk_col(env, r0, r - 1, c);
        assert(!env.has_unvisited_neighbor(r - 1, c));
    } else if r < r0 {
        lemma_walk_col(env, r0, r + 1, c);
        assert(!env.has_unvisited_neighbor(r + 1, c));
    }
}

pub(crate) proof fn lemma_in_tree_push(walls: Seq<Wall>, w: Wall, root: (int, int), k: int, r: int, c: int)
    requires
        0 <= k <= walls.len(),
    ensures
        in_tree(walls.push(w), root, k, r, c) == in_tree(walls, root, k, r, c),
        in_tree(walls.push(w), root, walls.len() + 1int, r, c) == (in_tree(
            walls,
            root,
            walls.len() as int,
            r,
            c,
        ) || touches(w, r, c)),
{
    let w2 = walls.push(w);
    if in_tree(walls, root, k, r, c) && !(r == root.0 && c == root.1) {
        let j = choose|j: int| 0 <= j < k && #[trigger] touches(walls[j], r, c);
        assert(w2[j] == walls[j]);
    }
    if in_tree(w2, root, k, r, c) && !(r == root.0 && c == root.1) {
        let j = choose|j: int| 0 <= j < k && #[trigger] touches(w2[j], r, c);
        assert(w2[j] == walls[j]);
    }
    let n = walls.len() as int;
    if in_tree(walls, root, n, r, c) && !(r == root.0 && c == root.1) {
        let j = choose|j: int| 0 <= j < n && #[trigger] touches(walls[j], r, c);
        assert(w2[j] == walls[j]);
    }
    if touches(w, r, c) {
        assert(w2[n] == w);
    }
    if in_tree(w2, root, n + 1, r, c) && !(r == root.0 && c == root.1) {
        let j = choose|j: int| 0 <= j < n + 1 && #[trigger] touches(w2[j], r, c);
        if j < n {
            assert(w2[j] == walls[j]);
        }
    }
}

proof fn lemma_mark(e0: Env, e1: Env, tr: int, tc: int)
    requires
        e0.wf(),
        in_grid(e0.size as int, tr, tc),
        e1.size == e0.size,
        e1.grid@ == e0.grid@.update(
            idx(e0.size as int, tr, tc),
            Cell { row: tr as usize, col: tc as usize, visited: true },
        ),
    ensures
        e1.wf(),
        forall|r: int, c: int|
            in_grid(e0.size as int, r, c) ==> #[trigger] e1.visited(r, c) == (e0.visited(r, c) || (r
                == tr && c == tc)),
{
    let n = e0.size as int;
    lemma_index_bounds(n, tr, tc);
    assert forall|r: int, c: int| in_grid(n, r, c) implies #[trigger] e1.grid@[idx(n, r, c)].at(
        r,
        c,
    ) && (e1.visited(r, c) == (e0.visited(r, c) || (r == tr && c == tc))) by {
        lemma_index_bounds(n, r, c);
        assert(e0.grid@[idx(n, r, c)].at(r, c));
        if idx(n, r, c) == idx(n, tr, tc) {
            lemma_index_unique(n, r, c, tr, tc);
        }
    }
    assert forall|r: int, c: int| in_grid(n, r, c) implies #[trigger] e1.visited(r, c) == (
    e0.visited(r, c) || (r == tr && c == tc)) by {
        assert(e1.grid@[idx(n, r, c)].at(r, c));
    }
}

/// What the search keeps of the grid and the walls from one step to the
/// next: the visited cells, counted by `vis`, are exactly those reached from
/// `root` by the walls, which grow a tree.
#[verifier::opaque]
spec fn tree_inv(env: &Env, n: int, root: (int, int), vis: Set<int>) -> bool {
    &&& env.wf()
    &&& env.size == n
    &&& in_grid(n, root.0, root.1)
    &&& env.visited(root.0, root.1)
    &&& vis.finite()
    &&& vis.len() == env.removed_walls@.len() + 1
    &&& vis.len() <= n * n
    &&& forall|i: int| #[trigger] vis.contains(i) ==> 0 <= i < n * n
    &&& forall|r: int, c: int|
        in_grid(n, r, c) ==> (vis.contains(idx(n, r, c)) == #[trigger] env.visited(r, c))
    &&& forall|r: int, c: int|
        in_grid(n, r, c) ==> (#[trigger] env.visited(r, c) == in_tree(
            env.removed_walls@,
            root,
            env.removed_walls@.len() as int,
            r,
            c,
        ))
    &&& grows_tree(env.removed_walls@, root)
    &&& forall|i: int|
        0 <= i < env.removed_walls@.len() ==> wall_ok(n, #[trigger] env.removed_walls@[i])
}

/// What the search keeps of its stack: it holds visited cells of the grid,
/// among them every visited cell with an unvisited neighbour.
spec fn stack_inv(env: &Env, n: int, stack: Seq<Cell>) -> bool {
    &&& forall|i: int|
        0 <= i < stack.len() ==> in_grid(n, (#[trigger] stack[i]).row as int, stack[i].col as int)
            && env.visited(stack[i].row as int, stack[i].col as int)
    &&& forall|r: int, c: int|
        in_grid(n, r, c) && env.visited(r, c) && #[trigger] env.has_unvisited_neighbor(r, c)
            ==> exists|i: int| 0 <= i < stack.len() && (#[trigger] stack[i]).at(r, c)
}

spec fn search_inv(
    env: &Env,
    n: int,
    root: (int, int),
    vis: Set<int>,
    stack: Seq<Cell>,
) -> bool {
    tree_inv(env, n, root, vis) && env.wf() && env.size == n && in_grid(n, root.0, root.1)
        && vis.len() <= n * n && stack_inv(env, n, stack)
}

proof fn lemma_backtrack(env: &Env, n: int, root: (int, int), vis: Set<int>, s0: Seq<Cell>)
    requires
        s0.len() > 0,
        search_inv(env, n, root, vis, s0),
        !env.has_unvisited_neighbor(s0.last().row as int, s0.last().col as int),
    ensures
        search_inv(env, n, root, vis, s0.drop_last()),
{
    let s = s0.drop_last();
    assert forall|r: int, c: int|
        in_grid(n, r, c) && env.visited(r, c) && #[trigger] env.has_unvisited_neighbor(
            r,
            c,
        ) implies exists|i: int| 0 <= i < s.len() && (#[trigger] s[i]).at(r, c) by {
        let i = choose|i: int| 0 <= i < s0.len() && (#[trigger] s0[i]).at(r, c);
        assert(s[i] == s0[i]);
    }
    assert forall|i: int| 0 <= i < s.len() implies in_grid(
        n,
        (#[trigger] s[i]).row as int,
        s[i].col as int,
    ) && env.visited(s[i].row as int, s[i].col as int) by {
        assert(s[i] == s0[i]);
    }
}

#[verifier::rlimit(50)]
proof fn lemma_advance(
    e0: &Env,
    e1: &Env,
    n: int,
    root: (int, int),
    vis: Set<int>,
    s0: Seq<Cell>,
    cur: Cell,
    target: Cell,
    d: NeighborDir,
)
    requires
        search_inv(e0, n, root, vis, s0),
        s0.len() > 0,
        cur == s0.last(),
        e0.can_enter(cur.row as int, cur.col as int, d),
        target.at(step(cur.row as int, cur.col as int, d).0, step(cur.row as int, cur.col as int, d).1),
        target.visited == e0.visited(target.row as int, target.col as int),
        e1.size == e0.size,
        e1.grid@ == e0.grid@.update(
            idx(n, target.row as int, target.col as int),
            Cell { row: target.row, col: target.col, visited: true },
        ),
        e1.removed_walls@ == e0.removed_walls@.push(wall_record(cur, target)),
    ensures
        search_inv(e1, n, root, vis.insert(idx(n, target.row as int, target.col as int)), s0.push(target)),
        vis.insert(idx(n, target.row as int, target.col as int)).len() == vis.len() + 1,
{
    let tr = target.row as int;
    let tc = target.col as int;
    let ti = idx(n, tr, tc);
    let walls0 = e0.removed_walls@;
    let w = wall_record(cur, target);
    let vis1 = vis.insert(ti);
    let s1 = s0.push(target);
    reveal(tree_inv);
    lemma_mark(*e0, *e1, tr, tc);
    lemma_index_bounds(n, tr, tc);
    assert(!vis.contains(ti));
    assert(e0.visited(cur.row as int, cur.col as int));
    vstd::set_lib::lemma_int_range(0, n * n);
    vstd::set_lib::lemma_len_subset(vis1, vstd::set_lib::set_int_range(0, n * n));
    assert forall|r: int, c: int| in_grid(n, r, c) implies (vis1.contains(idx(n, r, c))
        == #[trigger] e1.visited(r, c)) by {
        assert(e0.visited(r, c) == vis.contains(idx(n, r, c)));
        if idx(n, r, c) == ti {
            lemma_index_unique(n, r, c, tr, tc);
        }
    }
    assert forall|r: int, c: int| in_grid(n, r, c) implies (#[trigger] e1.visited(r, c) == in_tree(
        e1.removed_walls@,
        root,
        e1.removed_walls@.len() as int,
        r,
        c,
    )) by {
        assert(e0.visited(r, c) == in_tree(walls0, root, walls0.len() as int, r, c));
        lemma_in_tree_push(walls0, w, root, walls0.len() as int, r, c);
    }
    assert forall|i: int| 0 <= i < e1.removed_walls@.len() implies in_tree(
        e1.removed_walls@,
        root,
        i,
        (#[trigger] e1.removed_walls@[i]).start.row as int,
        e1.removed_walls@[i].start.col as int,
    ) != in_tree(
        e1.removed_walls@,
        root,
        i,
        e1.removed_walls@[i].target.row as int,
        e1.removed_walls@[i].target.col as int,
    ) by {
        let x = e1.removed_walls@[i];
        lemma_in_tree_push(walls0, w, root, i, x.start.row as int, x.start.col as int);
        lemma_in_tree_push(walls0, w, root, i, x.target.row as int, x.target.col as int);
        if i < walls0.len() {
            assert(x == walls0[i]);
        } else {
            assert(e0.visited(cur.row as int, cur.col as int));
            assert(!e0.visited(tr, tc));
        }
    }
    assert forall|i: int| 0 <= i < e1.removed_walls@.len() implies wall_ok(
        n,
        #[trigger] e1.removed_walls@[i],
    ) by {
        if i < walls0.len() {
            assert(e1.removed_walls@[i] == walls0[i]);
        }
    }
    assert forall|i: int| 0 <= i < s1.len() implies in_grid(
        n,
        (#[trigger] s1[i]).row as int,
        s1[i].col as int,
    ) && e1.visited(s1[i].row as int, s1[i].col as int) by {
        if i < s0.len() {
            assert(s1[i] == s0[i]);
            assert(e0.visited(s0[i].row as int, s0[i].col as int));
        }
    }
    assert forall|r: int, c: int|
        in_grid(n, r, c) && e1.visited(r, c) && #[trigger] e1.has_unvisited_neighbor(
            r,
            c,
        ) implies exists|i: int| 0 <= i < s1.len() && (#[trigger] s1[i]).at(r, c) by {
        if r == tr && c == tc {
            assert(s1[s0.len() as int].at(r, c));
        } else {
            assert(e0.visited(r, c));
            assert forall|dd: NeighborDir| #[trigger] e1.can_enter(r, c, dd) implies e0.can_enter(
                r,
                c,
                dd,
            ) by {
                let p = step(r, c, dd);
                if in_grid(n, p.0, p.1) {
                    assert(e1.visited(p.0, p.1) == (e0.visited(p.0, p.1) || (p.0 == tr && p.1
                        == tc)));
                }
            }
            assert(e0.has_unvisited_neighbor(r, c));
            let i = choose|i: int| 0 <= i < s0.len() && (#[trigger] s0[i]).at(r, c);
            assert(s1[i] == s0[i]);
        }
    }
}

proof fn lemma_search_done(env: &Env, n: int, root: (int, int), vis: Set<int>)
    requires
        search_inv(env, n, root, vis, Seq::<Cell>::empty()),
    ensures
        forall|r: int, c: int| in_grid(n, r, c) ==> #[trigger] env.visited(r, c),
        is_spanning_tree(n, env.removed_walls@),
{
    reveal(tree_inv);
    assert forall|rr: int, cc: int| in_grid(n, rr, cc) && env.visited(
        rr,
        cc,
    ) implies !#[trigger] env.has_unvisited_neighbor(rr, cc) by {
        if env.has_unvisited_neighbor(rr, cc) {
            let i = choose|i: int| 0 <= i < 0 && (#[trigger] Seq::<Cell>::empty()[i]).at(rr, cc);
        }
    }
    assert forall|r: int, c: int| in_grid(n, r, c) implies #[trigger] env.visited(r, c) by {
        lemma_walk_row(env, root.0, root.1, c);
        lemma_walk_col(env, root.0, r, c);
    }
    assert forall|i: int| 0 <= i < n * n implies #[trigger] vis.contains(i) by {
        vstd::arithmetic::div_mod::lemma_fundamental_div_mod(i, n);
        vstd::arithmetic::div_mod::lemma_mod_pos_bound(i, n);
        vstd::arithmetic::div_mod::lemma_div_pos_is_pos(i, n);
        vstd::arithmetic::div_mod::lemma_multiply_divide_lt(i, n, n);
        assert(idx(n, i / n, i % n) == i) by (nonlinear_arith)
            requires
                i == n * (i / n) + (i % n),
        ;
        assert(env.visited(i / n, i % n));
    }
    assert(vis =~= vstd::set_lib::set_int_range(0, n * n));
    vstd::set_lib::lemma_int_range(0, n * n);
    assert forall|r: int, c: int| in_grid(n, r, c) implies #[trigger] in_tree(
        env.removed_walls@,
        root,
        env.removed_walls@.len() as int,
        r,
        c,
    ) by {
        assert(env.visited(r, c));
    }
    assert(in_grid(n, root.0, root.1) && grows_tree(env.removed_walls@, root) && forall|
        r: int,
        c: int,
    |
        in_grid(n, r, c) ==> #[trigger] in_tree(
            env.removed_walls@,
            root,
            env.removed_walls@.len() as int,
            r,
            c,
        ));
}

/// Carves a perfect maze into a fresh grid by randomized depth-first search
/// from a random start cell; each step into an unvisited cell removes the
/// wall crossed.
pub fn gen_maze(env: &mut Env, rng: &mut rand::rngs::StdRng)
    requires
        old(env).wf(),
        old(env).removed_walls@.len() == 0,
        forall|r: int, c: int|
            in_grid(old(env).size as int, r, c) ==> !#[trigger] old(env).visited(r, c),
    ensures
        final(env).wf(),
        final(env).size == old(env).size,
        forall|r: int, c: int|
            in_grid(final(env).size as int, r, c) ==> #[trigger] final(env).visited(r, c),
        is_spanning_tree(final(env).size as int, final(env).removed_walls@),
{
    let n = env.size;
    let ghost nn = n as int;
    let row = random_below(rng, n);
    let col = random_below(rng, n);
    let start_i = Cell { row, col, visited: false }.ind(n);
    proof {
        lemma_index_bounds(nn, row as int, col as int);
    }
    let current = env.grid[start_i];
    let ghost e0 = *env;
    let mut marked = current;
    marked.visited = true;
    env.grid[start_i] = marked;
    let ghost root = (row as int, col as int);
    let ghost mut vis: Set<int> = Set::empty().insert(start_i as int);
    let mut stack: Stack<Cell> = Stack::new();
    stack.push(current);
    proof {
        reveal(tree_inv);
        assert(e0.grid@[idx(nn, row as int, col as int)].at(row as int, col as int));
        lemma_mark(e0, *env, row as int, col as int);
        assert forall|r: int, c: int| in_grid(nn, r, c) implies (vis.contains(idx(nn, r, c))
            == #[trigger] env.visited(r, c)) && (env.visited(r, c) == in_tree(
            env.removed_walls@,
            root,
            env.removed_walls@.len() as int,
            r,
            c,
        )) by {
            assert(!e0.visited(r, c));
            lemma_index_bounds(nn, r, c);
            if idx(nn, r, c) == start_i {
                lemma_index_unique(nn, r, c, root.0, root.1);
            }
        }
        vstd::set_lib::lemma_int_range(0, nn * nn);
        vstd::set_lib::lemma_len_subset(vis, vstd::set_lib::set_int_range(0, nn * nn));
        assert(stack@[0] == current);
    }
    while stack.len() > 0
        invariant
            nn == n as int,
            search_inv(env, nn, root, vis, stack@),
        decreases 2 * (nn * nn - vis.len()) + stack@.len(),
    {
        let ghost s0 = stack@;
        let cur = stack.pop().unwrap();
        proof {
            assert(s0[s0.len() - 1] == cur);
            assert(in_grid(nn, s0[s0.len() - 1].row as int, s0[s0.len() - 1].col as int));
        }
        let d = env.unvisited_neighbors(cur.row, cur.col, rng);
        if d == NeighborDir::Center {
            proof {
                lemma_backtrack(env, nn, root, vis, s0);
            }
            continue;
        }
        stack.push(cur);
        proof {
            assert(stack@ =~= s0);
        }
        let mut tr = cur.row;
        let mut tc = cur.col;
        match d {
            NeighborDir::North => tr = tr - 1,
            NeighborDir::South => tr = tr + 1,
            NeighborDir::West => tc = tc - 1,
            NeighborDir::East => tc = tc + 1,
            NeighborDir::Center => {},
        }
        proof {
            assert(env.can_enter(cur.row as int, cur.col as int, d));
            assert(tr == step(cur.row as int, cur.col as int, d).0);
            assert(tc == step(cur.row as int, cur.col as int, d).1);
        }
        let ti = Cell { row: tr, col: tc, visited: false }.ind(n);
        proof {
            lemma_index_bounds(nn, tr as int, tc as int);
            assert(env.grid@[idx(nn, tr as int, tc as int)].at(tr as int, tc as int));
        }
        let target = env.grid[ti];
        let ghost e1 = *env;
        remove_wall(&mut env.removed_walls, cur, target);
        let mut marked = target;
        marked.visited = true;
        env.grid[ti] = marked;
        proof {
            lemma_advance(&e1, env, nn, root, vis, s0, cur, target, d);
            vis = vis.insert(ti as int);
        }
        stack.push(target);
    }
    proof {
        assert(stack@ =~= Seq::<Cell>::empty());
        lemma_search_done(env, nn, root, vis);
    }
}

/// `low <= val < high`.
pub fn in_bound(val: i64, low: i64, high: i64) -> (b: bool)
    ensures
        b == (low <= val && val < high),
{
    (val >= low) && (val < high)
}

/// Records the opening between `start` and `target` (see `wall_record`).
pub fn remove_wall(walls: &mut Vec<Wall>, start: Cell, target: Cell)
    requires
        !(start.row == target.row && start.col == target.col),
    ensures
        final(walls)@ == old(walls)@.push(wall_record(start, target)),
{
    let kind = if start.row != target.row {
        WallKind::Vertical
    } else {
        WallKind::Horizontal
    };
    if start.row > target.row || start.col > target.col {
        walls.push(Wall { start: target, target: start, kind });
    } else {
        walls.push(Wall { start, target, kind });
    }
}

} // verus!
