use crate::maze::{idx, in_grid, lemma_index_bounds, lemma_index_unique, wall_ok, Env, Wall, WallKind, MAX_SIZE};
use vstd::prelude::*;

verus! {

pub const SOLID_COLOR: u32 = 0x32A852;

pub const OPEN_COLOR: u32 = 0x0;

pub const OPEN_PATH_SIZE: u32 = 10;

pub const BORDER_THICKNESS: u32 = 1;

/// Side in pixels of the image of a maze of side `n`.
pub open spec fn side_of(n: int) -> int {
    n * OPEN_PATH_SIZE + (n + 1) * BORDER_THICKNESS
}

/// The pixel at column `x` and row `y` of a row-major buffer of side `side`.
pub open spec fn pixel(p: Seq<u32>, side: int, x: int, y: int) -> u32 {
    p[idx(side, y, x)]
}

pub open spec fn in_rect(x: int, y: int, rx: int, ry: int, rw: int, rh: int) -> bool {
    rx <= x < rx + rw && ry <= y < ry + rh
}

/// Offset in pixels of grid line `k`, counted from the top or the left.
pub open spec fn line_offset(k: int) -> int {
    k * (OPEN_PATH_SIZE as int + BORDER_THICKNESS as int)
}

/// `v` is the offset of one of the `n + 1` grid lines.
pub open spec fn is_line(n: int, v: int) -> bool {
    exists|k: int| 0 <= k <= n && v == #[trigger] line_offset(k)
}

/// The rectangle `(x, y, width, height)` opened for a removed wall, anchored
/// at its `target` cell.
pub open spec fn opening(w: Wall) -> (int, int, int, int) {
    let o = OPEN_PATH_SIZE as int;
    let b = BORDER_THICKNESS as int;
    let tr = w.target.row as int;
    let tc = w.target.col as int;
    match w.kind {
        WallKind::Vertical => (tc * o + tc * b, tr * o + tr * b + b, b, o),
        WallKind::Horizontal => (tc * o + tc * b + b, tr * o + tr * b, o, b),
    }
}

pub open spec fn in_opening(w: Wall, x: int, y: int) -> bool {
    let r = opening(w);
    in_rect(x, y, r.0, r.1, r.2, r.3)
}

/// The colour of pixel `(x, y)` once the maze is drawn over `old`: open where
/// a removed wall was, the wall colour on the grid lines, `old` elsewhere.
pub open spec fn drawn(n: int, walls: Seq<Wall>, old: Seq<u32>, x: int, y: int) -> u32 {
    if exists|i: int| 0 <= i < walls.len() && #[trigger] in_opening(walls[i], x, y) {
        OPEN_COLOR
    } else if is_line(n, x) || is_line(n, y) {
        SOLID_COLOR
    } else {
        pixel(old, side_of(n), x, y)
    }
}

/// Side in pixels of the image of a maze of side `size`.
pub fn img_size(size: usize) -> (r: usize)
    requires
        size <= MAX_SIZE,
    ensures
        r == side_of(size as int),
{
    size * 10 + (size + 1)
}

/// Paints the `rw` by `rh` rectangle at `(rx, ry)` with `color`.
pub fn fill_rect(pixels: &mut Vec<u32>, side: usize, rx: u32, ry: u32, rw: u32, rh: u32, color: u32)
    requires
        side <= side_of(MAX_SIZE as int),
        old(pixels)@.len() == side * side,
        rx + rw <= side,
        ry + rh <= side,
    ensures
        final(pixels)@.len() == old(pixels)@.len(),
        forall|x: int, y: int|
            in_grid(side as int, y, x) ==> #[trigger] pixel(final(pixels)@, side as int, x, y) == if in_rect(
                x,
                y,
                rx as int,
                ry as int,
                rw as int,
                rh as int,
            ) {
                color
            } else {
                pixel(old(pixels)@, side as int, x, y)
            },
{
    let ghost base = pixels@;
    let ghost s = side as int;
    proof {
        assert(side * side <= side_of(MAX_SIZE as int) * side_of(MAX_SIZE as int)) by (nonlinear_arith)
            requires
                side <= side_of(MAX_SIZE as int),
        ;
    }
    for y in ry..(ry + rh)
        invariant
            s == side as int,
            side <= side_of(MAX_SIZE as int),
            rx + rw <= side,
            ry + rh <= side,
            pixels@.len() == base.len(),
            base.len() == side * side,
            forall|x: int, yy: int|
                in_grid(s, yy, x) ==> #[trigger] pixel(pixels@, s, x, yy) == if in_rect(
                    x,
                    yy,
                    rx as int,
                    ry as int,
                    rw as int,
                    y - ry,
                ) {
                    color
                } else {
                    pixel(base, s, x, yy)
                },
    {
        let ghost row_start = pixels@;
        for x in rx..(rx + rw)
            invariant
                s == side as int,
                side <= side_of(MAX_SIZE as int),
                rx + rw <= side,
                ry <= y < ry + rh,
                ry + rh <= side,
                pixels@.len() == base.len(),
                base.len() == side * side,
                forall|xx: int, yy: int|
                    in_grid(s, yy, xx) ==> #[trigger] pixel(pixels@, s, xx, yy) == if yy == y && rx
                        <= xx < x {
                        color
                    } else {
                        pixel(row_start, s, xx, yy)
                    },
        {
            proof {
                lemma_index_bounds(s, y as int, x as int);
            }
            proof {
                assert(y * side + x < side * side);
                assert(side * side <= 2030133249) by (nonlinear_arith)
                    requires
                        side <= 45057,
                ;
            }
            let i = (y as usize) * side + (x as usize);
            let ghost pb = pixels@;
            pixels[i] = color;
            proof {
                assert forall|xx: int, yy: int| in_grid(s, yy, xx) implies #[trigger] pixel(
                    pixels@,
                    s,
                    xx,
                    yy,
                ) == if yy == y && rx <= xx < x + 1 {
                    color
                } else {
                    pixel(row_start, s, xx, yy)
                } by {
                    lemma_index_bounds(s, yy, xx);
                    assert(pixel(pb, s, xx, yy) == pb[idx(s, yy, xx)]);
                    if idx(s, yy, xx) == i {
                        lemma_index_unique(s, yy, xx, y as int, x as int);
                    }
                }
            }
        }
    }
}

/// `v` is the offset of one of the first `m` grid lines.
pub open spec fn line_below(m: int, v: int) -> bool {
    exists|k: int| 0 <= k < m && v == #[trigger] line_offset(k)
}

/// Draws the maze over `pixels`, an image of side `img_size(env.size)` stored
/// row by row: every grid line in the wall colour, then every removed wall
/// opened in the open colour.
pub fn draw_maze(env: &Env, pixels: &mut Vec<u32>)
    requires
        env.wf(),
        forall|i: int|
            0 <= i < env.removed_walls@.len() ==> wall_ok(
                env.size as int,
                #[trigger] env.removed_walls@[i],
            ),
        old(pixels)@.len() == side_of(env.size as int) * side_of(env.size as int),
    ensures
        final(pixels)@.len() == old(pixels)@.len(),
        forall|x: int, y: int|
            in_grid(side_of(env.size as int), y, x) ==> #[trigger] pixel(
                final(pixels)@,
                side_of(env.size as int),
                x,
                y,
            ) == drawn(env.size as int, env.removed_walls@, old(pixels)@, x, y),
{
    let n = env.size;
    let side = img_size(n);
    let ghost s = side as int;
    let ghost nn = n as int;
    let ghost base = pixels@;
    let mut c: usize = 0;
    while c <= n
        invariant
            s == side as int,
            nn == n as int,
            s == side_of(nn),
            1 <= n <= MAX_SIZE,
            c <= n + 1,
            pixels@.len() == s * s,
            base.len() == s * s,
            forall|x: int, y: int|
                in_grid(s, y, x) ==> #[trigger] pixel(pixels@, s, x, y) == if line_below(c as int, x) {
                    SOLID_COLOR
                } else {
                    pixel(base, s, x, y)
                },
        decreases n + 1 - c,
    {
        let ghost pb = pixels@;
        proof {
            assert(line_offset(c as int) == c * 11);
        }
        fill_rect(pixels, side, (c as u32) * 11, 0, BORDER_THICKNESS, side as u32, SOLID_COLOR);
        proof {
            assert forall|x: int, y: int| in_grid(s, y, x) implies #[trigger] pixel(pixels@, s, x, y)
                == if line_below(c + 1, x) {
                SOLID_COLOR
            } else {
                pixel(base, s, x, y)
            } by {
                if x == line_offset(c as int) {
                    assert(line_below(c + 1, x));
                }
                if line_below(c + 1, x) && x != line_offset(c as int) {
                    let k = choose|k: int| 0 <= k < c + 1 && x == #[trigger] line_offset(k);
                    assert(line_below(c as int, x));
                }
            }
        }
        c = c + 1;
    }
    let mut r: usize = 0;
    while r <= n
        invariant
            s == side as int,
            nn == n as int,
            s == side_of(nn),
            1 <= n <= MAX_SIZE,
            r <= n + 1,
            pixels@.len() == s * s,
            base.len() == s * s,
            forall|x: int, y: int|
                in_grid(s, y, x) ==> #[trigger] pixel(pixels@, s, x, y) == if line_below(nn + 1, x)
                    || line_below(r as int, y) {
                    SOLID_COLOR
                } else {
                    pixel(base, s, x, y)
                },
        decreases n + 1 - r,
    {
        let ghost pb = pixels@;
        proof {
            assert(line_offset(r as int) == r * 11);
        }
        fill_rect(pixels, side, 0, (r as u32) * 11, side as u32, BORDER_THICKNESS, SOLID_COLOR);
        proof {
            assert forall|x: int, y: int| in_grid(s, y, x) implies #[trigger] pixel(pixels@, s, x, y)
                == if line_below(nn + 1, x) || line_below(r + 1, y) {
                SOLID_COLOR
            } else {
                pixel(base, s, x, y)
            } by {
                if y == line_offset(r as int) {
                    assert(line_below(r + 1, y));
                }
                if line_below(r + 1, y) && y != line_offset(r as int) {
                    let k = choose|k: int| 0 <= k < r + 1 && y == #[trigger] line_offset(k);
                    assert(line_below(r as int, y));
                }
            }
        }
        r = r + 1;
    }
    let ghost walls = env.removed_walls@;
    let mut i: usize = 0;
    while i < env.removed_walls.len()
        invariant
            s == side as int,
            nn == n as int,
            s == side_of(nn),
            1 <= n <= MAX_SIZE,
            env.wf(),
            env.size == n,
            walls == env.removed_walls@,
            i <= walls.len(),
            forall|j: int| 0 <= j < walls.len() ==> wall_ok(nn, #[trigger] walls[j]),
            pixels@.len() == s * s,
            base.len() == s * s,
            forall|x: int, y: int|
                in_grid(s, y, x) ==> #[trigger] pixel(pixels@, s, x, y) == if exists|j: int|
                    0 <= j < i && #[trigger] in_opening(walls[j], x, y) {
                    OPEN_COLOR
                } else if line_below(nn + 1, x) || line_below(nn + 1, y) {
                    SOLID_COLOR
                } else {
                    pixel(base, s, x, y)
                },
        decreases walls.len() - i,
    {
        let wall = env.removed_walls[i];
        proof {
            assert(wall_ok(nn, walls[i as int]));
        }
        let tr = wall.target.row as u32;
        let tc = wall.target.col as u32;
        let ghost pb = pixels@;
        match wall.kind {
            WallKind::Vertical => {
                fill_rect(
                    pixels,
                    side,
                    (tc * OPEN_PATH_SIZE) + (tc * BORDER_THICKNESS),
                    (tr * OPEN_PATH_SIZE) + (tr * BORDER_THICKNESS) + BORDER_THICKNESS,
                    BORDER_THICKNESS,
                    OPEN_PATH_SIZE,
                    OPEN_COLOR,
                );
            },
            WallKind::Horizontal => {
                fill_rect(
                    pixels,
                    side,
                    (tc * OPEN_PATH_SIZE) + (tc * BORDER_THICKNESS) + BORDER_THICKNESS,
                    (tr * OPEN_PATH_SIZE) + (tr * BORDER_THICKNESS),
                    OPEN_PATH_SIZE,
                    BORDER_THICKNESS,
                    OPEN_COLOR,
                );
            },
        }
        proof {
            assert forall|x: int, y: int| in_grid(s, y, x) implies #[trigger] pixel(pixels@, s, x, y)
                == if exists|j: int| 0 <= j < i + 1 && #[trigger] in_opening(walls[j], x, y) {
                OPEN_COLOR
            } else if line_below(nn + 1, x) || line_below(nn + 1, y) {
                SOLID_COLOR
            } else {
                pixel(base, s, x, y)
            } by {
                if in_opening(walls[i as int], x, y) {
                    assert(0 <= i < i + 1 && in_opening(walls[i as int], x, y));
                }
                if exists|j: int| 0 <= j < i + 1 && #[trigger] in_opening(walls[j], x, y) {
                    if !in_opening(walls[i as int], x, y) {
                        let j = choose|j: int| 0 <= j < i + 1 && #[trigger] in_opening(walls[j], x, y);
                        assert(j < i);
                    }
                }
            }
        }
        i = i + 1;
    }
    proof {
        assert forall|x: int, y: int| in_grid(s, y, x) implies #[trigger] pixel(pixels@, s, x, y)
            == drawn(nn, walls, base, x, y) by {
            assert(line_below(nn + 1, x) == is_line(nn, x));
            assert(line_below(nn + 1, y) == is_line(nn, y));
        }
    }
}

/// The image of the maze drawn over a buffer of `OPEN_COLOR` pixels.
pub fn render_maze(env: &Env) -> (pixels: Vec<u32>)
    requires
        env.wf(),
        forall|i: int|
            0 <= i < env.removed_walls@.len() ==> wall_ok(
                env.size as int,
                #[trigger] env.removed_walls@[i],
            ),
    ensures
        pixels@.len() == side_of(env.size as int) * side_of(env.size as int),
        forall|x: int, y: int|
            in_grid(side_of(env.size as int), y, x) ==> #[trigger] pixel(
                pixels@,
                side_of(env.size as int),
                x,
                y,
            ) == drawn(
                env.size as int,
                env.removed_walls@,
                Seq::new((side_of(env.size as int) * side_of(env.size as int)) as nat, |i: int| OPEN_COLOR),
                x,
                y,
            ),
{
    let side = img_size(env.size);
    proof {
        assert(side * side <= 2030133249) by (nonlinear_arith)
            requires
                side <= 45057,
        ;
    }
    let total = side * side;
    let mut pixels: Vec<u32> = Vec::new();
    while pixels.len() < total
        invariant
            pixels@.len() <= total,
            forall|i: int| 0 <= i < pixels@.len() ==> #[trigger] pixels@[i] == OPEN_COLOR,
        decreases total - pixels@.len(),
    {
        pixels.push(OPEN_COLOR);
    }
    let ghost blank = pixels@;
    assert(blank =~= Seq::new(total as nat, |i: int| OPEN_COLOR));
    draw_maze(env, &mut pixels);
    pixels
}

/// With no wall removed, drawing leaves every grid-line pixel in the wall
/// colour and changes no other pixel.
pub proof fn lemma_no_walls_closed(n: int, old: Seq<u32>, x: int, y: int)
    ensures
        drawn(n, Seq::<Wall>::empty(), old, x, y) == if is_line(n, x) || is_line(n, y) {
            SOLID_COLOR
        } else {
            pixel(old, side_of(n), x, y)
        },
{
}

} // verus!
