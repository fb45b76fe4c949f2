use crate::maze::{grows_tree, in_grid, in_tree, is_spanning_tree, lemma_in_tree_push, touches, Wall};
use vstd::prelude::*;

verus! {

/// `w` is the opening between cells `a` and `b`, in either direction.
pub open spec fn joins(w: Wall, a: (int, int), b: (int, int)) -> bool {
    (w.start.at(a.0, a.1) && w.target.at(b.0, b.1)) || (w.start.at(b.0, b.1) && w.target.at(
        a.0,
        a.1,
    ))
}

/// Some wall of `walls` is the opening between `a` and `b`.
pub open spec fn linked(walls: Seq<Wall>, a: (int, int), b: (int, int)) -> bool {
    exists|j: int| 0 <= j < walls.len() && #[trigger] joins(walls[j], a, b)
}

/// `p` is a walk through the maze: each cell is linked to the next by a
/// removed wall.
pub open spec fn is_path(walls: Seq<Wall>, p: Seq<(int, int)>) -> bool {
    p.len() > 0 && forall|i: int| 0 <= i < p.len() - 1 ==> #[trigger] linked(walls, p[i], p[i + 1])
}

pub open spec fn connected(walls: Seq<Wall>, a: (int, int), b: (int, int)) -> bool {
    exists|p: Seq<(int, int)>| #[trigger] is_path(walls, p) && p[0] == a && p.last() == b
}

proof fn path_from_root(walls: Seq<Wall>, root: (int, int), k: int, r: int, c: int) -> (p: Seq<
    (int, int),
>)
    requires
        grows_tree(walls, root),
        0 <= k <= walls.len(),
        in_tree(walls, root, k, r, c),
    ensures
        is_path(walls, p),
        p[0] == root,
        p.last() == (r, c),
    decreases k,
{
    if k == 0 || in_tree(walls, root, k - 1, r, c) {
        if k == 0 {
            assert((r, c) == root);
            let p = seq![root];
            assert(p.last() == (r, c));
            p
        } else {
            path_from_root(walls, root, k - 1, r, c)
        }
    } else {
        let j = choose|j: int| 0 <= j < k && #[trigger] touches(walls[j], r, c);
        if j < k - 1 {
            assert(in_tree(walls, root, k - 1, r, c));
        }
        assert(j == k - 1);
        let w = walls[k - 1];
        let q = if w.start.at(r, c) {
            (w.target.row as int, w.target.col as int)
        } else {
            (w.start.row as int, w.start.col as int)
        };
        let pq = path_from_root(walls, root, k - 1, q.0, q.1);
        let p = pq.push((r, c));
        assert(joins(walls[k - 1], q, (r, c)));
        assert forall|i: int| 0 <= i < p.len() - 1 implies #[trigger] linked(walls, p[i], p[i + 1]) by {
            if i < pq.len() - 1 {
                assert(linked(walls, pq[i], pq[i + 1]));
            } else {
                assert(p[i] == q);
            }
        }
        p
    }
}

proof fn path_reverse(walls: Seq<Wall>, p: Seq<(int, int)>) -> (q: Seq<(int, int)>)
    requires
        is_path(walls, p),
    ensures
        is_path(walls, q),
        q[0] == p.last(),
        q.last() == p[0],
{
    let n = p.len();
    let q = Seq::new(n, |i: int| p[n - 1 - i]);
    assert forall|i: int| 0 <= i < q.len() - 1 implies #[trigger] linked(walls, q[i], q[i + 1]) by {
        let k = n - 2 - i;
        assert(linked(walls, p[k], p[k + 1]));
        let j = choose|j: int| 0 <= j < walls.len() && #[trigger] joins(walls[j], p[k], p[k + 1]);
        assert(joins(walls[j], q[i], q[i + 1]));
    }
    q
}

proof fn path_join(walls: Seq<Wall>, p: Seq<(int, int)>, q: Seq<(int, int)>) -> (r: Seq<(int, int)>)
    requires
        is_path(walls, p),
        is_path(walls, q),
        p.last() == q[0],
    ensures
        is_path(walls, r),
        r[0] == p[0],
        r.last() == q.last(),
{
    let r = p + q.drop_first();
    assert forall|i: int| 0 <= i < r.len() - 1 implies #[trigger] linked(walls, r[i], r[i + 1]) by {
        if i < p.len() - 1 {
            assert(linked(walls, p[i], p[i + 1]));
        } else {
            let k = i - (p.len() - 1);
            assert(linked(walls, q[k], q[k + 1]));
        }
    }
    r
}

/// The removed walls of a generated maze number one less than its cells, and
/// link every two cells by a path: they form a spanning tree of the grid.
pub proof fn lemma_spanning_tree_connected(n: int, walls: Seq<Wall>)
    requires
        is_spanning_tree(n, walls),
    ensures
        walls.len() == n * n - 1,
        forall|a: (int, int), b: (int, int)|
            in_grid(n, a.0, a.1) && in_grid(n, b.0, b.1) ==> #[trigger] connected(walls, a, b),
{
    let root = choose|root: (int, int)|
        in_grid(n, root.0, root.1) && grows_tree(walls, root) && forall|r: int, c: int|
            in_grid(n, r, c) ==> #[trigger] in_tree(walls, root, walls.len() as int, r, c);
    assert forall|a: (int, int), b: (int, int)|
        in_grid(n, a.0, a.1) && in_grid(n, b.0, b.1) implies #[trigger] connected(walls, a, b) by {
        assert(in_tree(walls, root, walls.len() as int, a.0, a.1));
        assert(in_tree(walls, root, walls.len() as int, b.0, b.1));
        let pa = path_from_root(walls, root, walls.len() as int, a.0, a.1);
        let pb = path_from_root(walls, root, walls.len() as int, b.0, b.1);
        let ra = path_reverse(walls, pa);
        let p = path_join(walls, ra, pb);
        assert(is_path(walls, p) && p[0] == a && p.last() == b);
    }
}

/// No cell occurs twice in `p`.
pub open spec fn is_simple(p: Seq<(int, int)>) -> bool {
    forall|i: int, j: int| 0 <= i < j < p.len() ==> p[i] != p[j]
}

proof fn lemma_linked_sym(walls: Seq<Wall>, a: (int, int), b: (int, int))
    requires
        linked(walls, a, b),
    ensures
        linked(walls, b, a),
{
    let j = choose|j: int| 0 <= j < walls.len() && #[trigger] joins(walls[j], a, b);
    assert(joins(walls[j], b, a));
}

/// A path of `w0.push(w)` that never visits `v`, an endpoint of `w`, is a
/// path of `w0`.
proof fn lemma_path_without(w0: Seq<Wall>, w: Wall, v: (int, int), p: Seq<(int, int)>)
    requires
        is_path(w0.push(w), p),
        touches(w, v.0, v.1),
        forall|i: int| 0 <= i < p.len() ==> #[trigger] p[i] != v,
    ensures
        is_path(w0, p),
{
    let walls = w0.push(w);
    assert forall|i: int| 0 <= i < p.len() - 1 implies #[trigger] linked(w0, p[i], p[i + 1]) by {
        assert(linked(walls, p[i], p[i + 1]));
        let j = choose|j: int| 0 <= j < walls.len() && #[trigger] joins(walls[j], p[i], p[i + 1]);
        assert(p[i] != v && p[i + 1] != v);
        if j == w0.len() {
            assert(walls[j] == w);
        }
        assert(walls[j] == w0[j]);
    }
}

proof fn lemma_link_at(walls: Seq<Wall>, p: Seq<(int, int)>, i: int)
    requires
        is_path(walls, p),
        0 <= i < p.len() - 1,
    ensures
        linked(walls, p[i], p[i + 1]),
{
}

proof fn lemma_tail_path(walls: Seq<Wall>, p: Seq<(int, int)>)
    requires
        is_path(walls, p),
        p.len() > 1,
    ensures
        is_path(walls, p.drop_first()),
        is_path(walls, p.drop_last()),
        is_simple(p) ==> is_simple(p.drop_first()) && is_simple(p.drop_last()),
{
    let a = p.drop_first();
    assert forall|i: int| 0 <= i < a.len() - 1 implies #[trigger] linked(walls, a[i], a[i + 1]) by {
        lemma_link_at(walls, p, i + 1);
    }
    let b = p.drop_last();
    assert forall|i: int| 0 <= i < b.len() - 1 implies #[trigger] linked(walls, b[i], b[i + 1]) by {
        assert(linked(walls, p[i], p[i + 1]));
    }
    if is_simple(p) {
        assert forall|i: int, j: int| 0 <= i < j < a.len() implies a[i] != a[j] by {
            assert(p[i + 1] != p[j + 1]);
        }
        assert forall|i: int, j: int| 0 <= i < j < b.len() implies b[i] != b[j] by {
            assert(p[i] != p[j]);
        }
    }
}

#[verifier::rlimit(50)]
proof fn lemma_unique_path(walls: Seq<Wall>, root: (int, int), p: Seq<(int, int)>, q: Seq<(int, int)>)
    requires
        grows_tree(walls, root),
        is_path(walls, p),
        is_path(walls, q),
        is_simple(p),
        is_simple(q),
        p[0] == q[0],
        p.last() == q.last(),
    ensures
        p == q,
    decreases walls.len(),
{
    if walls.len() == 0 {
        if p.len() > 1 {
            lemma_link_at(walls, p, 0);
        }
        if q.len() > 1 {
            lemma_link_at(walls, q, 0);
        }
        assert(p =~= q);
        return;
    }
    let m = walls.len() - 1;
    let w0 = walls.drop_last();
    let w = walls.last();
    assert(walls =~= w0.push(w));
    let s = (w.start.row as int, w.start.col as int);
    let t = (w.target.row as int, w.target.col as int);
    assert(walls[m] == w);
    lemma_in_tree_push(w0, w, root, m, s.0, s.1);
    lemma_in_tree_push(w0, w, root, m, t.0, t.1);
    let (v, u) = if in_tree(w0, root, m, s.0, s.1) {
        (t, s)
    } else {
        (s, t)
    };
    assert(!in_tree(w0, root, m, v.0, v.1));
    assert(touches(w, v.0, v.1));
    assert forall|i: int| 0 <= i < w0.len() implies in_tree(
        w0,
        root,
        i,
        (#[trigger] w0[i]).start.row as int,
        w0[i].start.col as int,
    ) != in_tree(w0, root, i, w0[i].target.row as int, w0[i].target.col as int) by {
        assert(w0[i] == walls[i]);
        lemma_in_tree_push(w0, w, root, i, w0[i].start.row as int, w0[i].start.col as int);
        lemma_in_tree_push(w0, w, root, i, w0[i].target.row as int, w0[i].target.col as int);
    }
    assert(grows_tree(w0, root));
    // Every link at `v` goes through `w`, to `u`.
    assert forall|x: (int, int)| #[trigger] linked(walls, v, x) implies x == u by {
        let j = choose|j: int| 0 <= j < walls.len() && #[trigger] joins(walls[j], v, x);
        if j < m {
            assert(w0[j] == walls[j]);
            assert(touches(w0[j], v.0, v.1));
        }
    }
    assert forall|pp: Seq<(int, int)>, i: int|
        is_path(walls, pp) && is_simple(pp) && 0 < i < pp.len() - 1 implies #[trigger] pp[i] != v by {
        if pp[i] == v {
            lemma_link_at(walls, pp, i - 1);
            lemma_linked_sym(walls, pp[i - 1], pp[i]);
            lemma_link_at(walls, pp, i);
            assert(pp[i - 1] != pp[i + 1]);
        }
    }
    if p[0] != v && p.last() != v {
        assert forall|i: int| 0 <= i < p.len() implies #[trigger] p[i] != v by {
            if i == p.len() - 1 {
                assert(p[i] == p.last());
            }
        }
        assert forall|i: int| 0 <= i < q.len() implies #[trigger] q[i] != v by {
            if i == q.len() - 1 {
                assert(q[i] == q.last());
            }
        }
        lemma_path_without(w0, w, v, p);
        lemma_path_without(w0, w, v, q);
        lemma_unique_path(w0, root, p, q);
    } else if p[0] == v && p.last() == v {
        if p.len() > 1 {
            assert(p[0] != p[p.len() - 1]);
        }
        if q.len() > 1 {
            assert(q[0] != q[q.len() - 1]);
        }
        assert(p =~= q);
    } else if p[0] == v {
        assert(p.len() > 1);
        assert(q.len() > 1) by {
            if q.len() == 1 {
                assert(q.last() == q[0]);
            }
        }
        lemma_link_at(walls, p, 0);
        lemma_link_at(walls, q, 0);
        lemma_tail_path(walls, p);
        lemma_tail_path(walls, q);
        let pr = p.drop_first();
        let qr = q.drop_first();
        assert forall|i: int| 0 <= i < pr.len() implies #[trigger] pr[i] != v by {
            assert(pr[i] == p[i + 1]);
            if i + 1 == p.len() - 1 {
                assert(p[i + 1] == p.last());
            } else {
                assert(p[i + 1] != v);
            }
        }
        assert forall|i: int| 0 <= i < qr.len() implies #[trigger] qr[i] != v by {
            assert(qr[i] == q[i + 1]);
            if i + 1 == q.len() - 1 {
                assert(q[i + 1] == q.last());
            } else {
                assert(q[i + 1] != v);
            }
        }
        lemma_path_without(w0, w, v, pr);
        lemma_path_without(w0, w, v, qr);
        lemma_unique_path(w0, root, pr, qr);
        assert(p =~= seq![v] + pr);
        assert(q =~= seq![v] + qr);
    } else {
        assert(p.len() > 1) by {
            if p.len() == 1 {
                assert(p.last() == p[0]);
            }
        }
        assert(q.len() > 1) by {
            if q.len() == 1 {
                assert(q.last() == q[0]);
            }
        }
        lemma_link_at(walls, p, p.len() - 2);
        lemma_link_at(walls, q, q.len() - 2);
        lemma_linked_sym(walls, p[p.len() - 2], p[p.len() - 1]);
        lemma_linked_sym(walls, q[q.len() - 2], q[q.len() - 1]);
        lemma_tail_path(walls, p);
        lemma_tail_path(walls, q);
        let pr = p.drop_last();
        let qr = q.drop_last();
        assert forall|i: int| 0 <= i < pr.len() implies #[trigger] pr[i] != v by {
            assert(pr[i] == p[i]);
            if i == 0 {
            } else {
                assert(p[i] != v);
            }
        }
        assert forall|i: int| 0 <= i < qr.len() implies #[trigger] qr[i] != v by {
            assert(qr[i] == q[i]);
            if i == 0 {
            } else {
                assert(q[i] != v);
            }
        }
        lemma_path_without(w0, w, v, pr);
        lemma_path_without(w0, w, v, qr);
        lemma_unique_path(w0, root, pr, qr);
        assert(p =~= pr.push(v));
        assert(q =~= qr.push(v));
    }
}

/// Between two cells of a generated maze there is at most one path that
/// visits no cell twice.
pub proof fn lemma_simple_path_unique(
    n: int,
    walls: Seq<Wall>,
    p: Seq<(int, int)>,
    q: Seq<(int, int)>,
)
    requires
        is_spanning_tree(n, walls),
        is_path(walls, p),
        is_path(walls, q),
        is_simple(p),
        is_simple(q),
        p[0] == q[0],
        p.last() == q.last(),
    ensures
        p == q,
{
    let root = choose|root: (int, int)|
        in_grid(n, root.0, root.1) && grows_tree(walls, root) && forall|r: int, c: int|
            in_grid(n, r, c) ==> #[trigger] in_tree(walls, root, walls.len() as int, r, c);
    lemma_unique_path(walls, root, p, q);
}

proof fn make_simple(walls: Seq<Wall>, p: Seq<(int, int)>) -> (q: Seq<(int, int)>)
    requires
        is_path(walls, p),
    ensures
        is_path(walls, q),
        is_simple(q),
        q[0] == p[0],
        q.last() == p.last(),
    decreases p.len(),
{
    if is_simple(p) {
        p
    } else {
        let (i, j) = choose|i: int, j: int| 0 <= i < j < p.len() && p[i] == p[j];
        let r = p.subrange(0, i) + p.subrange(j, p.len() as int);
        assert(r[0] == p[0]) by {
            if i == 0 {
                assert(r[0] == p[j]);
            }
        }
        assert(r.last() == p.last());
        assert forall|k: int| 0 <= k < r.len() - 1 implies #[trigger] linked(walls, r[k], r[k + 1]) by {
            if k < i - 1 {
                lemma_link_at(walls, p, k);
            } else if k == i - 1 {
                lemma_link_at(walls, p, i - 1);
                assert(r[k + 1] == p[j]);
            } else {
                lemma_link_at(walls, p, k - i + j);
                assert(r[k] == p[k - i + j]);
                assert(r[k + 1] == p[k + 1 - i + j]);
            }
        }
        make_simple(walls, r)
    }
}

/// Between two cells of a generated maze there is a path that visits no
/// cell twice.
pub proof fn lemma_simple_path_exists(n: int, walls: Seq<Wall>, a: (int, int), b: (int, int))
    requires
        is_spanning_tree(n, walls),
        in_grid(n, a.0, a.1),
        in_grid(n, b.0, b.1),
    ensures
        exists|p: Seq<(int, int)>|
            #[trigger] is_path(walls, p) && is_simple(p) && p[0] == a && p.last() == b,
{
    lemma_spanning_tree_connected(n, walls);
    assert(connected(walls, a, b));
    let p = choose|p: Seq<(int, int)>| #[trigger] is_path(walls, p) && p[0] == a && p.last() == b;
    let q = make_simple(walls, p);
    assert(is_path(walls, q) && is_simple(q) && q[0] == a && q.last() == b);
}

} // verus!
