//! How an enemy finds its way to the player: a breadth-first search over the
//! walkable tiles of the level, from the enemy's tile.
use vstd::prelude::*;
use vstd::set_lib::*;
use crate::entities::point::Point;
use crate::environment::level::{tile_in, Level};
use crate::wfc::overlap::side_by_side;

verus! {

/// The tile beside `c` in direction `d`: 0 up, 1 right, 2 down, 3 left.
pub open spec fn step(c: (int, int), d: int) -> (int, int) {
    if d == 0 {
        (c.0, c.1 - 1)
    } else if d == 1 {
        (c.0 + 1, c.1)
    } else if d == 2 {
        (c.0, c.1 + 1)
    } else {
        (c.0 - 1, c.1)
    }
}

/// The direction back along direction `d`.
pub open spec fn back_dir(d: int) -> int {
    (d + 2) % 4
}

/// A route on `level`: tiles in tile coordinates, each beside the one before,
/// every one but the first walkable.
pub open spec fn is_route(level: Level, s: Seq<(int, int)>) -> bool {
    &&& s.len() >= 1
    &&& forall|i: int| 1 <= i < s.len() ==> level.passable_cell(#[trigger] s[i])
    &&& forall|i: int| 0 <= i < s.len() - 1 ==> side_by_side(#[trigger] s[i], s[i + 1])
}

/// A route of `n` steps leads from `a` to `b`.
pub open spec fn reaches_in(level: Level, a: (int, int), b: (int, int), n: nat) -> bool {
    exists|s: Seq<(int, int)>| #[trigger] is_route(level, s) && s.len() == n + 1 && s[0] == a && s.last() == b
}

/// `n` steps is the least a route from `a` to `b` takes.
pub open spec fn shortest(level: Level, a: (int, int), b: (int, int), n: nat) -> bool {
    &&& reaches_in(level, a, b, n)
    &&& forall|m: nat| #[trigger] reaches_in(level, a, b, m) ==> n <= m
}

/// Tile coordinates inside `[0, bw) x [0, bh)`.
pub open spec fn in_box(c: (int, int), bw: int, bh: int) -> bool {
    0 <= c.0 < bw && 0 <= c.1 < bh
}

/// The tiles inside `[0, bw) x [0, bh)`.
pub open spec fn box_set(bw: int, bh: int) -> Set<(int, int)> {
    Set::new(|c: (int, int)| in_box(c, bw, bh))
}

/// The queue entry `k` as a pair of integers.
pub open spec fn qv(q: Seq<(i64, i64)>, k: int) -> (int, int) {
    (q[k].0 as int, q[k].1 as int)
}

/// The mark of tile `c`: -2 not reached, -1 the start, else the direction of
/// the step that first reached it.
pub open spec fn mark_at(mark: Seq<Vec<i8>>, c: (int, int)) -> i8 {
    mark[c.1]@[c.0]
}

/// The state of the search from `s`: `dist` holds, for each tile reached, the
/// steps it took; `q` lists the tiles reached, in the order reached, each once,
/// their distances never going down; `mark` records how each tile of the box
/// was reached.
#[verifier::opaque]
pub open spec fn bfs_ok(
    level: Level,
    s: (int, int),
    bw: int,
    bh: int,
    mark: Seq<Vec<i8>>,
    q: Seq<(i64, i64)>,
    dist: Map<(int, int), nat>,
) -> bool {
    &&& mark.len() == bh
    &&& forall|y: int| 0 <= y < bh ==> (#[trigger] mark[y])@.len() == bw
    &&& q.len() >= 1
    &&& qv(q, 0) == s
    &&& dist.contains_key(s)
    &&& dist[s] == 0
    &&& forall|k: int| 0 <= k < q.len() ==> dist.contains_key(#[trigger] qv(q, k))
    &&& forall|k1: int, k2: int| 0 <= k1 < k2 < q.len() ==> #[trigger] qv(q, k1) != #[trigger] qv(q, k2)
    &&& forall|v: (int, int)| #[trigger] dist.contains_key(v) ==> exists|k: int| 0 <= k < q.len() && qv(q, k) == v
    &&& forall|k1: int, k2: int| 0 <= k1 <= k2 < q.len() ==> dist[#[trigger] qv(q, k1)] <= dist[#[trigger] qv(q, k2)]
    &&& forall|v: (int, int)| #[trigger] dist.contains_key(v) && v != s ==> level.passable_cell(v) && dist[v] >= 1
    &&& forall|v: (int, int)| #[trigger] dist.contains_key(v) ==> reaches_in(level, s, v, dist[v])
    &&& forall|c: (int, int)| in_box(c, bw, bh) ==> ((#[trigger] mark_at(mark, c) == -2) <==> !dist.contains_key(c))
    &&& in_box(s, bw, bh) ==> mark_at(mark, s) == -1
    &&& forall|c: (int, int)|
        #![trigger mark_at(mark, c)]
        in_box(c, bw, bh) && dist.contains_key(c) && c != s ==> {
            let d = mark_at(mark, c) as int;
            &&& 0 <= d < 4
            &&& dist.contains_key(step(c, back_dir(d)))
            &&& dist[step(c, back_dir(d))] + 1 == dist[c]
        }
}

/// Every walkable neighbour of queue entry `k` has been reached, in at most one
/// step more.
pub open spec fn closed_at(level: Level, q: Seq<(i64, i64)>, dist: Map<(int, int), nat>, k: int) -> bool {
    forall|d: int|
        0 <= d < 4 && level.passable_cell(#[trigger] step(qv(q, k), d)) ==> dist.contains_key(step(qv(q, k), d))
            && dist[step(qv(q, k), d)] <= dist[qv(q, k)] + 1
}

proof fn lemma_step_side(c: (int, int), d: int)
    requires
        0 <= d < 4,
    ensures
        side_by_side(c, step(c, d)),
        side_by_side(step(c, d), c),
        step(step(c, d), back_dir(d)) == c,
        0 <= back_dir(d) < 4,
        step(c, back_dir(d)) != step(c, d),
{
}

proof fn lemma_side_step(a: (int, int), b: (int, int))
    requires
        side_by_side(a, b),
    ensures
        exists|d: int| 0 <= d < 4 && #[trigger] step(a, d) == b,
{
    if b == step(a, 0) {
    } else if b == step(a, 1) {
    } else if b == step(a, 2) {
    } else {
        assert(b == step(a, 3));
    }
}

/// A route extended by one walkable tile beside its end.
proof fn lemma_route_push(level: Level, s: Seq<(int, int)>, b: (int, int))
    requires
        is_route(level, s),
        side_by_side(s.last(), b),
        level.passable_cell(b),
    ensures
        is_route(level, s.push(b)),
        s.push(b)[0] == s[0],
        s.push(b).last() == b,
{
    let r = s.push(b);
    assert forall|i: int| 1 <= i < r.len() implies level.passable_cell(#[trigger] r[i]) by {
        if i < s.len() {
            assert(r[i] == s[i]);
        }
    }
    assert forall|i: int| 0 <= i < r.len() - 1 implies side_by_side(#[trigger] r[i], r[i + 1]) by {
        if i < s.len() - 1 {
            assert(r[i] == s[i]);
            assert(r[i + 1] == s[i + 1]);
        }
    }
}

/// A route with a tile put before its start, which must then be walkable.
proof fn lemma_route_prepend(level: Level, a: (int, int), s: Seq<(int, int)>)
    requires
        is_route(level, s),
        side_by_side(a, s[0]),
        level.passable_cell(s[0]),
    ensures
        is_route(level, seq![a] + s),
        (seq![a] + s)[0] == a,
        (seq![a] + s).last() == s.last(),
{
    let r = seq![a] + s;
    assert forall|i: int| 1 <= i < r.len() implies level.passable_cell(#[trigger] r[i]) by {
        assert(r[i] == s[i - 1]);
    }
    assert forall|i: int| 0 <= i < r.len() - 1 implies side_by_side(#[trigger] r[i], r[i + 1]) by {
        if i > 0 {
            assert(r[i] == s[i - 1]);
        }
        assert(r[i + 1] == s[i]);
    }
}

/// The first `k + 1` tiles of a route are a route.
proof fn lemma_route_prefix(level: Level, s: Seq<(int, int)>, k: int)
    requires
        is_route(level, s),
        0 <= k < s.len(),
    ensures
        is_route(level, s.take(k + 1)),
        s.take(k + 1)[0] == s[0],
        s.take(k + 1).last() == s[k],
{
    let r = s.take(k + 1);
    assert forall|i: int| 1 <= i < r.len() implies level.passable_cell(#[trigger] r[i]) by {
        assert(r[i] == s[i]);
    }
    assert forall|i: int| 0 <= i < r.len() - 1 implies side_by_side(#[trigger] r[i], r[i + 1]) by {
        assert(r[i] == s[i]);
        assert(r[i + 1] == s[i + 1]);
    }
}

/// Once the search is over, every tile a route from the start reaches has
/// been reached, in no more steps than the route takes.
proof fn lemma_bfs_complete(
    level: Level,
    s: (int, int),
    bw: int,
    bh: int,
    mark: Seq<Vec<i8>>,
    q: Seq<(i64, i64)>,
    dist: Map<(int, int), nat>,
    r: Seq<(int, int)>,
)
    requires
        bfs_ok(level, s, bw, bh, mark, q, dist),
        forall|k: int| 0 <= k < q.len() ==> #[trigger] closed_at(level, q, dist, k),
        is_route(level, r),
        r[0] == s,
    ensures
        dist.contains_key(r.last()),
        dist[r.last()] <= r.len() - 1,
    decreases r.len(),
{
    reveal(bfs_ok);
    if r.len() > 1 {
        let n = r.len() - 1;
        lemma_route_prefix(level, r, n - 1);
        lemma_bfs_complete(level, s, bw, bh, mark, q, dist, r.take(n));
        let v = r[n - 1];
        assert(r.take(n).last() == v);
        assert(dist.contains_key(v));
        let k = choose|k: int| 0 <= k < q.len() && qv(q, k) == v;
        assert(closed_at(level, q, dist, k));
        assert(side_by_side(r[n - 1], r[n]));
        lemma_side_step(v, r[n]);
        let d = choose|d: int| 0 <= d < 4 && #[trigger] step(v, d) == r[n];
        assert(level.passable_cell(r[n]));
        assert(level.passable_cell(step(qv(q, k), d)));
    } else {
        assert(r.last() == s);
    }
}

/// The tiles of `[0, bw) x [0, bh)` are finite and at most `bw * bh`.
proof fn lemma_box_size(bw: int, bh: int)
    requires
        bw >= 0,
        bh >= 0,
    ensures
        box_set(bw, bh).finite(),
        box_set(bw, bh).len() <= bw * bh,
{
    let f = |i: int| (i % bw, i / bw);
    let range = set_int_range(0, bw * bh);
    assert(0 <= bw * bh) by (nonlinear_arith)
        requires
            bw >= 0,
            bh >= 0,
    ;
    lemma_int_range(0, bw * bh);
    if bw == 0 {
        assert(box_set(bw, bh) =~= Set::empty());
    } else {
        assert forall|c: (int, int)| #[trigger] box_set(bw, bh).contains(c) implies range.map(f).contains(c) by {
            let i = c.1 * bw + c.0;
            vstd::arithmetic::div_mod::lemma_fundamental_div_mod_converse(i, bw, c.1, c.0);
            assert(0 <= i < bw * bh) by (nonlinear_arith)
                requires
                    i == c.1 * bw + c.0,
                    0 <= c.0 < bw,
                    0 <= c.1 < bh,
            ;
            assert(range.contains(i));
            assert(f(i) == c);
        }
        assert forall|c: (int, int)| #[trigger] range.map(f).contains(c) implies box_set(bw, bh).contains(c) by {
            let i = choose|i: int| range.contains(i) && f(i) == c;
            assert(0 <= i % bw < bw) by (nonlinear_arith)
                requires
                    bw > 0,
            ;
            assert(0 <= i / bw < bh) by (nonlinear_arith)
                requires
                    bw > 0,
                    0 <= i < bw * bh,
            ;
        }
        assert(range.map(f) =~= box_set(bw, bh));
        lemma_map_size_bound(range, box_set(bw, bh), f);
    }
}

/// A walkable tile lies inside every box that holds all the layers.
proof fn lemma_passable_in_box(level: Level, c: (int, int), bw: int, bh: int)
    requires
        level.passable_cell(c),
        forall|i: int| 0 <= i < level.tiles@.len() ==> (#[trigger] level.tiles@[i]).width <= bw && level.tiles@[i].height <= bh,
    ensures
        in_box(c, bw, bh),
{
    let i = choose|i: int| 0 <= i < level.tiles@.len() && (#[trigger] tile_in(level.tiles@[i], c)) is Some;
    assert(level.tiles@[i].width <= bw);
}

/// The width of the widest layer and the height of the tallest, in tiles.
fn level_span(level: &Level) -> (span: (usize, usize))
    requires
        forall|i: int| 0 <= i < level.tiles@.len() ==> (#[trigger] level.tiles@[i]).width <= i32::MAX && level.tiles@[i].height <= i32::MAX,
    ensures
        forall|i: int|
            0 <= i < level.tiles@.len() ==> (#[trigger] level.tiles@[i]).width <= span.0 && level.tiles@[i].height <= span.1,
        span.0 <= i32::MAX,
        span.1 <= i32::MAX,
{
    let mut bw: usize = 0;
    let mut bh: usize = 0;
    let mut i: usize = 0;
    while i < level.tiles.len()
        invariant
            i <= level.tiles@.len(),
            bw <= i32::MAX,
            bh <= i32::MAX,
            forall|i: int| 0 <= i < level.tiles@.len() ==> (#[trigger] level.tiles@[i]).width <= i32::MAX && level.tiles@[i].height <= i32::MAX,
            forall|j: int| 0 <= j < i ==> (#[trigger] level.tiles@[j]).width <= bw && level.tiles@[j].height <= bh,
        decreases level.tiles@.len() - i,
    {
        if level.tiles[i].width > bw {
            bw = level.tiles[i].width;
        }
        if level.tiles[i].height > bh {
            bh = level.tiles[i].height;
        }
        i = i + 1;
    }
    (bw, bh)
}

/// A `bw` by `bh` grid of marks, every tile not reached.
fn unmarked(bw: usize, bh: usize) -> (mark: Vec<Vec<i8>>)
    ensures
        mark@.len() == bh,
        forall|y: int| 0 <= y < bh ==> (#[trigger] mark@[y])@.len() == bw,
        forall|c: (int, int)| in_box(c, bw as int, bh as int) ==> #[trigger] mark_at(mark@, c) == -2,
{
    let mut mark: Vec<Vec<i8>> = Vec::new();
    let mut y: usize = 0;
    while y < bh
        invariant
            y <= bh,
            mark@.len() == y,
            forall|yy: int| 0 <= yy < y ==> (#[trigger] mark@[yy])@.len() == bw,
            forall|c: (int, int)| 0 <= c.0 < bw && 0 <= c.1 < y ==> #[trigger] mark_at(mark@, c) == -2,
        decreases bh - y,
    {
        let mut row: Vec<i8> = Vec::new();
        let mut x: usize = 0;
        while x < bw
            invariant
                x <= bw,
                row@.len() == x,
                forall|xx: int| 0 <= xx < x ==> row@[xx] == -2,
            decreases bw - x,
        {
            row.push(-2);
            x = x + 1;
        }
        let ghost before = mark@;
        mark.push(row);
        proof {
            assert forall|c: (int, int)| 0 <= c.0 < bw && 0 <= c.1 < y + 1 implies #[trigger] mark_at(mark@, c) == -2 by {
                if c.1 < y {
                    assert(mark@[c.1] == before[c.1]);
                    assert(mark_at(before, c) == -2);
                } else {
                    assert(mark@[c.1] == row);
                    assert(row@[c.0] == -2);
                }
            }
        }
        y = y + 1;
    }
    mark
}

/// The direction of the `j`-th neighbour tried: right, left, down, up.
pub open spec fn try_dir(j: int) -> int {
    if j == 0 {
        1
    } else if j == 1 {
        3
    } else if j == 2 {
        2
    } else {
        0
    }
}

/// The step for the `j`-th neighbour tried: right, left, down, up.
fn dir_of(j: usize) -> (d: i8)
    requires
        j < 4,
    ensures
        0 <= d < 4,
        d as int == try_dir(j as int),
{
    if j == 0 {
        1
    } else if j == 1 {
        3
    } else if j == 2 {
        2
    } else {
        0
    }
}

/// The tile beside `(x, y)` in direction `d`.
fn step_exec(x: i64, y: i64, d: i8) -> (n: (i64, i64))
    requires
        0 <= d < 4,
        i64::MIN < x < i64::MAX,
        i64::MIN < y < i64::MAX,
    ensures
        (n.0 as int, n.1 as int) == step((x as int, y as int), d as int),
{
    if d == 0 {
        (x, y - 1)
    } else if d == 1 {
        (x + 1, y)
    } else if d == 2 {
        (x, y + 1)
    } else {
        (x - 1, y)
    }
}

/// Searches the level breadth first from tile `s` (tile coordinates), trying
/// the neighbours of each tile right, left, down, up: returns the marks, the
/// tiles reached in order, and (ghost) the steps each took.
#[verifier::loop_isolation(false)]
#[verifier::rlimit(50)]
fn search(level: &Level, sx: i64, sy: i64, bw: usize, bh: usize) -> (res: (Vec<Vec<i8>>, Vec<(i64, i64)>, Ghost<Map<(int, int), nat>>))
    requires
        level.wf(),
        forall|i: int| 0 <= i < level.tiles@.len() ==> (#[trigger] level.tiles@[i]).width <= bw && level.tiles@[i].height <= bh,
        bw <= i32::MAX,
        bh <= i32::MAX,
        i32::MIN <= sx <= i32::MAX,
        i32::MIN <= sy <= i32::MAX,
    ensures
        bfs_ok(*level, (sx as int, sy as int), bw as int, bh as int, res.0@, res.1@, res.2@),
        forall|k: int| 0 <= k < res.1@.len() ==> #[trigger] closed_at(*level, res.1@, res.2@, k),
{
    proof {
        reveal(bfs_ok);
    }
    let ghost s: (int, int) = (sx as int, sy as int);
    let mut mark = unmarked(bw, bh);
    let ghost m0 = mark@;
    let mut queue: Vec<(i64, i64)> = Vec::new();
    queue.push((sx, sy));
    if 0 <= sx && 0 <= sy && (sx as u64) < (bw as u64) && (sy as u64) < (bh as u64) {
        mark[sy as usize][sx as usize] = -1;
    }
    let ghost mut dist: Map<(int, int), nat> = Map::empty().insert(s, 0nat);
    let ghost mut vs: Set<(int, int)> = if in_box(s, bw as int, bh as int) {
        Set::empty().insert(s)
    } else {
        Set::empty()
    };
    proof {
        lemma_box_size(bw as int, bh as int);
        let r = seq![s];
        assert(is_route(*level, r));
        assert(reaches_in(*level, s, s, 0));
        assert(qv(queue@, 0) == s);
        assert forall|c: (int, int)| in_box(c, bw as int, bh as int) implies ((#[trigger] mark_at(mark@, c) == -2) <==> !dist.contains_key(c)) by {
            if c != s {
                assert(mark_at(m0, c) == -2);
                if c.1 != s.1 {
                    assert(mark@[c.1] == m0[c.1]);
                } else {
                    assert(mark@[c.1]@[c.0] == m0[c.1]@[c.0]);
                }
            }
        }
        assert forall|v: (int, int)| #[trigger] dist.contains_key(v) implies exists|k: int| 0 <= k < queue@.len() && qv(queue@, k) == v by {
            assert(qv(queue@, 0) == v);
        }
    }
    let mut head: usize = 0;
    while head < queue.len()
        invariant
            bfs_ok(*level, s, bw as int, bh as int, mark@, queue@, dist),
            head <= queue@.len(),
            forall|k: int| 0 <= k < head ==> #[trigger] closed_at(*level, queue@, dist, k),
            head < queue@.len() ==> dist[qv(queue@, queue@.len() - 1)] <= dist[qv(queue@, head as int)] + 1,
            vs.finite(),
            vs.subset_of(box_set(bw as int, bh as int)),
            forall|c: (int, int)| #[trigger] vs.contains(c) <==> in_box(c, bw as int, bh as int) && dist.contains_key(c),
            box_set(bw as int, bh as int).finite(),
            box_set(bw as int, bh as int).len() <= bw * bh,
            forall|k: int| 0 <= k < queue@.len() ==> i32::MIN <= (#[trigger] queue@[k]).0 <= i32::MAX && i32::MIN <= queue@[k].1 <= i32::MAX,
        decreases 2 * (bw * bh - vs.len()) + (queue@.len() - head),
    {
        proof {
            lemma_len_subset(vs, box_set(bw as int, bh as int));
        }
        let (ux, uy) = queue[head];
        let ghost u: (int, int) = (ux as int, uy as int);
        assert(u == qv(queue@, head as int));
        let ghost q0 = queue@;
        let ghost d0 = dist;
        let ghost vs0 = vs;
        let mut j: usize = 0;
        while j < 4
            invariant
                bfs_ok(*level, s, bw as int, bh as int, mark@, queue@, dist),
                j <= 4,
                head < q0.len() <= queue@.len(),
                forall|k: int| 0 <= k < q0.len() ==> queue@[k] == q0[k],
                forall|v: (int, int)| #[trigger] d0.contains_key(v) ==> dist.contains_key(v) && dist[v] == d0[v],
                forall|k: int| q0.len() <= k < queue@.len() ==> dist[#[trigger] qv(queue@, k)] == d0[u] + 1,
                dist[qv(queue@, queue@.len() - 1)] <= d0[u] + 1,
                d0.contains_key(u),
                forall|jj: int|
                    0 <= jj < j && level.passable_cell(#[trigger] step(u, try_dir(jj))) ==> dist.contains_key(step(u, try_dir(jj)))
                        && dist[step(u, try_dir(jj))] <= d0[u] + 1,
                vs.finite(),
                vs.subset_of(box_set(bw as int, bh as int)),
                forall|c: (int, int)| #[trigger] vs.contains(c) <==> in_box(c, bw as int, bh as int) && dist.contains_key(c),
                vs.len() - vs0.len() == queue@.len() - q0.len(),
                forall|k: int| 0 <= k < queue@.len() ==> i32::MIN <= (#[trigger] queue@[k]).0 <= i32::MAX && i32::MIN <= queue@[k].1 <= i32::MAX,
            decreases 4 - j,
        {
            let d = dir_of(j);
            let (nx, ny) = step_exec(ux, uy, d);
            let ghost w: (int, int) = (nx as int, ny as int);
            proof {
                lemma_step_side(u, d as int);
            }
            if level.is_passable(nx, ny) {
                proof {
                    lemma_passable_in_box(*level, w, bw as int, bh as int);
                }
                if mark[ny as usize][nx as usize] == -2 {
                    proof {
                        assert(mark_at(mark@, w) == -2);
                        assert(!dist.contains_key(w));
                        assert(w != s);
                    }
                    let ghost qprev = queue@;
                    let ghost dprev = dist;
                    let ghost mprev = mark@;
                    mark[ny as usize][nx as usize] = d;
                    queue.push((nx, ny));
                    proof {
                        let du = d0[u];
                        assert(dist[u] == du);
                        let r = choose|r: Seq<(int, int)>| #[trigger] is_route(*level, r) && r.len() == du + 1 && r[0] == s && r.last() == u;
                        lemma_route_push(*level, r, w);
                        assert(reaches_in(*level, s, w, du + 1));
                        dist = dist.insert(w, (du + 1) as nat);
                        vs = vs.insert(w);
                        assert(qv(queue@, queue@.len() - 1) == w);
                        assert forall|k: int| 0 <= k < queue@.len() implies dist.contains_key(#[trigger] qv(queue@, k)) by {
                            if k < qprev.len() {
                                assert(qv(queue@, k) == qv(qprev, k));
                            }
                        }
                        assert forall|k1: int, k2: int| 0 <= k1 < k2 < queue@.len() implies #[trigger] qv(queue@, k1) != #[trigger] qv(queue@, k2) by {
                            assert(qv(queue@, k1) == qv(qprev, k1));
                            if k2 < qprev.len() {
                                assert(qv(queue@, k2) == qv(qprev, k2));
                            } else {
                                assert(dprev.contains_key(qv(qprev, k1)));
                            }
                        }
                        assert forall|v: (int, int)| #[trigger] dist.contains_key(v) implies exists|k: int| 0 <= k < queue@.len() && qv(queue@, k) == v by {
                            if v == w {
                                assert(qv(queue@, queue@.len() - 1) == v);
                            } else {
                                assert(dprev.contains_key(v));
                                let k = choose|k: int| 0 <= k < qprev.len() && qv(qprev, k) == v;
                                assert(qv(queue@, k) == qv(qprev, k));
                            }
                        }
                        assert forall|k1: int, k2: int| 0 <= k1 <= k2 < queue@.len() implies dist[#[trigger] qv(queue@, k1)] <= dist[#[trigger] qv(queue@, k2)] by {
                            assert(qv(queue@, k1) == qv(qprev, k1) || k1 == queue@.len() - 1);
                            if k2 < qprev.len() {
                                assert(qv(queue@, k1) == qv(qprev, k1));
                                assert(qv(queue@, k2) == qv(qprev, k2));
                                assert(dprev[qv(qprev, k1)] <= dprev[qv(qprev, k2)]);
                            } else if k1 < qprev.len() {
                                assert(qv(queue@, k1) == qv(qprev, k1));
                                assert(dprev[qv(qprev, k1)] <= dprev[qv(qprev, qprev.len() - 1)]);
                            }
                        }
                        assert forall|c: (int, int)| in_box(c, bw as int, bh as int) implies ((#[trigger] mark_at(mark@, c) == -2) <==> !dist.contains_key(c)) by {
                            if c != w {
                                assert(mark_at(mark@, c) == mark_at(mprev, c));
                            }
                        }
                        assert forall|c: (int, int)|
                            #![trigger mark_at(mark@, c)]
                            in_box(c, bw as int, bh as int) && dist.contains_key(c) && c != s implies {
                                let dd = mark_at(mark@, c) as int;
                                &&& 0 <= dd < 4
                                &&& dist.contains_key(step(c, back_dir(dd)))
                                &&& dist[step(c, back_dir(dd))] + 1 == dist[c]
                            } by {
                            if c == w {
                                assert(mark_at(mark@, c) == d);
                                assert(step(w, back_dir(d as int)) == u);
                            } else {
                                assert(mark_at(mark@, c) == mark_at(mprev, c));
                                assert(dprev.contains_key(c));
                                let dd = mark_at(mprev, c) as int;
                                assert(dprev.contains_key(step(c, back_dir(dd))));
                            }
                        }
                        if in_box(s, bw as int, bh as int) {
                            assert(mark_at(mark@, s) == mark_at(mprev, s));
                        }
                        assert(vs.len() == vs0.len() + (queue@.len() - q0.len())) by {
                            assert(!vs.remove(w).contains(w));
                        }
                        assert forall|k: int| q0.len() <= k < queue@.len() implies dist[#[trigger] qv(queue@, k)] == d0[u] + 1 by {
                            if k < qprev.len() {
                                assert(qv(queue@, k) == qv(qprev, k));
                            }
                        }
                        assert(dist.contains_key(w));
                    }
                } else {
                    proof {
                        assert(mark_at(mark@, w) != -2);
                        assert(dist.contains_key(w));
                    }
                }
            }
            proof {
                assert forall|jj: int|
                    0 <= jj < j + 1 && level.passable_cell(#[trigger] step(u, try_dir(jj))) implies dist.contains_key(step(u, try_dir(jj)))
                        && dist[step(u, try_dir(jj))] <= d0[u] + 1 by {
                    if jj == j && level.passable_cell(w) {
                        assert(dist.contains_key(w));
                        let k = choose|k: int| 0 <= k < queue@.len() && qv(queue@, k) == w;
                        assert(dist[qv(queue@, k)] <= dist[qv(queue@, queue@.len() - 1)]);
                    }
                }
            }
            j = j + 1;
        }
        proof {
            assert(closed_at(*level, queue@, dist, head as int)) by {
                assert forall|d: int| 0 <= d < 4 && level.passable_cell(#[trigger] step(qv(queue@, head as int), d)) implies dist.contains_key(step(qv(queue@, head as int), d))
                    && dist[step(qv(queue@, head as int), d)] <= dist[qv(queue@, head as int)] + 1 by {
                    assert(qv(queue@, head as int) == u);
                    if d == 1 {
                        assert(step(u, try_dir(0)) == step(u, d));
                    } else if d == 3 {
                        assert(step(u, try_dir(1)) == step(u, d));
                    } else if d == 2 {
                        assert(step(u, try_dir(2)) == step(u, d));
                    } else {
                        assert(step(u, try_dir(3)) == step(u, d));
                    }
                }
            }
            assert forall|k: int| 0 <= k < head + 1 implies #[trigger] closed_at(*level, queue@, dist, k) by {
                if k < head {
                    assert(closed_at(*level, q0, d0, k));
                    assert(qv(queue@, k) == qv(q0, k));
                    assert forall|d: int| 0 <= d < 4 && level.passable_cell(#[trigger] step(qv(queue@, k), d)) implies dist.contains_key(step(qv(queue@, k), d))
                        && dist[step(qv(queue@, k), d)] <= dist[qv(queue@, k)] + 1 by {
                        assert(step(qv(queue@, k), d) == step(qv(q0, k), d));
                    }
                }
            }
            if head + 1 < queue@.len() {
                assert(dist[u] <= dist[qv(queue@, head + 1)]);
            }
            lemma_len_subset(vs, box_set(bw as int, bh as int));
        }
        head = head + 1;
    }
    (mark, queue, Ghost(dist))
}

/// What the state of the search says of one tile `c`.
proof fn lemma_bfs_point(
    level: Level,
    s: (int, int),
    bw: int,
    bh: int,
    mark: Seq<Vec<i8>>,
    q: Seq<(i64, i64)>,
    dist: Map<(int, int), nat>,
    c: (int, int),
)
    requires
        bfs_ok(level, s, bw, bh, mark, q, dist),
    ensures
        dist.contains_key(s),
        dist[s] == 0,
        mark.len() == bh,
        forall|y: int| 0 <= y < bh ==> (#[trigger] mark[y])@.len() == bw,
        dist.contains_key(c) ==> reaches_in(level, s, c, dist[c]),
        dist.contains_key(c) && c != s ==> level.passable_cell(c) && dist[c] >= 1,
        in_box(c, bw, bh) ==> (mark_at(mark, c) == -2 <==> !dist.contains_key(c)),
        in_box(c, bw, bh) && dist.contains_key(c) && c != s ==> {
            let d = mark_at(mark, c) as int;
            &&& 0 <= d < 4
            &&& dist.contains_key(step(c, back_dir(d)))
            &&& dist[step(c, back_dir(d))] + 1 == dist[c]
        },
{
    reveal(bfs_ok);
}

/// The tile coordinates of the tile whose corner is at pixel `p`.
pub open spec fn tile_of(p: Point<i32>, ts: int) -> (int, int) {
    (p.x as int / ts, p.y as int / ts)
}

/// The direction in which the enemy on the tile at `enemy_tile` steps toward
/// the player on the tile at `player_tile` (pixel positions of tile corners):
/// the first step of a shortest route over walkable tiles; where several
/// first steps start one, the first of right, left, down, up (the order in
/// which a breadth-first search from the enemy's tile tries the neighbours).
/// 0 up, 1 right, 2 down, 3 left; -1 when the enemy is on the player's tile or
/// no route leads there.
pub fn calculate_player_direction(level: &Level, enemy_tile: Point<i32>, player_tile: Point<i32>) -> (dir: i32)
    requires
        level.wf(),
        enemy_tile.x % level.tile_size == 0,
        enemy_tile.y % level.tile_size == 0,
        player_tile.x % level.tile_size == 0,
        player_tile.y % level.tile_size == 0,
        forall|i: int| 0 <= i < level.tiles@.len() ==> (#[trigger] level.tiles@[i]).width <= i32::MAX && level.tiles@[i].height <= i32::MAX,
    ensures
        ({
            let s = tile_of(enemy_tile, level.tile_size as int);
            let t = tile_of(player_tile, level.tile_size as int);
            &&& (dir == -1 <==> (s == t || forall|n: nat| !#[trigger] reaches_in(*level, s, t, n)))
            &&& dir != -1 ==> {
                &&& 0 <= dir < 4
                &&& level.passable_cell(step(s, dir as int))
                &&& exists|n: nat| #[trigger] shortest(*level, s, t, n + 1) && reaches_in(*level, step(s, dir as int), t, n)
                &&& exists|j: int|
                    0 <= j < 4 && try_dir(j) == dir && forall|i: int, m: nat|
                        #![trigger shortest(*level, s, t, m), try_dir(i)]
                        0 <= i < j && shortest(*level, s, t, m) ==> !(level.passable_cell(step(s, try_dir(i)))
                            && reaches_in(*level, step(s, try_dir(i)), t, (m - 1) as nat))
            }
        }),
{
    let ts = level.tile_size;
    let sx = tile_coord(enemy_tile.x, ts);
    let sy = tile_coord(enemy_tile.y, ts);
    let px = tile_coord(player_tile.x, ts);
    let py = tile_coord(player_tile.y, ts);
    let ghost s: (int, int) = (sx as int, sy as int);
    let ghost t: (int, int) = (px as int, py as int);
    let (bw, bh) = level_span(level);
    let (mark, queue, Ghost(dist)) = search(level, sx, sy, bw, bh);
    proof {
        lemma_bfs_point(*level, s, bw as int, bh as int, mark@, queue@, dist, t);
    }
    let at_start = px == sx && py == sy;
    let seen = at_start || (0 <= px && 0 <= py && (px as u64) < (bw as u64) && (py as u64) < (bh as u64)
        && mark[py as usize][px as usize] != -2);
    proof {
        if !at_start && dist.contains_key(t) {
            lemma_passable_in_box(*level, t, bw as int, bh as int);
            assert(mark_at(mark@, t) != -2);
        }
        if at_start {
            assert(t == s);
        } else if seen {
            assert(mark_at(mark@, t) == mark@[py as int]@[px as int]);
            assert(mark_at(mark@, t) != -2);
        }
        assert(seen == dist.contains_key(t));
        assert forall|m: nat| #[trigger] reaches_in(*level, s, t, m) implies dist.contains_key(t) && dist[t] <= m by {
            let r = choose|r: Seq<(int, int)>| #[trigger] is_route(*level, r) && r.len() == m + 1 && r[0] == s && r.last() == t;
            lemma_bfs_complete(*level, s, bw as int, bh as int, mark@, queue@, dist, r);
        }
    }
    assert(s == tile_of(enemy_tile, ts as int) && t == tile_of(player_tile, ts as int));
    if !seen || at_start {
        return -1;
    }
    let ghost big_d = dist[t];
    proof {
        lemma_bfs_point(*level, s, bw as int, bh as int, mark@, queue@, dist, t);
    }
    let mut j: usize = 0;
    while j < 4
        invariant
            s == (sx as int, sy as int),
            t == (px as int, py as int),
            t != s,
            level.wf(),
            bw <= i32::MAX,
            bh <= i32::MAX,
            forall|i: int| 0 <= i < level.tiles@.len() ==> (#[trigger] level.tiles@[i]).width <= bw && level.tiles@[i].height <= bh,
            i32::MIN <= sx <= i32::MAX,
            i32::MIN <= sy <= i32::MAX,
            bfs_ok(*level, s, bw as int, bh as int, mark@, queue@, dist),
            forall|k: int| 0 <= k < queue@.len() ==> #[trigger] closed_at(*level, queue@, dist, k),
            dist.contains_key(t),
            big_d == dist[t],
            s == tile_of(enemy_tile, level.tile_size as int),
            t == tile_of(player_tile, level.tile_size as int),
            big_d >= 1,
            reaches_in(*level, s, t, big_d),
            forall|m: nat| #[trigger] reaches_in(*level, s, t, m) ==> big_d <= m,
            j <= 4,
            forall|i: int|
                0 <= i < j ==> !(level.passable_cell(step(s, try_dir(i))) && #[trigger] reaches_in(
                    *level,
                    step(s, try_dir(i)),
                    t,
                    (big_d - 1) as nat,
                )),
        decreases 4 - j,
    {
        let d = dir_of(j);
        let (ux, uy) = step_exec(sx, sy, d);
        let ghost u: (int, int) = (ux as int, uy as int);
        if level.is_passable(ux, uy) {
            proof {
                lemma_step_side(s, d as int);
            }
            if starts_shortest(level, sx, sy, px, py, ux, uy, bw, bh, &mark, Ghost(queue@), Ghost(dist)) {
                proof {
                    lemma_first_shortest(*level, s, t, big_d, j as int);
                    let n = (big_d - 1) as nat;
                    assert(reaches_in(*level, step(s, d as int), t, n));
                    assert(shortest(*level, s, t, n + 1));
                    assert(reaches_in(*level, s, t, big_d));
                    assert(try_dir(j as int) == d as int);
                    assert(s == tile_of(enemy_tile, level.tile_size as int));
                    assert(t == tile_of(player_tile, level.tile_size as int));
                }
                return d as i32;
            }
        }
        j = j + 1;
    }
    proof {
        let r = choose|r: Seq<(int, int)>| #[trigger] is_route(*level, r) && r.len() == big_d + 1 && r[0] == s && r.last() == t;
        lemma_route_suffix(*level, r);
        assert(side_by_side(r[0], r[1]));
        lemma_side_step(s, r[1]);
        let dd = choose|dd: int| 0 <= dd < 4 && #[trigger] step(s, dd) == r[1];
        let i: int = if dd == 1 {
            0
        } else if dd == 3 {
            1
        } else if dd == 2 {
            2
        } else {
            3
        };
        assert(try_dir(i) == dd);
        assert(level.passable_cell(r[1]));
        assert(reaches_in(*level, r[1], t, (big_d - 1) as nat));
        assert(reaches_in(*level, step(s, try_dir(i)), t, (big_d - 1) as nat));
        assert(false);
    }
    -1
}

/// Whether, from `u`, a walkable neighbour of `s`, a route reaches `t` in one
/// step less than the shortest route from `s` to `t` (the first search's steps
/// to `t`): a second search from `u`, walked back from `t` in step with the
/// first until one of them is back at its start.
#[verifier::loop_isolation(false)]
fn starts_shortest(
    level: &Level,
    sx: i64,
    sy: i64,
    px: i64,
    py: i64,
    ux: i64,
    uy: i64,
    bw: usize,
    bh: usize,
    mark1: &Vec<Vec<i8>>,
    Ghost(q1): Ghost<Seq<(i64, i64)>>,
    Ghost(dist1): Ghost<Map<(int, int), nat>>,
) -> (ok: bool)
    requires
        level.wf(),
        forall|i: int| 0 <= i < level.tiles@.len() ==> (#[trigger] level.tiles@[i]).width <= bw && level.tiles@[i].height <= bh,
        bw <= i32::MAX,
        bh <= i32::MAX,
        i32::MIN <= sx <= i32::MAX,
        i32::MIN <= sy <= i32::MAX,
        bfs_ok(*level, (sx as int, sy as int), bw as int, bh as int, mark1@, q1, dist1),
        forall|k: int| 0 <= k < q1.len() ==> #[trigger] closed_at(*level, q1, dist1, k),
        dist1.contains_key((px as int, py as int)),
        (px as int, py as int) != (sx as int, sy as int),
        level.passable_cell((ux as int, uy as int)),
        side_by_side((sx as int, sy as int), (ux as int, uy as int)),
    ensures
        ok == reaches_in(*level, (ux as int, uy as int), (px as int, py as int), (dist1[(px as int, py as int)] - 1) as nat),
{
    let ghost s: (int, int) = (sx as int, sy as int);
    let ghost t: (int, int) = (px as int, py as int);
    let ghost u: (int, int) = (ux as int, uy as int);
    let ghost big_d = dist1[t];
    proof {
        lemma_passable_in_box(*level, u, bw as int, bh as int);
        lemma_bfs_point(*level, s, bw as int, bh as int, mark1@, q1, dist1, t);
        lemma_passable_in_box(*level, t, bw as int, bh as int);
    }
    let (mark2, q2, Ghost(dist2)) = search(level, ux, uy, bw, bh);
    proof {
        lemma_bfs_point(*level, u, bw as int, bh as int, mark2@, q2@, dist2, t);
        assert forall|m: nat| #[trigger] reaches_in(*level, u, t, m) implies m + 1 >= big_d && dist2.contains_key(t) && dist2[t]
            <= m by {
            let r = choose|r: Seq<(int, int)>| #[trigger] is_route(*level, r) && r.len() == m + 1 && r[0] == u && r.last() == t;
            lemma_route_prepend(*level, s, r);
            lemma_bfs_complete(*level, s, bw as int, bh as int, mark1@, q1, dist1, seq![s] + r);
            lemma_bfs_complete(*level, u, bw as int, bh as int, mark2@, q2@, dist2, r);
        }
    }
    let reached = mark2[py as usize][px as usize] != -2;
    if !reached {
        return false;
    }
    proof {
        assert(reaches_in(*level, u, t, dist2[t]));
        assert(dist2[t] + 1 >= big_d);
    }
    let mut c1x = px;
    let mut c1y = py;
    let mut c2x = px;
    let mut c2y = py;
    while !(c2x == ux && c2y == uy) && !(c1x == sx && c1y == sy)
        invariant
            dist1.contains_key((c1x as int, c1y as int)),
            dist2.contains_key((c2x as int, c2y as int)),
            dist1[(c1x as int, c1y as int)] <= big_d,
            big_d - dist1[(c1x as int, c1y as int)] == dist2[t] - dist2[(c2x as int, c2y as int)],
            i32::MIN <= c1x <= i32::MAX,
            i32::MIN <= c1y <= i32::MAX,
            i32::MIN <= c2x <= i32::MAX,
            i32::MIN <= c2y <= i32::MAX,
        decreases dist2[(c2x as int, c2y as int)],
    {
        let ghost c1: (int, int) = (c1x as int, c1y as int);
        let ghost c2: (int, int) = (c2x as int, c2y as int);
        proof {
            lemma_bfs_point(*level, s, bw as int, bh as int, mark1@, q1, dist1, c1);
            lemma_bfs_point(*level, u, bw as int, bh as int, mark2@, q2@, dist2, c2);
            lemma_passable_in_box(*level, c1, bw as int, bh as int);
            lemma_passable_in_box(*level, c2, bw as int, bh as int);
        }
        let d1 = mark1[c1y as usize][c1x as usize];
        let d2 = mark2[c2y as usize][c2x as usize];
        assert(d1 == mark_at(mark1@, c1));
        assert(d2 == mark_at(mark2@, c2));
        let b1: i8 = if d1 < 2 {
            d1 + 2
        } else {
            d1 - 2
        };
        let b2: i8 = if d2 < 2 {
            d2 + 2
        } else {
            d2 - 2
        };
        let (n1x, n1y) = step_exec(c1x, c1y, b1);
        let (n2x, n2y) = step_exec(c2x, c2y, b2);
        proof {
            assert(back_dir(d1 as int) == b1 as int);
            assert(back_dir(d2 as int) == b2 as int);
        }
        c1x = n1x;
        c1y = n1y;
        c2x = n2x;
        c2y = n2y;
    }
    let ghost c1: (int, int) = (c1x as int, c1y as int);
    proof {
        lemma_bfs_point(*level, s, bw as int, bh as int, mark1@, q1, dist1, c1);
        lemma_bfs_point(*level, u, bw as int, bh as int, mark2@, q2@, dist2, (c2x as int, c2y as int));
    }
    if !(c2x == ux && c2y == uy) {
        proof {
            assert(dist2[(c2x as int, c2y as int)] >= 1);
            assert(dist2[t] >= big_d);
        }
        return false;
    }
    if c1x == sx && c1y == sy {
        proof {
            assert(dist2[t] == big_d);
        }
        return false;
    }
    proof {
        lemma_passable_in_box(*level, c1, bw as int, bh as int);
    }
    let d1 = mark1[c1y as usize][c1x as usize];
    assert(d1 == mark_at(mark1@, c1));
    let b1: i8 = if d1 < 2 {
        d1 + 2
    } else {
        d1 - 2
    };
    let (n1x, n1y) = step_exec(c1x, c1y, b1);
    proof {
        assert(back_dir(d1 as int) == b1 as int);
        let n1: (int, int) = (n1x as int, n1y as int);
        lemma_bfs_point(*level, s, bw as int, bh as int, mark1@, q1, dist1, n1);
        assert(dist1[n1] + 1 == dist1[c1]);
        if n1x == sx && n1y == sy {
            assert(dist2[t] == big_d - 1);
        } else {
            assert(dist1[n1] >= 1);
            assert(dist2[t] > big_d - 1);
        }
    }
    n1x == sx && n1y == sy
}

/// With `big_d` the fewest steps from `s` to `t`, and no neighbour tried before
/// the `j`-th starting a route of `big_d - 1` steps, the `j`-th is the first
/// neighbour, in the order tried, that starts a shortest route.
proof fn lemma_first_shortest(level: Level, s: (int, int), t: (int, int), big_d: nat, j: int)
    requires
        big_d >= 1,
        reaches_in(level, s, t, big_d),
        forall|m: nat| #[trigger] reaches_in(level, s, t, m) ==> big_d <= m,
        forall|i: int|
            0 <= i < j ==> !(level.passable_cell(step(s, try_dir(i))) && #[trigger] reaches_in(
                level,
                step(s, try_dir(i)),
                t,
                (big_d - 1) as nat,
            )),
    ensures
        shortest(level, s, t, ((big_d - 1) as nat + 1) as nat),
        forall|i: int, m: nat|
            #![trigger shortest(level, s, t, m), try_dir(i)]
            0 <= i < j && shortest(level, s, t, m) ==> !(level.passable_cell(step(s, try_dir(i))) && reaches_in(
                level,
                step(s, try_dir(i)),
                t,
                (m - 1) as nat,
            )),
{
    assert(((big_d - 1) as nat + 1) as nat == big_d);
    assert forall|i: int, m: nat|
        #![trigger shortest(level, s, t, m), try_dir(i)]
        0 <= i < j && shortest(level, s, t, m) implies !(level.passable_cell(step(s, try_dir(i))) && reaches_in(
            level,
            step(s, try_dir(i)),
            t,
            (m - 1) as nat,
        )) by {
        assert(m <= big_d);
        assert(big_d <= m);
    }
}

/// A route less its first tile is a route.
proof fn lemma_route_suffix(level: Level, r: Seq<(int, int)>)
    requires
        is_route(level, r),
        r.len() >= 2,
    ensures
        is_route(level, r.skip(1)),
        r.skip(1)[0] == r[1],
        r.skip(1).last() == r.last(),
        r.skip(1).len() == r.len() - 1,
{
    let q = r.skip(1);
    assert forall|i: int| 1 <= i < q.len() implies level.passable_cell(#[trigger] q[i]) by {
        assert(q[i] == r[i + 1]);
    }
    assert forall|i: int| 0 <= i < q.len() - 1 implies side_by_side(#[trigger] q[i], q[i + 1]) by {
        assert(q[i] == r[i + 1]);
        assert(q[i + 1] == r[i + 2]);
    }
}



/// `v / ts` for a multiple `v` of `ts`: Rust's quotient, exact here.
fn tile_coord(v: i32, ts: i32) -> (c: i64)
    requires
        ts > 0,
        v % ts == 0,
    ensures
        c == v as int / ts as int,
        i32::MIN <= c <= i32::MAX,
{
    if v >= 0 {
        (v / ts) as i64
    } else {
        let nq = (-(v as i64)) / (ts as i64);
        proof {
            let k = v as int / ts as int;
            vstd::arithmetic::div_mod::lemma_fundamental_div_mod(v as int, ts as int);
            assert(v == ts * k);
            assert(-(v as int) == (-k) * ts) by (nonlinear_arith)
                requires
                    v == ts * k,
            ;
            vstd::arithmetic::div_mod::lemma_fundamental_div_mod_converse(-(v as int), ts as int, -k, 0);
            assert(k >= v) by (nonlinear_arith)
                requires
                    v == ts * k,
                    ts > 0,
                    v < 0,
            ;
        }
        -nq
    }
}

} // verus!
