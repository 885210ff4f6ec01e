use vstd::prelude::*;
use crate::def::{Pos, Vec2d, INF, N, cell_count, adjacent, manhattan, lemma_idx_bounds, lemma_idx_injective};
use crate::heap::{Entry, MinHeap};
use vstd::multiset::Multiset;

verus! {

/// Largest estimated weight a cell may carry.
pub const MAX_WEIGHT: i64 = 10_000_000_000;

/// Largest excavation cost per cell a grid search accepts.
pub const MAX_C: i64 = 10_000_000_000;

/// The route planner's picture of the board: an estimated weight per cell,
/// which cells the current plan uses, and the plan's score.
#[derive(Debug)]
pub struct Grid {
    pub total_score: i64,
    pub estimated_weight: Vec2d<i64>,
    pub is_used: Vec2d<bool>,
    pub house: Vec<Pos>,
    pub source: Vec<Pos>,
}

/// The cell one step from `p` in direction `dir`: up, down, left, right.
pub open spec fn neighbor(p: Pos, dir: int) -> Pos {
    if dir == 0 {
        Pos { y: (p.y - 1) as i64, x: p.x }
    } else if dir == 1 {
        Pos { y: (p.y + 1) as i64, x: p.x }
    } else if dir == 2 {
        Pos { y: p.y, x: (p.x - 1) as i64 }
    } else {
        Pos { y: p.y, x: (p.x + 1) as i64 }
    }
}

pub fn step(p: &Pos, dir: usize) -> (q: Pos)
    requires
        p.valid(),
        dir < 4,
    ensures
        q == neighbor(*p, dir as int),
        adjacent(*p, q),
{
    if dir == 0 {
        Pos { y: p.y - 1, x: p.x }
    } else if dir == 1 {
        Pos { y: p.y + 1, x: p.x }
    } else if dir == 2 {
        Pos { y: p.y, x: p.x - 1 }
    } else {
        Pos { y: p.y, x: p.x + 1 }
    }
}

/// Sum of a sequence of integers.
pub open spec fn total(s: Seq<i64>) -> int
    decreases s.len(),
{
    if s.len() == 0 {
        0
    } else {
        total(s.drop_last()) + s.last()
    }
}

/// Changing one entry changes the total by the difference.
pub proof fn lemma_total_update(s: Seq<i64>, i: int, v: i64)
    requires
        0 <= i < s.len(),
    ensures
        total(s.update(i, v)) == total(s) - s[i] + v,
    decreases s.len(),
{
    if i < s.len() - 1 {
        lemma_total_update(s.drop_last(), i, v);
        assert(s.update(i, v).drop_last() =~= s.drop_last().update(i, v));
    } else {
        assert(s.update(i, v).drop_last() =~= s.drop_last());
    }
}

/// A total of nonnegative entries is nonnegative.
pub proof fn lemma_total_nonneg(s: Seq<i64>)
    requires
        forall|i: int| 0 <= i < s.len() ==> s[i] >= 0,
    ensures
        total(s) >= 0,
    decreases s.len(),
{
    if s.len() > 0 {
        lemma_total_nonneg(s.drop_last());
    }
}

impl Grid {
    /// Both tables cover the board and every weight lies in `0 ..= MAX_WEIGHT`.
    pub open spec fn tables_ok(&self) -> bool {
        &&& self.estimated_weight.covers_board()
        &&& self.is_used.covers_board()
        &&& forall|i: int|
            0 <= i < cell_count() ==> 0 <= #[trigger] self.estimated_weight@[i] <= MAX_WEIGHT
    }

    /// Cost of entering cell `p` when a cell costs `c` to open: nothing when the
    /// plan already uses it, its weight plus `2 * c` otherwise.
    pub open spec fn step_cost(&self, c: int, p: Pos) -> int {
        if self.is_used.at(p) {
            0
        } else {
            self.estimated_weight.at(p) + 2 * c
        }
    }
}

/// The distance of `q`'s neighbor in direction `dir` is at most the distance
/// of `q` plus the cost of entering that neighbor.
pub open spec fn relaxed_dir(g: &Grid, c: int, dist: Seq<i64>, q: Pos, dir: int) -> bool {
    let nb = neighbor(q, dir);
    nb.valid() ==> dist[nb.idx()] <= dist[q.idx()] + g.step_cost(c, nb)
}

pub open spec fn relaxed(g: &Grid, c: int, dist: Seq<i64>, q: Pos) -> bool {
    &&& relaxed_dir(g, c, dist, q, 0)
    &&& relaxed_dir(g, c, dist, q, 1)
    &&& relaxed_dir(g, c, dist, q, 2)
    &&& relaxed_dir(g, c, dist, q, 3)
}

/// `par[v]` names a neighbor from which `v` is reached at the recorded cost.
pub open spec fn parent_ok(g: &Grid, c: int, dist: Seq<i64>, par: Seq<Option<Pos>>, v: Pos) -> bool {
    par[v.idx()] matches Some(p) ==> {
        &&& p.valid()
        &&& adjacent(p, v)
        &&& dist[v.idx()] == dist[p.idx()] + g.step_cost(c, v)
    }
}

/// `par[v]` names a neighbor whose distance plus the cost of entering `v`
/// does not exceed the distance of `v`.
pub open spec fn parent_le(g: &Grid, c: int, dist: Seq<i64>, par: Seq<Option<Pos>>, v: Pos) -> bool {
    par[v.idx()] matches Some(p) ==> {
        &&& p.valid()
        &&& adjacent(p, v)
        &&& dist[v.idx()] >= dist[p.idx()] + g.step_cost(c, v)
    }
}

/// Following `par` from `v` goes strictly down in (distance, stamp) order.
pub open spec fn parent_ranked(dist: Seq<i64>, par: Seq<Option<Pos>>, stamp: Seq<nat>, v: Pos) -> bool {
    par[v.idx()] matches Some(p) ==> {
        ||| dist[p.idx()] < dist[v.idx()]
        ||| (dist[p.idx()] == dist[v.idx()] && stamp[p.idx()] < stamp[v.idx()])
    }
}

/// `par` leads every cell back towards the root without cycling.
pub open spec fn well_ranked(dist: Seq<i64>, par: Seq<Option<Pos>>) -> bool {
    exists|stamp: Seq<nat>|
        stamp.len() == cell_count() && forall|v: Pos|
            v.valid() ==> #[trigger] parent_ranked(dist, par, stamp, v)
}

/// `dist` and `par` hold the least entering costs from `start` and a tree
/// of neighbors that realizes them.
pub open spec fn shortest_tree(
    g: &Grid,
    c: int,
    start: Pos,
    dist: Seq<i64>,
    par: Seq<Option<Pos>>,
) -> bool {
    &&& dist.len() == cell_count()
    &&& par.len() == cell_count()
    &&& dist[start.idx()] == 0
    &&& par[start.idx()] is None
    &&& forall|q: Pos| q.valid() ==> 0 <= #[trigger] dist[q.idx()] <= INF
    &&& forall|q: Pos| q.valid() ==> #[trigger] relaxed(g, c, dist, q)
    &&& forall|v: Pos|
        v.valid() && v != start && dist[v.idx()] < INF ==> (#[trigger] par[v.idx()]) is Some
    &&& forall|v: Pos| v.valid() ==> #[trigger] parent_ok(g, c, dist, par, v)
    &&& well_ranked(dist, par)
}

pub open spec fn queued_or_settled(
    g: &Grid,
    c: int,
    heap: Multiset<Entry>,
    dist: Seq<i64>,
    q: Pos,
) -> bool {
    heap.count((dist[q.idx()], q.y, q.x)) > 0 || relaxed(g, c, dist, q)
}

/// The cell an entry belongs to.
pub open spec fn entry_pos(e: Entry) -> Pos {
    Pos { y: e.1, x: e.2 }
}

pub open spec fn entry_ok(dist: Seq<i64>, e: Entry) -> bool {
    entry_pos(e).valid() && e.0 >= dist[entry_pos(e).idx()]
}

/// What the search keeps true of its tables between steps.
pub open spec fn search_inv(
    g: &Grid,
    c: int,
    start: Pos,
    heap: Multiset<Entry>,
    dist: Seq<i64>,
    par: Seq<Option<Pos>>,
    stamp: Seq<nat>,
    cnt: nat,
) -> bool {
    &&& g.tables_ok()
    &&& start.valid()
    &&& 0 <= c <= MAX_C
    &&& dist.len() == cell_count()
    &&& par.len() == cell_count()
    &&& stamp.len() == cell_count()
    &&& dist[start.idx()] == 0
    &&& par[start.idx()] is None
    &&& forall|i: int| 0 <= i < cell_count() ==> 0 <= #[trigger] dist[i] <= INF
    &&& forall|i: int| 0 <= i < cell_count() ==> #[trigger] stamp[i] < cnt
    &&& forall|e: Entry| #[trigger] heap.count(e) > 0 ==> entry_ok(dist, e)
    &&& forall|v: Pos|
        v.valid() && v != start && dist[v.idx()] < INF ==> (#[trigger] par[v.idx()]) is Some
    &&& forall|v: Pos| v.valid() ==> #[trigger] parent_le(g, c, dist, par, v)
    &&& forall|v: Pos| v.valid() ==> #[trigger] parent_ranked(dist, par, stamp, v)
}

/// Entering a cell costs between nothing and the largest weight plus twice
/// the largest excavation cost.
pub proof fn lemma_step_cost_bounds(g: &Grid, c: int, p: Pos)
    requires
        g.tables_ok(),
        0 <= c <= MAX_C,
        p.valid(),
    ensures
        0 <= g.step_cost(c, p) <= MAX_WEIGHT + 2 * MAX_C,
{
    lemma_idx_bounds(p);
}

/// The direction in which a neighbor lies.
pub proof fn lemma_adjacent_dir(p: Pos, v: Pos) -> (dir: int)
    requires
        adjacent(p, v),
    ensures
        0 <= dir < 4,
        neighbor(p, dir) == v,
{
    if v.y == p.y - 1 {
        0
    } else if v.y == p.y + 1 {
        1
    } else if v.x == p.x - 1 {
        2
    } else {
        3
    }
}

/// A cell at the largest distance is trivially relaxed.
proof fn lemma_inf_relaxed(g: &Grid, c: int, dist: Seq<i64>, q: Pos)
    requires
        g.tables_ok(),
        0 <= c <= MAX_C,
        q.valid(),
        dist.len() == cell_count(),
        dist[q.idx()] == INF,
        forall|i: int| 0 <= i < cell_count() ==> 0 <= #[trigger] dist[i] <= INF,
    ensures
        relaxed(g, c, dist, q),
{
    assert forall|k: int| 0 <= k < 4 implies relaxed_dir(g, c, dist, q, k) by {
        let nb = neighbor(q, k);
        if nb.valid() {
            lemma_idx_bounds(nb);
            lemma_step_cost_bounds(g, c, nb);
        }
    }
    assert(relaxed_dir(g, c, dist, q, 0));
    assert(relaxed_dir(g, c, dist, q, 1));
    assert(relaxed_dir(g, c, dist, q, 2));
    assert(relaxed_dir(g, c, dist, q, 3));
}

/// Lowering the distance of `np` through `p` keeps the search invariant.
proof fn lemma_relax_step(
    g: &Grid,
    c: int,
    start: Pos,
    p: Pos,
    np: Pos,
    dir: int,
    heap1: Multiset<Entry>,
    dist1: Seq<i64>,
    par1: Seq<Option<Pos>>,
    stamp1: Seq<nat>,
    cnt1: nat,
)
    requires
        search_inv(g, c, start, heap1, dist1, par1, stamp1, cnt1),
        p.valid(),
        0 <= dir < 4,
        np == neighbor(p, dir),
        np.valid(),
        dist1[np.idx()] > dist1[p.idx()] + g.step_cost(c, np),
        forall|q: Pos| q.valid() && q != p ==> #[trigger] queued_or_settled(g, c, heap1, dist1, q),
        forall|k: int| 0 <= k < dir ==> #[trigger] relaxed_dir(g, c, dist1, p, k),
    ensures
        ({
            let nd = (dist1[p.idx()] + g.step_cost(c, np)) as i64;
            let heap2 = heap1.insert((nd, np.y, np.x));
            let dist2 = dist1.update(np.idx(), nd);
            let par2 = par1.update(np.idx(), Some(p));
            let stamp2 = stamp1.update(np.idx(), cnt1);
            &&& search_inv(g, c, start, heap2, dist2, par2, stamp2, cnt1 + 1)
            &&& dist2[p.idx()] == dist1[p.idx()]
            &&& forall|q: Pos| q.valid() && q != p ==> #[trigger] queued_or_settled(g, c, heap2, dist2, q)
            &&& forall|k: int| 0 <= k <= dir ==> #[trigger] relaxed_dir(g, c, dist2, p, k)
            &&& total(dist2) < total(dist1)
        }),
{
    broadcast use vstd::multiset::group_multiset_axioms;
    lemma_idx_bounds(p);
    lemma_idx_bounds(np);
    lemma_idx_bounds(start);
    lemma_step_cost_bounds(g, c, np);
    let w = g.step_cost(c, np);
    let nd = (dist1[p.idx()] + w) as i64;
    let heap2 = heap1.insert((nd, np.y, np.x));
    let dist2 = dist1.update(np.idx(), nd);
    let par2 = par1.update(np.idx(), Some(p));
    let stamp2 = stamp1.update(np.idx(), cnt1);
    lemma_total_update(dist1, np.idx(), nd);
    if np.idx() == p.idx() {
        lemma_idx_injective(np, p);
    }
    if np.idx() == start.idx() {
        lemma_idx_injective(np, start);
    }
    assert forall|e: Entry| #[trigger] heap2.count(e) > 0 implies entry_ok(dist2, e) by {
        if e != (nd, np.y, np.x) {
            assert(heap1.count(e) > 0);
            lemma_idx_bounds(entry_pos(e));
        }
    }
    assert forall|v: Pos| v.valid() && v != start && dist2[v.idx()] < INF implies (
    #[trigger] par2[v.idx()]) is Some by {
        lemma_idx_bounds(v);
    }
    assert forall|v: Pos| v.valid() implies #[trigger] parent_le(g, c, dist2, par2, v) by {
        lemma_idx_bounds(v);
        if v.idx() == np.idx() {
            lemma_idx_injective(v, np);
        } else {
            assert(parent_le(g, c, dist1, par1, v));
            if let Some(q) = par1[v.idx()] {
                lemma_idx_bounds(q);
            }
        }
    }
    assert forall|v: Pos| v.valid() implies #[trigger] parent_ranked(dist2, par2, stamp2, v) by {
        lemma_idx_bounds(v);
        if v.idx() == np.idx() {
            lemma_idx_injective(v, np);
        } else {
            assert(parent_ranked(dist1, par1, stamp1, v));
            assert(parent_le(g, c, dist1, par1, v));
            if let Some(q) = par1[v.idx()] {
                lemma_idx_bounds(q);
            }
        }
    }
    assert forall|q: Pos| q.valid() && q != p implies #[trigger] queued_or_settled(
        g,
        c,
        heap2,
        dist2,
        q,
    ) by {
        lemma_idx_bounds(q);
        if q.idx() == np.idx() {
            lemma_idx_injective(q, np);
        } else {
            assert(queued_or_settled(g, c, heap1, dist1, q));
            if relaxed(g, c, dist1, q) {
                assert forall|k: int| 0 <= k < 4 implies relaxed_dir(g, c, dist2, q, k) by {
                    assert(relaxed_dir(g, c, dist1, q, k));
                    let nb = neighbor(q, k);
                    if nb.valid() {
                        lemma_idx_bounds(nb);
                    }
                }
                assert(relaxed_dir(g, c, dist2, q, 0));
                assert(relaxed_dir(g, c, dist2, q, 1));
                assert(relaxed_dir(g, c, dist2, q, 2));
                assert(relaxed_dir(g, c, dist2, q, 3));
            }
        }
    }
    assert forall|k: int| 0 <= k <= dir implies #[trigger] relaxed_dir(g, c, dist2, p, k) by {
        if k < dir {
            assert(relaxed_dir(g, c, dist1, p, k));
            let nb = neighbor(p, k);
            if nb.valid() {
                lemma_idx_bounds(nb);
            }
        }
    }
}

impl Grid {
    /// Least entering costs from `start` over the four-neighborhood of the
    /// board, with the neighbor each cell is best reached from.
    fn dijkstra(&self, start: &Pos, upper: i64, c: i64) -> (r: (Vec2d<i64>, Vec2d<Option<Pos>>))
        requires
            self.tables_ok(),
            start.valid(),
            0 <= c <= MAX_C,
        ensures
            shortest_tree(self, c as int, *start, r.0@, r.1@),
    {
        broadcast use vstd::multiset::group_multiset_axioms;
        let mut dist = Vec2d::new(N, N, INF);
        let mut par: Vec2d<Option<Pos>> = Vec2d::new(N, N, None);
        let mut heap = MinHeap::new();
        proof {
            lemma_idx_bounds(*start);
        }
        dist.set(start, 0);
        heap.push((0, start.y, start.x));
        let ghost mut stamp: Seq<nat> = Seq::new(cell_count() as nat, |i: int| 0nat);
        let ghost mut cnt: nat = 1;
        proof {
            assert forall|q: Pos| q.valid() implies #[trigger] queued_or_settled(
                self,
                c as int,
                heap@,
                dist@,
                q,
            ) by {
                lemma_idx_bounds(q);
                if q.idx() != start.idx() {
                    lemma_inf_relaxed(self, c as int, dist@, q);
                } else {
                    lemma_idx_injective(q, *start);
                    assert(heap@.count((0i64, start.y, start.x)) > 0);
                }
            }
            assert forall|v: Pos| v.valid() && v != start && dist@[v.idx()] < INF implies (
            #[trigger] par@[v.idx()]) is Some by {
                lemma_idx_bounds(v);
                if v.idx() == start.idx() {
                    lemma_idx_injective(v, *start);
                }
            }
            assert forall|v: Pos| v.valid() implies #[trigger] parent_le(self, c as int, dist@, par@, v) by {
                lemma_idx_bounds(v);
            }
            assert forall|v: Pos| v.valid() implies #[trigger] parent_ranked(dist@, par@, stamp, v) by {
                lemma_idx_bounds(v);
            }
        }
        loop
            invariant
                heap.wf(),
                search_inv(self, c as int, *start, heap@, dist@, par@, stamp, cnt),
                forall|q: Pos| q.valid() ==> #[trigger] queued_or_settled(self, c as int, heap@, dist@, q),
            ensures
                search_inv(self, c as int, *start, heap@, dist@, par@, stamp, cnt),
                forall|q: Pos| q.valid() ==> #[trigger] relaxed(self, c as int, dist@, q),
            decreases total(dist@), heap@.len(),
        {
            let ghost dist0 = dist@;
            let ghost heap0 = heap@;
            let top = heap.pop();
            let (d, py, px) = match top {
                Some(e) => e,
                None => {
                    proof {
                        assert forall|q: Pos| q.valid() implies #[trigger] relaxed(self, c as int, dist@, q) by {
                            assert(queued_or_settled(self, c as int, heap@, dist@, q));
                        }
                    }
                    break;
                },
            };
            let p = Pos { y: py, x: px };
            proof {
                assert(entry_ok(dist@, (d, py, px)));
                lemma_idx_bounds(p);
            }
            if dist.get(&p) < d {
                proof {
                    assert forall|q: Pos| q.valid() implies #[trigger] queued_or_settled(
                        self,
                        c as int,
                        heap@,
                        dist@,
                        q,
                    ) by {
                        assert(queued_or_settled(self, c as int, heap0, dist@, q));
                    }
                    assert forall|e: Entry| #[trigger] heap@.count(e) > 0 implies entry_ok(dist@, e) by {
                        assert(heap0.count(e) > 0);
                    }
                }
                continue;
            }
            proof {
                assert forall|q: Pos| q.valid() && q != p implies #[trigger] queued_or_settled(
                    self,
                    c as int,
                    heap@,
                    dist@,
                    q,
                ) by {
                    assert(queued_or_settled(self, c as int, heap0, dist@, q));
                }
                assert forall|e: Entry| #[trigger] heap@.count(e) > 0 implies entry_ok(dist@, e) by {
                    assert(heap0.count(e) > 0);
                }
                lemma_total_nonneg(dist@);
            }
            let mut dir: usize = 0;
            while dir < 4
                invariant
                    p.valid(),
                    dir <= 4,
                    heap.wf(),
                    search_inv(self, c as int, *start, heap@, dist@, par@, stamp, cnt),
                    dist@[p.idx()] == d,
                    forall|q: Pos|
                        q.valid() && q != p ==> #[trigger] queued_or_settled(self, c as int, heap@, dist@, q),
                    forall|k: int| 0 <= k < dir ==> #[trigger] relaxed_dir(self, c as int, dist@, p, k),
                    total(dist@) <= total(dist0),
                    total(dist@) < total(dist0) || heap@.len() == heap0.len() - 1,
                decreases 4 - dir,
            {
                let np = step(&p, dir);
                if !np.is_valid() {
                    dir = dir + 1;
                    continue;
                }
                proof {
                    lemma_idx_bounds(np);
                    lemma_step_cost_bounds(self, c as int, np);
                }
                let w = if self.is_used.get(&np) {
                    0
                } else {
                    self.estimated_weight.get(&np) + 2 * c
                };
                if dist.get(&np) <= d + w {
                    dir = dir + 1;
                    continue;
                }
                proof {
                    lemma_relax_step(self, c as int, *start, p, np, dir as int, heap@, dist@, par@,
                        stamp, cnt);
                }
                par.set(&np, Some(p));
                dist.set(&np, d + w);
                heap.push((d + w, np.y, np.x));
                proof {
                    stamp = stamp.update(np.idx(), cnt);
                    cnt = cnt + 1;
                }
                dir = dir + 1;
            }
            proof {
                assert forall|q: Pos| q.valid() implies #[trigger] queued_or_settled(
                    self,
                    c as int,
                    heap@,
                    dist@,
                    q,
                ) by {
                    if q == p {
                        assert(relaxed_dir(self, c as int, dist@, p, 0));
                        assert(relaxed_dir(self, c as int, dist@, p, 1));
                        assert(relaxed_dir(self, c as int, dist@, p, 2));
                        assert(relaxed_dir(self, c as int, dist@, p, 3));
                    }
                }
                lemma_total_nonneg(dist@);
            }
        }
        proof {
            assert forall|q: Pos| q.valid() implies 0 <= #[trigger] dist@[q.idx()] <= INF by {
                lemma_idx_bounds(q);
            }
            assert forall|v: Pos| v.valid() implies #[trigger] parent_ok(self, c as int, dist@, par@, v) by {
                assert(parent_le(self, c as int, dist@, par@, v));
                if let Some(q) = par@[v.idx()] {
                    let k = lemma_adjacent_dir(q, v);
                    assert(relaxed(self, c as int, dist@, q));
                    assert(relaxed_dir(self, c as int, dist@, q, k));
                }
            }
            assert(stamp.len() == cell_count() && forall|v: Pos|
                v.valid() ==> #[trigger] parent_ranked(dist@, par@, stamp, v));
        }
        (dist, par)
    }
}

/// A sequence of board cells in which each cell shares a side with the next.
pub open spec fn is_walk(w: Seq<Pos>) -> bool {
    &&& w.len() >= 1
    &&& forall|k: int| 0 <= k < w.len() ==> (#[trigger] w[k]).valid()
    &&& forall|k: int| 0 <= k < w.len() - 1 ==> adjacent(#[trigger] w[k], w[k + 1])
}

/// Total cost of entering every cell of `w` after the first.
pub open spec fn walk_cost(g: &Grid, c: int, w: Seq<Pos>) -> int
    decreases w.len(),
{
    if w.len() <= 1 {
        0
    } else {
        g.step_cost(c, w[1]) + walk_cost(g, c, w.drop_first())
    }
}

/// `(dist, stamp)` of `a` is strictly below that of `b`.
pub open spec fn rank_lt(dist: Seq<i64>, stamp: Seq<nat>, a: Pos, b: Pos) -> bool {
    ||| dist[a.idx()] < dist[b.idx()]
    ||| (dist[a.idx()] == dist[b.idx()] && stamp[a.idx()] < stamp[b.idx()])
}

/// Relaxed distances never exceed the cost of a walk: the distance of the
/// walk's last cell is at most that of its first cell plus the walk's cost.
pub proof fn lemma_walk_lower_bound(g: &Grid, c: int, dist: Seq<i64>, w: Seq<Pos>)
    requires
        is_walk(w),
        dist.len() == cell_count(),
        forall|q: Pos| q.valid() ==> #[trigger] relaxed(g, c, dist, q),
    ensures
        dist[w.last().idx()] <= dist[w[0].idx()] + walk_cost(g, c, w),
    decreases w.len(),
{
    if w.len() > 1 {
        let t = w.drop_first();
        assert(w[0].valid());
        assert(w[1].valid());
        assert(adjacent(w[0], w[1]));
        assert forall|k: int| 0 <= k < t.len() - 1 implies adjacent(#[trigger] t[k], t[k + 1]) by {
            assert(adjacent(w[k + 1], w[k + 2]));
        }
        lemma_walk_lower_bound(g, c, dist, t);
        let dir = lemma_adjacent_dir(w[0], w[1]);
        assert(relaxed(g, c, dist, w[0]));
        assert(relaxed_dir(g, c, dist, w[0], dir));
    }
}

/// On a relaxed table every cell lies within the Manhattan distance from
/// the root times the largest entering cost.
pub proof fn lemma_dist_bounded(g: &Grid, c: int, start: Pos, dist: Seq<i64>, v: Pos)
    requires
        g.tables_ok(),
        0 <= c <= MAX_C,
        start.valid(),
        v.valid(),
        dist.len() == cell_count(),
        dist[start.idx()] == 0,
        forall|q: Pos| q.valid() ==> #[trigger] relaxed(g, c, dist, q),
    ensures
        dist[v.idx()] <= manhattan(start, v) * (MAX_WEIGHT + 2 * MAX_C),
    decreases manhattan(start, v),
{
    if v != start {
        let u = if v.y > start.y {
            Pos { y: (v.y - 1) as i64, x: v.x }
        } else if v.y < start.y {
            Pos { y: (v.y + 1) as i64, x: v.x }
        } else if v.x > start.x {
            Pos { y: v.y, x: (v.x - 1) as i64 }
        } else {
            Pos { y: v.y, x: (v.x + 1) as i64 }
        };
        let m = manhattan(start, v);
        assert(u.valid());
        assert(manhattan(start, u) == m - 1);
        lemma_dist_bounded(g, c, start, dist, u);
        let dir = lemma_adjacent_dir(u, v);
        assert(relaxed(g, c, dist, u));
        assert(relaxed_dir(g, c, dist, u, dir));
        lemma_step_cost_bounds(g, c, v);
        assert((m - 1) * (MAX_WEIGHT + 2 * MAX_C) + (MAX_WEIGHT + 2 * MAX_C) == m * (MAX_WEIGHT + 2
            * MAX_C)) by (nonlinear_arith);
    }
}

proof fn lemma_rank_trans(dist: Seq<i64>, stamp: Seq<nat>, a: Pos, b: Pos, x: Pos)
    requires
        rank_lt(dist, stamp, a, b),
        rank_lt(dist, stamp, b, x),
    ensures
        rank_lt(dist, stamp, a, x),
{
}

impl Grid {
    /// A cheapest walk from `start` to one of the given sources, where
    /// entering a cell costs `step_cost`, together with its cost.  Among
    /// sources at equal cost the one listed first is taken.
    pub fn find_path_to_nearest_source(
        &self,
        start: &Pos,
        upper: i64,
        source: &Vec<Pos>,
        c: i64,
    ) -> (r: (Vec<Pos>, i64))
        requires
            self.tables_ok(),
            start.valid(),
            source@.len() > 0,
            forall|i: int| 0 <= i < source@.len() ==> (#[trigger] source@[i]).valid(),
            0 <= c <= MAX_C,
        ensures
            is_walk(r.0@),
            r.0@[0] == *start,
            source@.contains(r.0@.last()),
            r.0@.no_duplicates(),
            r.1 == walk_cost(self, c as int, r.0@),
            forall|w: Seq<Pos>|
                #[trigger] is_walk(w) && w[0] == *start && source@.contains(w.last()) ==> r.1
                    <= walk_cost(self, c as int, w),
            exists|b: int|
                0 <= b < source@.len() && source@[b] == r.0@.last() && forall|j: int, w: Seq<Pos>|
                    0 <= j < b && #[trigger] is_walk(w) && w[0] == *start && w.last() == #[trigger] source@[j]
                        ==> r.1 < walk_cost(self, c as int, w),
    {
        let (dist, par) = self.dijkstra(start, upper, c);
        let ghost g = self;
        let ghost d = dist@;
        let mut best: usize = 0;
        let mut i: usize = 0;
        proof {
            lemma_idx_bounds(source@[0]);
        }
        while i < source.len()
            invariant
                dist@ == d,
                shortest_tree(self, c as int, *start, d, par@),
                0 < source@.len(),
                forall|i: int| 0 <= i < source@.len() ==> (#[trigger] source@[i]).valid(),
                i <= source@.len(),
                best < source@.len(),
                forall|j: int| 0 <= j < i ==> d[source@[best as int].idx()] <= d[(#[trigger] source@[j]).idx()],
                best <= i,
                forall|j: int| 0 <= j < best ==> d[source@[best as int].idx()] < d[(#[trigger] source@[j]).idx()],
            decreases source@.len() - i,
        {
            proof {
                lemma_idx_bounds(source@[i as int]);
                lemma_idx_bounds(source@[best as int]);
            }
            if dist.get(&source[i]) < dist.get(&source[best]) {
                best = i;
            }
            i = i + 1;
        }
        let best_pos = source[best];
        proof {
            lemma_dist_bounded(self, c as int, *start, d, best_pos);
            lemma_idx_bounds(best_pos);
            lemma_idx_bounds(*start);
            let m = manhattan(*start, best_pos);
            assert(0 <= m <= 398);
            assert(m * (MAX_WEIGHT + 2 * MAX_C) <= 398 * (MAX_WEIGHT + 2 * MAX_C)) by (nonlinear_arith)
                requires
                    0 <= m <= 398,
            ;
        }
        let ghost stamp = choose|stamp: Seq<nat>|
            stamp.len() == cell_count() && forall|v: Pos|
                v.valid() ==> #[trigger] parent_ranked(d, par@, stamp, v);
        let mut cur = best_pos;
        let mut path: Vec<Pos> = Vec::new();
        path.push(cur);
        let ghost mut rp: Seq<Pos> = seq![cur];
        while cur != *start
            invariant
                dist@ == d,
                self.tables_ok(),
                0 <= c <= MAX_C,
                shortest_tree(self, c as int, *start, d, par@),
                stamp.len() == cell_count(),
                forall|v: Pos| v.valid() ==> #[trigger] parent_ranked(d, par@, stamp, v),
                best_pos.valid(),
                d[best_pos.idx()] < INF,
                cur.valid(),
                rp == path@.reverse(),
                rp.len() >= 1,
                rp[0] == cur,
                rp.last() == best_pos,
                is_walk(rp),
                forall|j: int, k: int| 0 <= j < k < rp.len() ==> rank_lt(d, stamp, #[trigger] rp[j], #[trigger] rp[k]),
                d[best_pos.idx()] == d[cur.idx()] + walk_cost(self, c as int, rp),
            decreases d[cur.idx()], stamp[cur.idx()],
        {
            proof {
                lemma_idx_bounds(cur);
                assert(d[cur.idx()] <= d[best_pos.idx()]) by {
                    assert(walk_cost(self, c as int, rp) >= 0) by {
                        lemma_walk_cost_nonneg(self, c as int, rp);
                    }
                }
                assert(par@[cur.idx()] is Some);
                assert(parent_ok(self, c as int, d, par@, cur));
                assert(parent_ranked(d, par@, stamp, cur));
            }
            let parent = par.get(&cur).unwrap();
            let ghost old_path = path@;
            let ghost old_rp = rp;
            path.push(parent);
            proof {
                lemma_idx_bounds(parent);
                rp = seq![parent] + old_rp;
                assert(rp =~= path@.reverse());
                assert(rp.drop_first() =~= old_rp);
                assert forall|k: int| 0 <= k < rp.len() implies (#[trigger] rp[k]).valid() by {
                    if k > 0 {
                        assert(old_rp[k - 1].valid());
                    }
                }
                assert forall|k: int| 0 <= k < rp.len() - 1 implies adjacent(#[trigger] rp[k], rp[k + 1]) by {
                    if k > 0 {
                        assert(adjacent(old_rp[k - 1], old_rp[k]));
                    }
                }
                assert forall|j: int, k: int| 0 <= j < k < rp.len() implies rank_lt(
                    d,
                    stamp,
                    #[trigger] rp[j],
                    #[trigger] rp[k],
                ) by {
                    if j == 0 {
                        if k > 1 {
                            assert(rank_lt(d, stamp, old_rp[0], old_rp[k - 1]));
                            lemma_rank_trans(d, stamp, parent, cur, old_rp[k - 1]);
                        }
                    } else {
                        assert(rank_lt(d, stamp, old_rp[j - 1], old_rp[k - 1]));
                    }
                }
            }
            cur = parent;
        }
        let mut res: Vec<Pos> = Vec::new();
        let mut k = path.len();
        while k > 0
            invariant
                k <= path@.len(),
                res@.len() == path@.len() - k,
                forall|j: int| 0 <= j < res@.len() ==> res@[j] == path@[path@.len() - 1 - j],
            decreases k,
        {
            k = k - 1;
            res.push(path[k]);
        }
        proof {
            assert(res@ =~= rp);
            assert(rp.no_duplicates()) by {
                assert forall|j: int, k: int| 0 <= j < rp.len() && 0 <= k < rp.len() && j != k implies rp[j]
                    != rp[k] by {
                    if j < k {
                        assert(rank_lt(d, stamp, rp[j], rp[k]));
                    } else {
                        assert(rank_lt(d, stamp, rp[k], rp[j]));
                    }
                }
            }
            assert(source@.contains(best_pos)) by {
                assert(source@[best as int] == best_pos);
            }
            assert forall|w: Seq<Pos>|
                #[trigger] is_walk(w) && w[0] == *start && source@.contains(w.last()) implies d[best_pos.idx()]
                    <= walk_cost(self, c as int, w) by {
                lemma_walk_lower_bound(self, c as int, d, w);
                let j = choose|j: int| 0 <= j < source@.len() && source@[j] == w.last();
                assert(d[best_pos.idx()] <= d[source@[j].idx()]);
            }
            assert forall|j: int, w: Seq<Pos>|
                0 <= j < best && #[trigger] is_walk(w) && w[0] == *start && w.last() == #[trigger] source@[j]
                    implies d[best_pos.idx()] < walk_cost(self, c as int, w) by {
                lemma_walk_lower_bound(self, c as int, d, w);
                assert(d[best_pos.idx()] < d[source@[j].idx()]);
            }
            assert(res@.last() == source@[best as int]);
        }
        (res, dist.get(&best_pos))
    }
}

/// A walk over board cells costs nothing or more.
pub proof fn lemma_walk_cost_nonneg(g: &Grid, c: int, w: Seq<Pos>)
    requires
        g.tables_ok(),
        0 <= c <= MAX_C,
        forall|k: int| 0 <= k < w.len() ==> (#[trigger] w[k]).valid(),
    ensures
        walk_cost(g, c, w) >= 0,
    decreases w.len(),
{
    if w.len() > 1 {
        lemma_step_cost_bounds(g, c, w[1]);
        let t = w.drop_first();
        assert forall|k: int| 0 <= k < t.len() implies (#[trigger] t[k]).valid() by {
            assert(w[k + 1].valid());
        }
        lemma_walk_cost_nonneg(g, c, t);
    }
}

/// Largest total of the weights of all cells of the board.
pub open spec fn weight_span() -> int {
    cell_count() * MAX_WEIGHT
}

/// Sum of the weights of the used cells among the first `k` cells.
pub open spec fn used_sum(used: Seq<bool>, w: Seq<i64>, k: int) -> int
    decreases k,
{
    if k <= 0 {
        0
    } else {
        used_sum(used, w, k - 1) + if used[k - 1] {
            w[k - 1] as int
        } else {
            0
        }
    }
}

/// Marking one cell changes the used weight by that cell's weight.
pub proof fn lemma_used_sum_update(used: Seq<bool>, w: Seq<i64>, k: int, i: int, b: bool)
    requires
        0 <= i < used.len(),
        k <= used.len(),
    ensures
        used_sum(used.update(i, b), w, k) == used_sum(used, w, k) + if i < k {
            (if b {
                w[i] as int
            } else {
                0
            }) - (if used[i] {
                w[i] as int
            } else {
                0
            })
        } else {
            0
        },
    decreases k,
{
    if k > 0 {
        lemma_used_sum_update(used, w, k - 1, i, b);
    }
}

/// The used weight of the first `k` cells lies in `0 ..= k * MAX_WEIGHT`.
pub proof fn lemma_used_sum_bounds(used: Seq<bool>, w: Seq<i64>, k: int)
    requires
        0 <= k <= w.len(),
        forall|i: int| 0 <= i < w.len() ==> 0 <= #[trigger] w[i] <= MAX_WEIGHT,
    ensures
        0 <= used_sum(used, w, k) <= k * MAX_WEIGHT,
    decreases k,
{
    if k > 0 {
        lemma_used_sum_bounds(used, w, k - 1);
    }
}

/// Number of `true` entries.
pub open spec fn count_true(s: Seq<bool>) -> int
    decreases s.len(),
{
    if s.len() == 0 {
        0
    } else {
        count_true(s.drop_last()) + if s.last() {
            1int
        } else {
            0
        }
    }
}

/// Marking one cell changes the count of marks by at most one.
pub proof fn lemma_count_true_update(s: Seq<bool>, i: int, b: bool)
    requires
        0 <= i < s.len(),
    ensures
        count_true(s.update(i, b)) == count_true(s) + (if b {
            1int
        } else {
            0
        }) - (if s[i] {
            1int
        } else {
            0
        }),
    decreases s.len(),
{
    if i < s.len() - 1 {
        lemma_count_true_update(s.drop_last(), i, b);
        assert(s.update(i, b).drop_last() =~= s.drop_last().update(i, b));
    } else {
        assert(s.update(i, b).drop_last() =~= s.drop_last());
    }
}

/// The count of marks lies between zero and the length.
pub proof fn lemma_count_true_bounds(s: Seq<bool>)
    ensures
        0 <= count_true(s) <= s.len(),
    decreases s.len(),
{
    if s.len() > 0 {
        lemma_count_true_bounds(s.drop_last());
    }
}

/// Sum of the estimated weights of the cells of `w`.
pub open spec fn weight_sum(g: &Grid, w: Seq<Pos>) -> int
    decreases w.len(),
{
    if w.len() == 0 {
        0
    } else {
        weight_sum(g, w.drop_last()) + g.estimated_weight.at(w.last())
    }
}

/// The weight of a walk is the estimated weight of its first cell plus the
/// weight of the rest, and a walk of no cells weighs nothing: the weight a
/// route is reported with (`find_current_path_to_source`) is the sum of the
/// estimated weights of all its cells, each counted once.
pub proof fn law_weight_sum_cons(g: &Grid, a: Pos, t: Seq<Pos>)
    ensures
        weight_sum(g, Seq::<Pos>::empty()) == 0,
        weight_sum(g, seq![a]) == g.estimated_weight.at(a),
        weight_sum(g, seq![a] + t) == g.estimated_weight.at(a) + weight_sum(g, t),
    decreases t.len(),
{
    assert(seq![a].drop_last() =~= Seq::<Pos>::empty());
    if t.len() == 0 {
        assert(seq![a] + t =~= seq![a]);
    } else {
        law_weight_sum_cons(g, a, t.drop_last());
        assert((seq![a] + t).drop_last() =~= seq![a] + t.drop_last());
        assert((seq![a] + t).last() == t.last());
    }
}

impl Grid {
    /// Sum of the weights of the cells the plan uses.
    pub open spec fn used_total(&self) -> int {
        used_sum(self.is_used@, self.estimated_weight@, cell_count())
    }

    /// The tables cover the board, houses and sources lie on it, and the
    /// score differs from the used weight by the fixed amount it started with.
    pub open spec fn wf(&self) -> bool {
        &&& self.tables_ok()
        &&& forall|i: int| 0 <= i < self.house@.len() ==> (#[trigger] self.house@[i]).valid()
        &&& forall|i: int| 0 <= i < self.source@.len() ==> (#[trigger] self.source@[i]).valid()
        &&& 0 <= self.used_total() - self.total_score <= weight_span()
    }

    /// The cell may carry water: the plan uses it or it is a source.
    pub open spec fn usable(&self, p: Pos) -> bool {
        self.is_used.at(p) || self.source@.contains(p)
    }

    /// `r` leads from its first cell through usable cells, each at most
    /// once, to a source, and passes no other source on the way.
    pub open spec fn is_route(&self, r: Seq<Pos>) -> bool {
        &&& is_walk(r)
        &&& r.no_duplicates()
        &&& self.source@.contains(r.last())
        &&& forall|k: int| 1 <= k < r.len() ==> self.usable(#[trigger] r[k])
        &&& forall|k: int| 0 <= k < r.len() - 1 ==> !self.source@.contains(#[trigger] r[k])
    }

    /// Water reaches `start` through the cells of the plan.
    pub open spec fn connected(&self, start: Pos) -> bool {
        exists|r: Seq<Pos>| #[trigger] self.is_route(r) && r[0] == start
    }

    /// How `set` changes the grid.
    pub open spec fn set_relation(old: &Grid, new: &Grid, p: Pos, v: bool) -> bool {
        &&& new.is_used@ == old.is_used@.update(p.idx(), v)
        &&& new.estimated_weight@ == old.estimated_weight@
        &&& new.house@ == old.house@
        &&& new.source@ == old.source@
        &&& new.total_score == old.total_score + if old.is_used.at(p) == v {
            0
        } else if v {
            old.estimated_weight.at(p) as int
        } else {
            -old.estimated_weight.at(p)
        }
    }

    /// The score after setting cell `p` to `v` fits in an `i64`.
    pub open spec fn set_fits(&self, p: Pos, v: bool) -> bool {
        self.is_used.at(p) != v ==> i64::MIN <= self.total_score + if v {
            self.estimated_weight.at(p) as int
        } else {
            -self.estimated_weight.at(p)
        } <= i64::MAX
    }

    /// Marks cell `p` used or unused, keeping the score equal to the used
    /// weight up to its fixed offset; tells whether anything changed.
    pub fn set(&mut self, p: &Pos, v: bool) -> (changed: bool)
        requires
            old(self).tables_ok(),
            p.valid(),
            old(self).set_fits(*p, v),
        ensures
            final(self).tables_ok(),
            old(self).wf() ==> final(self).wf(),
            changed == (old(self).is_used.at(*p) != v),
            Grid::set_relation(old(self), final(self), *p, v),
            final(self).used_total() - final(self).total_score == old(self).used_total() - old(
                self,
            ).total_score,
    {
        proof {
            lemma_idx_bounds(*p);
            lemma_used_sum_update(self.is_used@, self.estimated_weight@, cell_count(), p.idx(), v);
            lemma_used_sum_bounds(self.is_used@, self.estimated_weight@, cell_count());
            lemma_used_sum_bounds(self.is_used@.update(p.idx(), v), self.estimated_weight@, cell_count());
        }
        if self.is_used.get(&p) == v {
            proof {
                assert(self.is_used@.update(p.idx(), v) =~= self.is_used@);
            }
            return false;
        }
        if self.is_used.get(&p) {
            self.total_score -= self.estimated_weight.get(&p);
        } else {
            self.total_score += self.estimated_weight.get(&p);
        }
        self.is_used.set(&p, v);
        return true;
    }
}

/// A well-formed grid can set any cell: the score stays within an `i64`.
pub proof fn lemma_set_fits(grid: &Grid, p: Pos, v: bool)
    requires
        grid.wf(),
        p.valid(),
    ensures
        grid.set_fits(p, v),
{
    lemma_idx_bounds(p);
    lemma_used_sum_bounds(grid.is_used@, grid.estimated_weight@, cell_count());
    assert(0 <= grid.estimated_weight.at(p) <= MAX_WEIGHT);
}

/// Setting a cell and then setting it back to what it was restores the
/// plan and its score.
pub proof fn law_set_then_restore(g0: &Grid, g1: &Grid, g2: &Grid, p: Pos, v: bool)
    requires
        p.valid(),
        g0.is_used@.len() == cell_count(),
        Grid::set_relation(g0, g1, p, v),
        Grid::set_relation(g1, g2, p, g0.is_used.at(p)),
    ensures
        g2.is_used@ == g0.is_used@,
        g2.total_score == g0.total_score,
        g2.estimated_weight@ == g0.estimated_weight@,
{
    lemma_idx_bounds(p);
    assert(g2.is_used@ =~= g0.is_used@);
}

/// Whether `p` occurs in `v`.
pub fn contains_pos(v: &Vec<Pos>, p: &Pos) -> (b: bool)
    ensures
        b == v@.contains(*p),
{
    let mut i: usize = 0;
    while i < v.len()
        invariant
            i <= v@.len(),
            forall|j: int| 0 <= j < i ==> v@[j] != *p,
        decreases v@.len() - i,
    {
        if v[i] == *p {
            return true;
        }
        i = i + 1;
    }
    false
}

/// No cell of `r` after the first is marked in `seen`.
pub open spec fn avoids(r: Seq<Pos>, seen: Seq<bool>) -> bool {
    forall|k: int| 1 <= k < r.len() ==> !seen[(#[trigger] r[k]).idx()]
}

/// The cells after `p` of the route to a source that the depth-first search
/// from `p` finds, entered from `par`, with the cells marked in `seen`
/// already taken: `p` itself when it is a source, else the first success
/// among its neighbours up, down, left, right (see `dfs_dirs`).
#[verifier::opaque]
pub open spec fn dfs_from(g: &Grid, p: Pos, par: Pos, seen: Seq<bool>) -> Option<Seq<Pos>>
    decreases seen.len() - count_true(seen), 5int,
{
    if seen.len() != cell_count() {
        None
    } else if g.source@.contains(p) {
        Some(seq![])
    } else {
        dfs_dirs(g, p, par, seen, 0)
    }
}

/// The search from `p` over the directions from `dir` on: a neighbour off
/// the board, equal to `par`, not usable or already taken is skipped;
/// otherwise it is taken and searched from, and on failure released again.
#[verifier::opaque]
pub open spec fn dfs_dirs(g: &Grid, p: Pos, par: Pos, seen: Seq<bool>, dir: int) -> Option<Seq<Pos>>
    decreases seen.len() - count_true(seen), 4 - dir,
{
    if dir < 0 || dir >= 4 || seen.len() != cell_count() {
        None
    } else {
        let np = neighbor(p, dir);
        if !np.valid() || par == np || !(g.is_used.at(np) || g.source@.contains(np)) || seen[np.idx()] {
            dfs_dirs(g, p, par, seen, dir + 1)
        } else {
            proof {
                lemma_idx_bounds(np);
                lemma_count_true_update(seen, np.idx(), true);
                lemma_count_true_bounds(seen.update(np.idx(), true));
            }
            match dfs_from(g, np, p, seen.update(np.idx(), true)) {
                Some(t) => Some(seq![np] + t),
                None => dfs_dirs(g, p, par, seen, dir + 1),
            }
        }
    }
}

/// One step of `dfs_from`: a source ends the search, any other cell goes
/// on with its neighbours.
proof fn lemma_dfs_from_unfold(g: &Grid, p: Pos, par: Pos, seen: Seq<bool>)
    requires
        seen.len() == cell_count(),
    ensures
        g.source@.contains(p) ==> dfs_from(g, p, par, seen) == Some(Seq::<Pos>::empty()),
        !g.source@.contains(p) ==> dfs_from(g, p, par, seen) == dfs_dirs(g, p, par, seen, 0),
{
    reveal(dfs_from);
    reveal(dfs_dirs);
}

/// One step of `dfs_dirs` in direction `dir`.
proof fn lemma_dfs_dirs_unfold(g: &Grid, p: Pos, par: Pos, seen: Seq<bool>, dir: int)
    requires
        seen.len() == cell_count(),
    ensures
        !(0 <= dir < 4) ==> dfs_dirs(g, p, par, seen, dir) is None,
        0 <= dir < 4 ==> {
            let np = neighbor(p, dir);
            &&& (!np.valid() || par == np || !(g.is_used.at(np) || g.source@.contains(np)) || seen[np.idx()])
                ==> dfs_dirs(g, p, par, seen, dir) == dfs_dirs(g, p, par, seen, dir + 1)
            &&& !(!np.valid() || par == np || !(g.is_used.at(np) || g.source@.contains(np)) || seen[np.idx()])
                ==> dfs_dirs(g, p, par, seen, dir) == match dfs_from(g, np, p, seen.update(np.idx(), true)) {
                Some(t) => Some(seq![np] + t),
                None => dfs_dirs(g, p, par, seen, dir + 1),
            }
        },
{
    reveal(dfs_from);
    reveal(dfs_dirs);
}

/// Depth-first search from `p` for a route to a source through unseen
/// usable cells.  On success the route's cells after `p` are appended to
/// `st`; on failure `st` and `seen` are left as they were.
fn dfs(p: &Pos, par: &Pos, st: &mut Vec<Pos>, seen: &mut Vec2d<bool>, grid: &Grid) -> (found: bool)
    requires
        grid.wf(),
        p.valid(),
        old(seen).covers_board(),
        old(seen).at(*p),
        !par.valid() || old(seen).at(*par),
        old(st)@.len() >= 1,
        old(st)@.last() == *p,
    ensures
        final(seen).covers_board(),
        found ==> {
            let tail = final(st)@.subrange(old(st)@.len() as int, final(st)@.len() as int);
            &&& final(st)@.len() >= old(st)@.len()
            &&& final(st)@.subrange(0, old(st)@.len() as int) == old(st)@
            &&& grid.is_route(seq![*p] + tail)
            &&& avoids(seq![*p] + tail, old(seen)@)
            &&& count_true(final(seen)@) - count_true(old(seen)@) == tail.len()
        },
        !found ==> final(st)@ == old(st)@ && final(seen)@ == old(seen)@,
        !found ==> forall|r: Seq<Pos>|
            #[trigger] grid.is_route(r) && r[0] == *p ==> !avoids(r, old(seen)@),
        found == dfs_from(grid, *p, *par, old(seen)@) is Some,
        found ==> final(st)@.subrange(old(st)@.len() as int, final(st)@.len() as int) == dfs_from(
            grid,
            *p,
            *par,
            old(seen)@,
        ).unwrap(),
    decreases cell_count() - count_true(old(seen)@),
{
    proof {
        lemma_count_true_bounds(seen@);
    }
    if contains_pos(&grid.source, p) {
        proof {
            lemma_dfs_from_unfold(grid, *p, *par, seen@);
            assert(dfs_from(grid, *p, *par, seen@) == Some(Seq::<Pos>::empty()));
            let tail = st@.subrange(st@.len() as int, st@.len() as int);
            assert(seq![*p] + tail =~= seq![*p]);
            assert(st@.subrange(0, st@.len() as int) =~= st@);
        }
        return true;
    }
    let ghost st0 = st@;
    let ghost seen0 = seen@;
    proof {
        lemma_dfs_from_unfold(grid, *p, *par, seen0);
    }
    let mut dir: usize = 0;
    while dir < 4
        invariant
            grid.wf(),
            p.valid(),
            !grid.source@.contains(*p),
            seen0.len() == cell_count(),
            seen0[p.idx()],
            !par.valid() || seen0[par.idx()],
            st0.len() >= 1,
            st0.last() == *p,
            st@ == st0,
            seen@ == seen0,
            st0 == old(st)@,
            seen0 == old(seen)@,
            dir <= 4,
            forall|r: Seq<Pos>, k: int|
                0 <= k < dir && #[trigger] grid.is_route(r) && r[0] == *p && r.len() >= 2 && r[1]
                    == #[trigger] neighbor(*p, k) ==> !avoids(r, seen0),
            dfs_from(grid, *p, *par, seen0) == dfs_dirs(grid, *p, *par, seen0, dir as int),
        decreases 4 - dir,
    {
        let np = step(p, dir);
        proof {
            lemma_dfs_dirs_unfold(grid, *p, *par, seen0, dir as int);
        }
        if !np.is_valid() || *par == np {
            proof {
                assert(dfs_dirs(grid, *p, *par, seen0, dir as int) == dfs_dirs(grid, *p, *par, seen0, dir + 1));
                assert forall|r: Seq<Pos>, k: int|
                    0 <= k < dir + 1 && #[trigger] grid.is_route(r) && r[0] == *p && r.len() >= 2
                        && r[1] == #[trigger] neighbor(*p, k) implies !avoids(r, seen0) by {
                    if k == dir {
                        assert(r[1].valid());
                        if avoids(r, seen0) {
                            assert(!seen0[r[1].idx()]);
                        }
                    }
                }
            }
            dir = dir + 1;
            continue;
        }
        proof {
            lemma_idx_bounds(np);
        }
        let is_not_used = !grid.is_used.get(&np) && !contains_pos(&grid.source, &np);
        if is_not_used || seen.get(&np) {
            proof {
                assert(dfs_dirs(grid, *p, *par, seen0, dir as int) == dfs_dirs(grid, *p, *par, seen0, dir + 1));
                assert forall|r: Seq<Pos>, k: int|
                    0 <= k < dir + 1 && #[trigger] grid.is_route(r) && r[0] == *p && r.len() >= 2
                        && r[1] == #[trigger] neighbor(*p, k) implies !avoids(r, seen0) by {
                    if k == dir {
                        assert(grid.usable(r[1]));
                        if avoids(r, seen0) {
                            assert(!seen0[r[1].idx()]);
                        }
                    }
                }
            }
            dir = dir + 1;
            continue;
        }
        st.push(np);
        seen.set(&np, true);
        proof {
            lemma_count_true_update(seen0, np.idx(), true);
            lemma_count_true_bounds(seen@);
            assert(count_true(seen@) == count_true(seen0) + 1);
            assert(cell_count() - count_true(seen@) < cell_count() - count_true(old(seen)@));
        }
        let ghost st1 = st@;
        let ghost seen1 = seen@;
        proof {
            assert(seen1 == seen0.update(np.idx(), true));
        }
        if dfs(&np, p, st, seen, grid) {
            proof {
                let t1 = st@.subrange(st1.len() as int, st@.len() as int);
                assert(dfs_from(grid, np, *p, seen1) == Some(t1));
                assert(dfs_dirs(grid, *p, *par, seen0, dir as int) == Some(seq![np] + t1));
                let tail1 = st@.subrange(st1.len() as int, st@.len() as int);
                let inner = seq![np] + tail1;
                let tail = st@.subrange(st0.len() as int, st@.len() as int);
                assert(st@[st0.len() as int] == np) by {
                    assert(st@.subrange(0, st1.len() as int)[st0.len() as int] == st1[st0.len() as int]);
                }
                assert(tail =~= inner);
                let r = seq![*p] + tail;
                assert(st@.subrange(0, st0.len() as int) =~= st0) by {
                    assert(st@.subrange(0, st1.len() as int) =~= st1);
                }
                assert(r.drop_first() =~= inner);
                assert forall|k: int| 0 <= k < r.len() implies (#[trigger] r[k]).valid() by {
                    if k > 0 {
                        assert(inner[k - 1].valid());
                    }
                }
                assert forall|k: int| 0 <= k < r.len() - 1 implies adjacent(#[trigger] r[k], r[k + 1]) by {
                    if k > 0 {
                        assert(adjacent(inner[k - 1], inner[k]));
                    }
                }
                assert forall|k: int| 1 <= k < r.len() implies !seen0[(#[trigger] r[k]).idx()] by {
                    if k > 1 {
                        assert(!seen1[inner[k - 1].idx()]);
                        lemma_idx_bounds(inner[k - 1]);
                        if inner[k - 1].idx() == np.idx() {
                            lemma_idx_injective(inner[k - 1], np);
                        }
                    }
                }
                assert(r.no_duplicates()) by {
                    assert forall|a: int, b: int| 0 <= a < b < r.len() implies r[a] != r[b] by {
                        if a == 0 {
                            if b > 1 {
                                assert(!seen1[inner[b - 1].idx()]);
                                assert(seen1[p.idx()]);
                            }
                        } else {
                            assert(inner[a - 1] != inner[b - 1]);
                        }
                    }
                }
                assert forall|k: int| 1 <= k < r.len() implies grid.usable(#[trigger] r[k]) by {
                    if k > 1 {
                        assert(grid.usable(inner[k - 1]));
                    }
                }
                assert forall|k: int| 0 <= k < r.len() - 1 implies !grid.source@.contains(#[trigger] r[k]) by {
                    if k > 0 {
                        assert(!grid.source@.contains(inner[k - 1]));
                    }
                }
            }
            return true;
        }
        let ghost r_seen = seen@;
        st.pop();
        seen.set(&np, false);
        proof {
            assert(dfs_from(grid, np, *p, seen1) is None);
            assert(dfs_dirs(grid, *p, *par, seen0, dir as int) == dfs_dirs(grid, *p, *par, seen0, dir + 1));
            assert(st@ =~= st0);
            assert(seen@ =~= seen0);
            assert forall|r: Seq<Pos>, k: int|
                0 <= k < dir + 1 && #[trigger] grid.is_route(r) && r[0] == *p && r.len() >= 2
                    && r[1] == #[trigger] neighbor(*p, k) implies !avoids(r, seen0) by {
                if k == dir && avoids(r, seen0) {
                    let t = r.drop_first();
                    assert(t[0] == np);
                    assert forall|j: int| 0 <= j < t.len() implies (#[trigger] t[j]).valid() by {
                        assert(r[j + 1].valid());
                    }
                    assert forall|j: int| 0 <= j < t.len() - 1 implies adjacent(#[trigger] t[j], t[j + 1]) by {
                        assert(adjacent(r[j + 1], r[j + 2]));
                    }
                    assert forall|j: int| 1 <= j < t.len() implies grid.usable(#[trigger] t[j]) by {
                        assert(grid.usable(r[j + 1]));
                    }
                    assert forall|j: int| 0 <= j < t.len() - 1 implies !grid.source@.contains(#[trigger] t[j]) by {
                        assert(!grid.source@.contains(r[j + 1]));
                    }
                    assert(grid.is_route(t));
                    assert forall|j: int| 1 <= j < t.len() implies !seen1[(#[trigger] t[j]).idx()] by {
                        assert(!seen0[r[j + 1].idx()]);
                        assert(r[j + 1] != r[1]);
                        lemma_idx_bounds(t[j]);
                        if t[j].idx() == np.idx() {
                            lemma_idx_injective(t[j], np);
                        }
                    }
                    assert(avoids(t, seen1));
                }
            }
        }
        dir = dir + 1;
    }
    proof {
        lemma_dfs_dirs_unfold(grid, *p, *par, seen0, 4);
        assert(dfs_dirs(grid, *p, *par, seen0, 4) is None);
        assert forall|r: Seq<Pos>| #[trigger] grid.is_route(r) && r[0] == *p implies !avoids(r, seen0) by {
            if r.len() == 1 {
                assert(r.last() == *p);
            } else {
                let k = lemma_adjacent_dir(*p, r[1]);
                assert(grid.is_route(r) && r[0] == *p && r.len() >= 2 && r[1] == neighbor(*p, k));
            }
        }
    }
    false
}

/// The cell off the board that the search from the start came from.
pub open spec fn no_parent() -> Pos {
    Pos { y: -1i64, x: -1i64 }
}

/// The cells taken when the search starts from `start`: only `start`.
pub open spec fn start_seen(start: Pos) -> Seq<bool> {
    Seq::new(cell_count() as nat, |i: int| false).update(start.idx(), true)
}

impl Grid {
    /// The route by which water currently reaches `start`, found by
    /// depth-first search through the used cells, with the sum of the
    /// estimated weights of its cells; `None` when no such route exists.
    /// The route is the first one the search meets, trying the neighbours
    /// up, down, left, right in turn (see `dfs_from`).
    pub fn find_current_path_to_source(&self, start: &Pos) -> (r: Option<(Vec<Pos>, i64)>)
        requires
            self.wf(),
            start.valid(),
        ensures
            r is Some <==> self.connected(*start),
            r is Some <==> dfs_from(self, *start, no_parent(), start_seen(*start)) is Some,
            r matches Some((path, w)) ==> path@ == seq![*start] + dfs_from(
                self,
                *start,
                no_parent(),
                start_seen(*start),
            ).unwrap(),
            r matches Some((path, w)) ==> {
                &&& self.is_route(path@)
                &&& path@[0] == *start
                &&& w == weight_sum(self, path@)
            },
    {
        let mut st: Vec<Pos> = Vec::new();
        st.push(*start);
        let mut seen: Vec2d<bool> = Vec2d::new(N, N, false);
        proof {
            lemma_idx_bounds(*start);
        }
        seen.set(start, true);
        let ghost seen0 = seen@;
        proof {
            assert(Seq::new(cell_count() as nat, |i: int| false).update(start.idx(), true) =~= seen0);
            lemma_count_true_update(Seq::new(cell_count() as nat, |i: int| false), start.idx(), true);
            lemma_count_zero(cell_count() as nat);
        }
        let ghost st0 = st@;
        if dfs(start, &Pos { y: -1, x: -1 }, &mut st, &mut seen, self) {
            let ghost tail = st@.subrange(1, st@.len() as int);
            proof {
                assert(seen0 == start_seen(*start));
                assert(st@ =~= seq![*start] + tail);
                lemma_count_true_bounds(seen@);
            }
            let mut total_weight: i64 = 0;
            let mut i: usize = 0;
            while i < st.len()
                invariant
                    self.wf(),
                    i <= st@.len(),
                    st@.len() <= cell_count(),
                    forall|k: int| 0 <= k < st@.len() ==> (#[trigger] st@[k]).valid(),
                    total_weight == weight_sum(self, st@.subrange(0, i as int)),
                    0 <= total_weight <= i * MAX_WEIGHT,
                decreases st@.len() - i,
            {
                proof {
                    lemma_idx_bounds(st@[i as int]);
                    assert(st@.subrange(0, i + 1).drop_last() =~= st@.subrange(0, i as int));
                }
                total_weight += self.estimated_weight.get(&st[i]);
                i = i + 1;
            }
            proof {
                assert(st@.subrange(0, st@.len() as int) =~= st@);
            }
            Some((st, total_weight))
        } else {
            proof {
                assert forall|r: Seq<Pos>| #[trigger] self.is_route(r) && r[0] == *start implies false by {
                    assert forall|k: int| 1 <= k < r.len() implies !seen0[(#[trigger] r[k]).idx()] by {
                        assert(r[k] != r[0]);
                        lemma_idx_bounds(r[k]);
                        if r[k].idx() == start.idx() {
                            lemma_idx_injective(r[k], *start);
                        }
                    }
                    assert(avoids(r, seen0));
                }
            }
            None
        }
    }

    /// Indices of the houses that water does not reach, in increasing order.
    pub fn find_unconnected_houses(&self) -> (v: Vec<usize>)
        requires
            self.wf(),
        ensures
            v@ == unconnected_prefix(self, self.house@.len() as int),
    {
        let mut v: Vec<usize> = Vec::new();
        let mut i: usize = 0;
        while i < self.house.len()
            invariant
                self.wf(),
                i <= self.house@.len(),
                v@ == unconnected_prefix(self, i as int),
            decreases self.house@.len() - i,
        {
            let result = self.find_current_path_to_source(&self.house[i]);
            if result.is_none() {
                v.push(i);
            }
            i = i + 1;
        }
        v
    }
}

/// Indices below `k` of the houses that water does not reach, in order.
pub open spec fn unconnected_prefix(g: &Grid, k: int) -> Seq<usize>
    decreases k,
{
    if k <= 0 {
        seq![]
    } else if g.connected(g.house@[k - 1]) {
        unconnected_prefix(g, k - 1)
    } else {
        unconnected_prefix(g, k - 1).push((k - 1) as usize)
    }
}

/// A sequence without marks counts none.
pub proof fn lemma_count_zero(n: nat)
    ensures
        count_true(Seq::new(n, |i: int| false)) == 0,
    decreases n,
{
    if n > 0 {
        assert(Seq::new(n, |i: int| false).drop_last() =~= Seq::new((n - 1) as nat, |i: int| false));
        lemma_count_zero((n - 1) as nat);
    }
}

} // verus!
