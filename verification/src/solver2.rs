use vstd::prelude::*;
use vstd::std_specs::cmp::PartialEqSpecImpl;
use std::collections::HashMap;
use crate::def::{Input, Pos, State, INF, S_MAX, abs_int, adjacent, manhattan, lemma_idx_bounds};
use crate::heap::{Entry, MinHeap, entry_le};
use crate::grid::{total, lemma_total_update, lemma_total_nonneg};
use vstd::multiset::Multiset;
use crate::grid::MAX_C;
use crate::solver::{MAX_DAMAGE, damage_ok};
use crate::util::rnd::{Xorshift, advance, gen_range};
use crate::util::{UnionFind, sort_by_first, sort_i64, sorted_by_first, reorders, keeps_ties, lemma_stable_sort_unique};

verus! {

broadcast use vstd::std_specs::hash::group_hash_axioms;

/// Index meaning "no such point or edge".
pub const NA: usize = usize::MAX;

/// An undirected edge between two points of a graph, by index.
#[derive(Clone, Copy, Debug)]
pub struct Edge {
    pub u: usize,
    pub v: usize,
}

impl Edge {
    /// The endpoint that is not `v`.
    pub fn other_point(&self, v: usize) -> (r: usize)
        requires
            self.u == v || self.v == v,
        ensures
            r == if self.u == v {
                self.v
            } else {
                self.u
            },
    {
        if self.u == v {
            self.v
        } else {
            self.u
        }
    }

    /// The two edges join the same pair of points.
    pub open spec fn same_pair(&self, other: &Edge) -> bool {
        (self.u == other.u && self.v == other.v) || (self.u == other.v && self.v == other.u)
    }
}

impl PartialEq for Edge {
    fn eq(&self, other: &Self) -> (r: bool) {
        (self.u == other.u && self.v == other.v) || (self.u == other.v && self.v == other.u)
    }
}

impl PartialEqSpecImpl for Edge {
    open spec fn obeys_eq_spec() -> bool {
        true
    }

    open spec fn eq_spec(&self, other: &Edge) -> bool {
        self.same_pair(other)
    }
}

/// Edges are compared as unordered pairs: the comparison is reflexive and
/// symmetric, and swapping the endpoints gives an equal edge.
pub proof fn law_edge_eq(a: Edge, b: Edge)
    ensures
        a.same_pair(&a),
        a.same_pair(&b) == b.same_pair(&a),
        a.same_pair(&Edge { u: a.v, v: a.u }),
{
}

/// Stepping to the other endpoint twice comes back.
pub proof fn law_other_point_twice(e: Edge, w: usize)
    requires
        e.u == w || e.v == w,
    ensures
        ({
            let o = if e.u == w {
                e.v
            } else {
                e.u
            };
            (if e.u == o {
                e.v
            } else {
                e.u
            }) == w
        }),
{
}

/// A key that tells cells apart.
pub open spec fn pos_key(p: Pos) -> i128 {
    key_value(p) as i128
}

pub open spec fn key_value(p: Pos) -> int {
    p.y as int * 0x1_0000_0000_0000_0000int + (p.x as int + 0x8000_0000_0000_0000int)
}

proof fn lemma_key_range(p: Pos)
    ensures
        i128::MIN <= key_value(p) <= i128::MAX,
{
    let y = p.y as int;
    assert(y * 0x1_0000_0000_0000_0000int <= 0x7fff_ffff_ffff_ffff_0000_0000_0000_0000int)
        by (nonlinear_arith)
        requires
            y < 0x8000_0000_0000_0000int,
    ;
    assert(y * 0x1_0000_0000_0000_0000int >= -0x8000_0000_0000_0000_0000_0000_0000_0000int)
        by (nonlinear_arith)
        requires
            -0x8000_0000_0000_0000int <= y,
    ;
}

fn pos_key_exec(p: &Pos) -> (k: i128)
    ensures
        k == pos_key(*p),
{
    proof {
        lemma_key_range(*p);
    }
    let y = p.y as i128;
    let x = p.x as i128 + 0x8000_0000_0000_0000i128;
    y * 0x1_0000_0000_0000_0000i128 + x
}

proof fn lemma_pos_key_injective(p: Pos, q: Pos)
    requires
        pos_key(p) == pos_key(q),
    ensures
        p == q,
{
    lemma_key_range(p);
    lemma_key_range(q);
    let a = p.y as int;
    let b = q.y as int;
    let m = 0x1_0000_0000_0000_0000int;
    assert(key_value(p) == key_value(q));
    if a < b {
        assert(a * m + m <= b * m) by (nonlinear_arith)
            requires
                a < b,
                m > 0,
        ;
    } else if b < a {
        assert(b * m + m <= a * m) by (nonlinear_arith)
            requires
                b < a,
                m > 0,
        ;
    }
}

/// Points placed on the board and the edges between them.
pub struct Graph {
    pub points: Vec<Pos>,
    pub edges: Vec<Edge>,
    pub adj: Vec<Vec<usize>>,
    pub pos_index: HashMap<i128, usize>,
}

impl Graph {
    /// The points lie on the board and `pos_index` finds the latest point
    /// placed at each cell.
    pub open spec fn points_ok(&self) -> bool {
        &&& forall|i: int| 0 <= i < self.points@.len() ==> (#[trigger] self.points@[i]).valid()
        &&& forall|i: int| 0 <= i < self.points@.len() ==> self.pos_index@.contains_key(
            pos_key(#[trigger] self.points@[i]),
        )
        &&& forall|k: i128| #[trigger] self.pos_index@.contains_key(k) ==> {
            &&& self.pos_index@[k] < self.points@.len()
            &&& pos_key(self.points@[self.pos_index@[k] as int]) == k
        }
    }

    /// The graph without points.
    pub fn new() -> (g: Graph)
        ensures
            g.points@.len() == 0,
            g.edges@.len() == 0,
            g.adj@.len() == 0,
            g.points_ok(),
    {
        broadcast use vstd::std_specs::hash::axiom_random_state_builds_valid_hashers;
        Graph { points: Vec::new(), edges: Vec::new(), adj: Vec::new(), pos_index: HashMap::new() }
    }

    /// Places a point at `pos` and returns its index.
    pub fn add_point(&mut self, pos: &Pos) -> (idx: usize)
        requires
            old(self).points_ok(),
            pos.valid(),
            old(self).points@.len() < usize::MAX,
        ensures
            final(self).points_ok(),
            idx == old(self).points@.len(),
            final(self).points@ == old(self).points@.push(*pos),
            final(self).edges@ == old(self).edges@,
            final(self).adj@ == old(self).adj@,
            final(self).pos_index@ == old(self).pos_index@.insert(pos_key(*pos), idx),
    {
        broadcast use vstd::std_specs::hash::axiom_random_state_builds_valid_hashers;
        let p = *pos;
        let p_idx = self.points.len();
        self.points.push(p);
        let key = pos_key_exec(&p);
        self.pos_index.insert(key, p_idx);
        proof {
            assert forall|k: i128| #[trigger] self.pos_index@.contains_key(k) implies {
                &&& self.pos_index@[k] < self.points@.len()
                &&& pos_key(self.points@[self.pos_index@[k] as int]) == k
            } by {
                if k != key {
                    assert(old(self).pos_index@.contains_key(k));
                }
            }
            assert forall|i: int| 0 <= i < self.points@.len() implies self.pos_index@.contains_key(
                pos_key(#[trigger] self.points@[i]),
            ) by {
                if i < old(self).points@.len() {
                    assert(old(self).pos_index@.contains_key(pos_key(old(self).points@[i])));
                }
            }
        }
        p_idx
    }

    /// No point lies within Manhattan distance 4 of `pos`.
    pub fn should_add_point(&self, pos: &Pos) -> (b: bool)
        requires
            self.points_ok(),
            pos.valid(),
        ensures
            b == forall|i: int| 0 <= i < self.points@.len() ==> manhattan(#[trigger] self.points@[i], *pos) >= 5,
    {
        let mut i: usize = 0;
        while i < self.points.len()
            invariant
                self.points_ok(),
                pos.valid(),
                i <= self.points@.len(),
                forall|j: int| 0 <= j < i ==> manhattan(#[trigger] self.points@[j], *pos) >= 5,
            decreases self.points@.len() - i,
        {
            let p = self.points[i];
            proof {
                assert(self.points@[i as int].valid());
            }
            if p.dist(pos) < 5 {
                return false;
            }
            i = i + 1;
        }
        true
    }

    /// Index of the point placed last at `pos`.
    pub fn pos_to_index(&self, pos: &Pos) -> (idx: usize)
        requires
            self.points_ok(),
            self.pos_index@.contains_key(pos_key(*pos)),
        ensures
            idx == self.pos_index@[pos_key(*pos)],
            idx < self.points@.len(),
            self.points@[idx as int] == *pos,
    {
        broadcast use vstd::std_specs::hash::axiom_random_state_builds_valid_hashers;
        let key = pos_key_exec(pos);
        let idx = *self.pos_index.get(&key).unwrap();
        proof {
            lemma_pos_key_injective(self.points@[idx as int], *pos);
        }
        idx
    }
}

/// Looking up a cell right after a point was placed there finds that point.
pub proof fn law_lookup_after_add(before: &Graph, after: &Graph, p: Pos, idx: usize)
    requires
        after.pos_index@ == before.pos_index@.insert(pos_key(p), idx),
    ensures
        after.pos_index@.contains_key(pos_key(p)),
        after.pos_index@[pos_key(p)] == idx,
{
}

/// Once a point is placed at `p`, no point may be placed within distance 4
/// of it.
pub proof fn law_no_point_near_added(before: &Graph, after: &Graph, p: Pos, q: Pos)
    requires
        after.points@ == before.points@.push(p),
        manhattan(p, q) < 5,
    ensures
        !(forall|i: int| 0 <= i < after.points@.len() ==> manhattan(#[trigger] after.points@[i], q) >= 5),
{
    assert(after.points@[before.points@.len() as int] == p);
}

impl Graph {
    /// Edges join existing points and `adj[v]` lists edges at `v`.
    pub open spec fn edges_ok(&self) -> bool {
        &&& forall|e: int|
            0 <= e < self.edges@.len() ==> (#[trigger] self.edges@[e]).u < self.points@.len()
                && self.edges@[e].v < self.points@.len()
        &&& self.adj@.len() == self.points@.len()
        &&& forall|v: int, k: int|
            0 <= v < self.adj@.len() && 0 <= k < self.adj@[v]@.len() ==> {
                let e = #[trigger] self.adj@[v]@[k];
                &&& e < self.edges@.len()
                &&& (self.edges@[e as int].u == v || self.edges@[e as int].v == v)
            }
    }
}

/// The state of the edge-selection search: which edges are in use, the
/// edge route of each house, the board knowledge, the graph, the point
/// index of each house and source, and the weight of the edges in use.
pub struct AnnealingState {
    pub edge_used: Vec<bool>,
    pub to_source_paths: Vec<Vec<usize>>,
    pub state: State,
    pub graph: Graph,
    pub house: Vec<usize>,
    pub source: Vec<usize>,
    pub score: i64,
}

/// Hardness assumed at a point: its damage once broken, five times its
/// damage (capped at `S_MAX`) while it stands.
pub open spec fn point_hardness(state: &State, p: Pos) -> int {
    if state.is_broken.at(p) {
        state.damage.at(p) as int
    } else if state.damage.at(p) * 5 < S_MAX {
        state.damage.at(p) * 5
    } else {
        S_MAX as int
    }
}

/// Cost of opening edge `e`: its length times the mean assumed hardness
/// of its endpoints plus `c`.
pub open spec fn edge_cost(graph: &Graph, state: &State, e: int, c: int) -> int {
    let ed = graph.edges@[e];
    let pu = graph.points@[ed.u as int];
    let pv = graph.points@[ed.v as int];
    ((point_hardness(state, pu) + point_hardness(state, pv)) / 2 + c) * manhattan(pu, pv)
}

/// Sum of the costs of the edges below `k` marked in `used`.
pub open spec fn used_edge_weight(graph: &Graph, state: &State, c: int, used: Seq<bool>, k: int) -> int
    decreases k,
{
    if k <= 0 {
        0
    } else {
        used_edge_weight(graph, state, c, used, k - 1) + if used[k - 1] {
            edge_cost(graph, state, k - 1, c)
        } else {
            0
        }
    }
}

proof fn lemma_edge_cost_nonneg(graph: &Graph, state: &State, e: int, c: int)
    requires
        graph.points_ok(),
        graph.edges_ok(),
        damage_ok(state),
        0 <= c,
        0 <= e < graph.edges@.len(),
    ensures
        edge_cost(graph, state, e, c) >= 0,
{
    let ed = graph.edges@[e];
    let pu = graph.points@[ed.u as int];
    let pv = graph.points@[ed.v as int];
    assert(pu.valid());
    assert(pv.valid());
    lemma_idx_bounds(pu);
    lemma_idx_bounds(pv);
    let h = (point_hardness(state, pu) + point_hardness(state, pv)) / 2 + c;
    assert(h >= 0);
    assert(h * manhattan(pu, pv) >= 0) by (nonlinear_arith)
        requires
            h >= 0,
            manhattan(pu, pv) >= 0,
    ;
}

proof fn lemma_used_edge_weight_update(
    graph: &Graph,
    state: &State,
    c: int,
    used: Seq<bool>,
    k: int,
    e: int,
)
    requires
        0 <= e < used.len(),
        k <= used.len(),
    ensures
        used_edge_weight(graph, state, c, used.update(e, true), k) == used_edge_weight(
            graph,
            state,
            c,
            used,
            k,
        ) + if e < k && !used[e] {
            edge_cost(graph, state, e, c)
        } else {
            0
        },
    decreases k,
{
    if k > 0 {
        lemma_used_edge_weight_update(graph, state, c, used, k - 1, e);
    }
}

/// Marking more edges never lowers the weight of the edges in use.
proof fn lemma_used_edge_weight_sub(
    graph: &Graph,
    state: &State,
    c: int,
    used1: Seq<bool>,
    used2: Seq<bool>,
    k: int,
)
    requires
        graph.points_ok(),
        graph.edges_ok(),
        damage_ok(state),
        0 <= c,
        k <= graph.edges@.len(),
        forall|e: int| 0 <= e < k && #[trigger] used1[e] ==> used2[e],
    ensures
        0 <= used_edge_weight(graph, state, c, used1, k) <= used_edge_weight(graph, state, c, used2, k),
    decreases k,
{
    if k > 0 {
        lemma_used_edge_weight_sub(graph, state, c, used1, used2, k - 1);
        lemma_edge_cost_nonneg(graph, state, k - 1, c);
    }
}

/// The marks `used` with the edges of `path` marked too.
pub open spec fn marked_with(used: Seq<bool>, path: Seq<usize>) -> Seq<bool> {
    Seq::new(used.len(), |e: int| used[e] || path.contains(e as usize))
}

impl AnnealingState {
    /// The graph, the board knowledge and the edge marks fit together, and
    /// the score is the weight of the edges in use.
    pub open spec fn wf(&self, c: int) -> bool {
        &&& self.graph.points_ok()
        &&& self.graph.edges_ok()
        &&& damage_ok(&self.state)
        &&& 0 <= c <= MAX_C
        &&& self.edge_used@.len() == self.graph.edges@.len()
        &&& self.score == used_edge_weight(
            &self.graph,
            &self.state,
            c,
            self.edge_used@,
            self.edge_used@.len() as int,
        )
    }

    /// Adds a point for every house and then every source.
    pub fn new(graph: Graph, state: State, input: &Input) -> (a: AnnealingState)
        requires
            graph.points_ok(),
            forall|i: int| 0 <= i < input.house@.len() ==> (#[trigger] input.house@[i]).valid(),
            forall|i: int| 0 <= i < input.source@.len() ==> (#[trigger] input.source@[i]).valid(),
            graph.points@.len() + input.house@.len() + input.source@.len() < usize::MAX,
        ensures
            a.graph.points_ok(),
            a.graph.points@ == graph.points@ + input.house@ + input.source@,
            a.graph.edges@ == graph.edges@,
            a.graph.adj@ == graph.adj@,
            a.house@ == Seq::new(input.house@.len(), |i: int| (graph.points@.len() + i) as usize),
            a.source@ == Seq::new(
                input.source@.len(),
                |i: int| (graph.points@.len() + input.house@.len() + i) as usize,
            ),
            a.edge_used@.len() == 0,
            a.to_source_paths@.len() == 0,
            a.score == 0,
            a.state == state,
    {
        let ghost p0 = graph.points@;
        let ghost e0 = graph.edges@;
        let ghost a0 = graph.adj@;
        let mut house: Vec<usize> = Vec::new();
        let mut graph = graph;
        let mut i: usize = 0;
        while i < input.house.len()
            invariant
                graph.points_ok(),
                forall|i: int| 0 <= i < input.house@.len() ==> (#[trigger] input.house@[i]).valid(),
                p0.len() + input.house@.len() + input.source@.len() < usize::MAX,
                i <= input.house@.len(),
                graph.points@ == p0 + input.house@.take(i as int),
                house@ == Seq::new(i as nat, |j: int| (p0.len() + j) as usize),
                graph.edges@ == e0,
                graph.adj@ == a0,
            decreases input.house@.len() - i,
        {
            let h_idx = graph.add_point(&input.house[i]);
            house.push(h_idx);
            proof {
                assert(input.house@.take(i + 1) =~= input.house@.take(i as int).push(input.house@[i as int]));
                assert(house@ =~= Seq::new((i + 1) as nat, |j: int| (p0.len() + j) as usize));
            }
            i = i + 1;
        }
        proof {
            assert(input.house@.take(input.house@.len() as int) =~= input.house@);
        }
        let ghost p1 = graph.points@;
        let mut source: Vec<usize> = Vec::new();
        let mut j: usize = 0;
        while j < input.source.len()
            invariant
                graph.points_ok(),
                forall|i: int| 0 <= i < input.source@.len() ==> (#[trigger] input.source@[i]).valid(),
                p1.len() == p0.len() + input.house@.len(),
                p0.len() + input.house@.len() + input.source@.len() < usize::MAX,
                j <= input.source@.len(),
                graph.points@ == p1 + input.source@.take(j as int),
                source@ == Seq::new(j as nat, |m: int| (p1.len() + m) as usize),
                graph.edges@ == e0,
                graph.adj@ == a0,
            decreases input.source@.len() - j,
        {
            let s_idx = graph.add_point(&input.source[j]);
            source.push(s_idx);
            proof {
                assert(input.source@.take(j + 1) =~= input.source@.take(j as int).push(input.source@[j as int]));
                assert(source@ =~= Seq::new((j + 1) as nat, |m: int| (p1.len() + m) as usize));
            }
            j = j + 1;
        }
        proof {
            assert(input.source@.take(input.source@.len() as int) =~= input.source@);
            assert(graph.points@ =~= p0 + input.house@ + input.source@);
        }
        AnnealingState {
            edge_used: Vec::new(),
            to_source_paths: Vec::new(),
            state,
            graph,
            house,
            source,
            score: 0,
        }
    }

    fn point_hardness_exec(&self, v: usize) -> (h: i64)
        requires
            self.graph.points_ok(),
            damage_ok(&self.state),
            v < self.graph.points@.len(),
        ensures
            h == point_hardness(&self.state, self.graph.points@[v as int]),
            0 <= h <= MAX_DAMAGE,
    {
        let p = &self.graph.points[v];
        proof {
            assert(self.graph.points@[v as int].valid());
            lemma_idx_bounds(*p);
        }
        if self.state.is_broken.get(p) {
            self.state.damage.get(p)
        } else {
            let five = self.state.damage.get(p) * 5;
            if five < S_MAX {
                five
            } else {
                S_MAX
            }
        }
    }

    /// Cost of opening edge `edge_index`.
    pub fn edge_weight(&self, edge_index: usize, c: i64) -> (w: i64)
        requires
            self.graph.points_ok(),
            self.graph.edges_ok(),
            damage_ok(&self.state),
            0 <= c <= MAX_C,
            edge_index < self.graph.edges@.len(),
        ensures
            w == edge_cost(&self.graph, &self.state, edge_index as int, c as int),
            w >= 0,
    {
        let edge = &self.graph.edges[edge_index];
        proof {
            assert(self.graph.edges@[edge_index as int].u < self.graph.points@.len());
            assert(self.graph.points@[edge.u as int].valid());
            assert(self.graph.points@[edge.v as int].valid());
        }
        let dist = self.graph.points[edge.u].dist(&self.graph.points[edge.v]);
        let hard_mean = (self.point_hardness_exec(edge.u) + self.point_hardness_exec(edge.v)) / 2;
        proof {
            assert(0 <= dist <= 398);
            assert(0 <= (hard_mean + c) * dist <= (MAX_DAMAGE + MAX_C) * 398) by (nonlinear_arith)
                requires
                    0 <= dist <= 398,
                    0 <= hard_mean <= MAX_DAMAGE,
                    0 <= c <= MAX_C,
            ;
        }
        (hard_mean + c) * dist
    }
}

impl AnnealingState {
    /// Marks the edges of `edge_path` used, adding the cost of each edge
    /// that was not used yet to the score, and records the path as the
    /// route of house `h_idx`.
    pub fn set_edge_path(&mut self, h_idx: usize, edge_path: Vec<usize>, c: i64)
        requires
            old(self).wf(c as int),
            h_idx < old(self).to_source_paths@.len(),
            forall|k: int| 0 <= k < edge_path@.len() ==> #[trigger] edge_path@[k] < old(self).edge_used@.len(),
            used_edge_weight(
                &old(self).graph,
                &old(self).state,
                c as int,
                marked_with(old(self).edge_used@, edge_path@),
                old(self).edge_used@.len() as int,
            ) <= i64::MAX,
        ensures
            final(self).wf(c as int),
            final(self).edge_used@ == Seq::new(
                old(self).edge_used@.len(),
                |e: int| old(self).edge_used@[e] || edge_path@.contains(e as usize),
            ),
            final(self).to_source_paths@ == old(self).to_source_paths@.update(h_idx as int, edge_path),
            final(self).graph == old(self).graph,
            final(self).state == old(self).state,
            final(self).house@ == old(self).house@,
            final(self).source@ == old(self).source@,
    {
        let n: usize = self.edge_used.len();
        let mut k: usize = 0;
        while k < edge_path.len()
            invariant
                self.wf(c as int),
                n == self.edge_used@.len(),
                n == old(self).edge_used@.len(),
                k <= edge_path@.len(),
                forall|k: int| 0 <= k < edge_path@.len() ==> #[trigger] edge_path@[k] < n,
                used_edge_weight(
                    &old(self).graph,
                    &old(self).state,
                    c as int,
                    marked_with(old(self).edge_used@, edge_path@),
                    n as int,
                ) <= i64::MAX,
                self.edge_used@ == Seq::new(
                    n as nat,
                    |e: int| old(self).edge_used@[e] || edge_path@.take(k as int).contains(e as usize),
                ),
                self.to_source_paths@ == old(self).to_source_paths@,
                self.graph == old(self).graph,
                self.state == old(self).state,
                self.house@ == old(self).house@,
                self.source@ == old(self).source@,
            decreases edge_path@.len() - k,
        {
            let e = edge_path[k];
            proof {
                lemma_used_edge_weight_update(&self.graph, &self.state, c as int, self.edge_used@, n as int, e as int);
                let fin = marked_with(old(self).edge_used@, edge_path@);
                assert forall|x: int| 0 <= x < n && #[trigger] self.edge_used@.update(e as int, true)[x] implies fin[x] by {
                    if x == e {
                        assert(edge_path@[k as int] == e);
                    } else if !old(self).edge_used@[x] {
                        let m = choose|m: int| 0 <= m < k && #[trigger] edge_path@.take(k as int)[m] == x as usize;
                        assert(edge_path@[m] == x as usize);
                    }
                }
                lemma_used_edge_weight_sub(
                    &self.graph,
                    &self.state,
                    c as int,
                    self.edge_used@.update(e as int, true),
                    fin,
                    n as int,
                );
            }
            let ghost before = self.edge_used@;
            if !self.edge_used[e] {
                let w = self.edge_weight(e, c);
                self.score = self.score + w;
            }
            self.edge_used.set(e, true);
            proof {
                assert(self.edge_used@ =~= Seq::new(
                    n as nat,
                    |x: int| old(self).edge_used@[x] || edge_path@.take(k + 1).contains(x as usize),
                )) by {
                    assert(edge_path@.take(k + 1) =~= edge_path@.take(k as int).push(e));
                    assert forall|x: int| 0 <= x < n implies self.edge_used@[x] == (old(self).edge_used@[x]
                        || edge_path@.take(k + 1).contains(x as usize)) by {
                        assert(before[x] == (old(self).edge_used@[x] || edge_path@.take(k as int).contains(
                            x as usize,
                        )));
                        if x == e {
                            assert(edge_path@.take(k + 1)[k as int] == e);
                        }
                        if edge_path@.take(k as int).contains(x as usize) {
                            let m = choose|m: int| 0 <= m < k && #[trigger] edge_path@.take(k as int)[m] == x as usize;
                            assert(edge_path@.take(k + 1)[m] == x as usize);
                        }
                        if edge_path@.take(k + 1).contains(x as usize) {
                            let m = choose|m: int| 0 <= m < k + 1 && #[trigger] edge_path@.take(k + 1)[m] == x as usize;
                            if m < k {
                                assert(edge_path@.take(k as int)[m] == x as usize);
                            }
                        }
                    }
                }
            }
            k = k + 1;
        }
        proof {
            assert(edge_path@.take(edge_path@.len() as int) =~= edge_path@);
        }
        self.to_source_paths.set(h_idx, edge_path);
    }
}

/// Largest edge weight a graph search accepts.
pub const MAX_EDGE_WEIGHT: i64 = 4_000_000_000_000_000_000;

/// The endpoint of `ed` that is not `v`.
pub open spec fn other(ed: Edge, v: int) -> int {
    if ed.u == v {
        ed.v as int
    } else {
        ed.u as int
    }
}

impl Graph {
    /// Every edge is listed at both of its endpoints.
    pub open spec fn adj_complete(&self) -> bool {
        forall|e: int|
            0 <= e < self.edges@.len() ==> self.adj@[(#[trigger] self.edges@[e]).u as int]@.contains(e as usize)
                && self.adj@[self.edges@[e].v as int]@.contains(e as usize)
    }

    /// No edge is listed twice at a point.
    pub open spec fn adj_distinct(&self) -> bool {
        forall|v: int, i: int, j: int|
            0 <= v < self.adj@.len() && 0 <= i < j < self.adj@[v]@.len() ==> #[trigger] self.adj@[v]@[i]
                != #[trigger] self.adj@[v]@[j]
    }

    /// The graph's edge tables are consistent and complete.
    pub open spec fn graph_ok(&self) -> bool {
        &&& self.edges_ok()
        &&& self.adj_complete()
        &&& self.adj_distinct()
        &&& self.edges@.len() <= NA
    }
}

/// Search weights: `dw[v][e]` is what edge `e` weighs when the search
/// leaves point `v` along it, in `0 ..= MAX_EDGE_WEIGHT`.
pub open spec fn weights_ok(g: &Graph, dw: Seq<Seq<i64>>) -> bool {
    &&& dw.len() == g.points@.len()
    &&& forall|v: int| 0 <= v < dw.len() ==> (#[trigger] dw[v]).len() == g.edges@.len()
    &&& forall|v: int, e: int|
        0 <= v < dw.len() && 0 <= e < g.edges@.len() ==> 0 <= #[trigger] dw[v][e] <= MAX_EDGE_WEIGHT
}

/// Base weights a search can draw from: one per edge, each with a tenth
/// more still at most `MAX_EDGE_WEIGHT`.
pub open spec fn base_ok(g: &Graph, used: Seq<bool>, base: Seq<i64>) -> bool {
    &&& used.len() == g.edges@.len()
    &&& base.len() == g.edges@.len()
    &&& forall|e: int| 0 <= e < base.len() ==> 0 <= #[trigger] base[e] && base[e] + base[e] / 10 <= MAX_EDGE_WEIGHT
}

/// `dw` is a possible draw of search weights: an edge marked in `used`
/// weighs nothing, any other edge its base weight plus at most a tenth of it.
pub open spec fn drawn_ok(g: &Graph, used: Seq<bool>, base: Seq<i64>, dw: Seq<Seq<i64>>) -> bool {
    &&& dw.len() == g.points@.len()
    &&& forall|v: int| 0 <= v < dw.len() ==> (#[trigger] dw[v]).len() == g.edges@.len()
    &&& forall|v: int, e: int|
        #![trigger dw[v][e]]
        0 <= v < dw.len() && 0 <= e < g.edges@.len() ==> if used[e] {
            dw[v][e] == 0
        } else {
            base[e] <= dw[v][e] <= base[e] + base[e] / 10
        }
}

proof fn lemma_drawn_weights_ok(g: &Graph, used: Seq<bool>, base: Seq<i64>, dw: Seq<Seq<i64>>)
    requires
        base_ok(g, used, base),
        drawn_ok(g, used, base, dw),
    ensures
        weights_ok(g, dw),
{
    assert forall|v: int, e: int| 0 <= v < dw.len() && 0 <= e < g.edges@.len() implies 0 <= #[trigger] dw[v][e]
        <= MAX_EDGE_WEIGHT by {
        assert(0 <= base[e]);
    }
}

/// Listed edge `k` of `v` leads to a point whose distance is at most that
/// of `v` plus the edge's weight when left from `v`.
pub open spec fn g_relaxed_k(g: &Graph, dw: Seq<Seq<i64>>, dist: Seq<i64>, v: int, k: int) -> bool {
    let e = g.adj@[v]@[k] as int;
    dist[other(g.edges@[e], v)] <= dist[v] + dw[v][e]
}

pub open spec fn g_relaxed(g: &Graph, dw: Seq<Seq<i64>>, dist: Seq<i64>, v: int) -> bool {
    forall|k: int| 0 <= k < g.adj@[v]@.len() ==> #[trigger] g_relaxed_k(g, dw, dist, v, k)
}

pub open spec fn g_parent_le(g: &Graph, dw: Seq<Seq<i64>>, dist: Seq<i64>, par: Seq<usize>, v: int) -> bool {
    par[v] != NA ==> {
        let e = par[v] as int;
        let u = other(g.edges@[e], v);
        &&& 0 <= e < g.edges@.len()
        &&& (g.edges@[e].u == v || g.edges@[e].v == v)
        &&& dist[v] >= dist[u] + dw[u][e]
    }
}

pub open spec fn g_parent_ranked(g: &Graph, dist: Seq<i64>, par: Seq<usize>, stamp: Seq<nat>, v: int) -> bool {
    par[v] != NA ==> {
        let u = other(g.edges@[par[v] as int], v);
        ||| dist[u] < dist[v]
        ||| (dist[u] == dist[v] && stamp[u] < stamp[v])
    }
}

pub open spec fn g_entry(v: int, d: i64) -> Entry {
    (d, 0i64, v as i64)
}

pub open spec fn g_queued_or_settled(
    g: &Graph,
    dw: Seq<Seq<i64>>,
    heap: Multiset<Entry>,
    dist: Seq<i64>,
    v: int,
) -> bool {
    heap.count(g_entry(v, dist[v])) > 0 || g_relaxed(g, dw, dist, v)
}

pub open spec fn g_entry_ok(n: int, dist: Seq<i64>, e: Entry) -> bool {
    e.1 == 0 && 0 <= e.2 < n && e.0 >= dist[e.2 as int]
}

pub open spec fn g_search_inv(
    g: &Graph,
    dw: Seq<Seq<i64>>,
    start: int,
    heap: Multiset<Entry>,
    dist: Seq<i64>,
    par: Seq<usize>,
    stamp: Seq<nat>,
    cnt: nat,
) -> bool {
    let n = g.points@.len() as int;
    &&& g.graph_ok()
    &&& weights_ok(g, dw)
    &&& 0 <= start < n
    &&& dist.len() == n
    &&& par.len() == n
    &&& stamp.len() == n
    &&& dist[start] == 0
    &&& par[start] == NA
    &&& forall|v: int| 0 <= v < n ==> 0 <= #[trigger] dist[v] <= INF
    &&& forall|v: int| 0 <= v < n ==> #[trigger] stamp[v] < cnt
    &&& forall|e: Entry| #[trigger] heap.count(e) > 0 ==> g_entry_ok(n, dist, e)
    &&& forall|v: int| 0 <= v < n && v != start && dist[v] < INF ==> #[trigger] par[v] != NA
    &&& forall|v: int| 0 <= v < n ==> #[trigger] g_parent_le(g, dw, dist, par, v)
    &&& forall|v: int| 0 <= v < n ==> #[trigger] g_parent_ranked(g, dist, par, stamp, v)
}

/// Each point is taken from the queue at most once: `last` is the distance
/// last taken, no queued distance is below it, a point already taken is no
/// farther and is no longer queued at its distance, every point is queued
/// at most once at its distance, a parent edge leads back to a point
/// already taken, and a point below `INF` is taken or queued at its
/// distance.
pub open spec fn g_settle_inv(
    g: &Graph,
    heap: Multiset<Entry>,
    dist: Seq<i64>,
    par: Seq<usize>,
    settled: Seq<bool>,
    last: i64,
) -> bool {
    let n = g.points@.len() as int;
    &&& settled.len() == n
    &&& forall|e: Entry| #[trigger] heap.count(e) > 0 ==> e.0 >= last
    &&& forall|x: int| 0 <= x < n && #[trigger] settled[x] ==> dist[x] <= last && heap.count(g_entry(x, dist[x])) == 0
    &&& forall|x: int| 0 <= x < n ==> #[trigger] heap.count(g_entry(x, dist[x])) <= 1
    &&& forall|y: int| 0 <= y < n && #[trigger] par[y] != NA ==> settled[other(g.edges@[par[y] as int], y)]
    &&& forall|e: Entry| #[trigger] heap.count(e) > 0 ==> e.0 < INF
    &&& forall|x: int| 0 <= x < n && #[trigger] settled[x] ==> dist[x] < INF
    &&& forall|x: int| 0 <= x < n && #[trigger] dist[x] < INF ==> settled[x] || heap.count(g_entry(x, dist[x])) > 0
}

/// Redrawing the weight of listed edge `k` of `v`, before `v` relaxes it,
/// keeps the search invariant.
proof fn lemma_g_redraw(
    g: &Graph,
    dw: Seq<Seq<i64>>,
    start: int,
    v: int,
    k: int,
    x: i64,
    heap: Multiset<Entry>,
    dist: Seq<i64>,
    par: Seq<usize>,
    stamp: Seq<nat>,
    cnt: nat,
)
    requires
        g_search_inv(g, dw, start, heap, dist, par, stamp, cnt),
        0 <= v < g.points@.len(),
        0 <= k < g.adj@[v]@.len(),
        0 <= x <= MAX_EDGE_WEIGHT,
        forall|y: int|
            0 <= y < g.points@.len() && #[trigger] par[y] != NA && other(g.edges@[par[y] as int], y) == v
                ==> g.adj@[v]@.subrange(0, k).contains(par[y]),
        forall|y: int| 0 <= y < g.points@.len() && y != v ==> #[trigger] g_queued_or_settled(g, dw, heap, dist, y),
        forall|j: int| 0 <= j < k ==> #[trigger] g_relaxed_k(g, dw, dist, v, j),
    ensures
        ({
            let e = g.adj@[v]@[k] as int;
            let dw2 = dw.update(v, dw[v].update(e, x));
            &&& g_search_inv(g, dw2, start, heap, dist, par, stamp, cnt)
            &&& forall|y: int|
                0 <= y < g.points@.len() && y != v ==> #[trigger] g_queued_or_settled(g, dw2, heap, dist, y)
            &&& forall|j: int| 0 <= j < k ==> #[trigger] g_relaxed_k(g, dw2, dist, v, j)
        }),
{
    let n = g.points@.len() as int;
    let e = g.adj@[v]@[k] as int;
    let dw2 = dw.update(v, dw[v].update(e, x));
    assert(0 <= e < g.edges@.len());
    assert forall|y: int, f: int| 0 <= y < dw2.len() && 0 <= f < g.edges@.len() implies 0 <= #[trigger] dw2[y][f]
        <= MAX_EDGE_WEIGHT by {
        if y != v || f != e {
            assert(dw2[y][f] == dw[y][f]);
        }
    }
    assert(weights_ok(g, dw2));
    assert forall|y: int| 0 <= y < n implies #[trigger] g_parent_le(g, dw2, dist, par, y) by {
        assert(g_parent_le(g, dw, dist, par, y));
        if par[y] != NA {
            let f = par[y] as int;
            let u = other(g.edges@[f], y);
            if u == v && f == e {
                let j = choose|j: int| 0 <= j < k && g.adj@[v]@.subrange(0, k)[j] == par[y];
                assert(g.adj@[v]@[j] == g.adj@[v]@[k]);
            }
            assert(0 <= u < n);
            assert(dw2[u][f] == dw[u][f]);
        }
    }
    assert forall|y: int| 0 <= y < n && y != v implies #[trigger] g_queued_or_settled(g, dw2, heap, dist, y) by {
        assert(g_queued_or_settled(g, dw, heap, dist, y));
        assert(dw2[y] == dw[y]);
        if g_relaxed(g, dw, dist, y) {
            assert forall|j: int| 0 <= j < g.adj@[y]@.len() implies #[trigger] g_relaxed_k(g, dw2, dist, y, j) by {
                assert(g_relaxed_k(g, dw, dist, y, j));
            }
        }
    }
    assert forall|j: int| 0 <= j < k implies #[trigger] g_relaxed_k(g, dw2, dist, v, j) by {
        assert(g_relaxed_k(g, dw, dist, v, j));
        assert(g.adj@[v]@[j] != g.adj@[v]@[k]);
        let f = g.adj@[v]@[j] as int;
        assert(0 <= f < g.edges@.len());
        assert(dw2[v][f] == dw[v][f]);
    }
}

/// Lowering the distance of `u` through edge `e` from `v` keeps the search
/// invariant.
proof fn lemma_g_relax_step(
    g: &Graph,
    dw: Seq<Seq<i64>>,
    start: int,
    v: int,
    k: int,
    heap1: Multiset<Entry>,
    dist1: Seq<i64>,
    par1: Seq<usize>,
    stamp1: Seq<nat>,
    cnt1: nat,
)
    requires
        g_search_inv(g, dw, start, heap1, dist1, par1, stamp1, cnt1),
        g.points@.len() < 0x4000_0000_0000_0000,
        0 <= v < g.points@.len(),
        0 <= k < g.adj@[v]@.len(),
        ({
            let e = g.adj@[v]@[k] as int;
            dist1[other(g.edges@[e], v)] > dist1[v] + dw[v][e]
        }),
        forall|x: int| 0 <= x < g.points@.len() && x != v ==> #[trigger] g_queued_or_settled(g, dw, heap1, dist1, x),
        forall|j: int| 0 <= j < k ==> #[trigger] g_relaxed_k(g, dw, dist1, v, j),
    ensures
        ({
            let e = g.adj@[v]@[k] as int;
            let u = other(g.edges@[e], v);
            let nd = (dist1[v] + dw[v][e]) as i64;
            let heap2 = heap1.insert(g_entry(u, nd));
            let dist2 = dist1.update(u, nd);
            let par2 = par1.update(u, e as usize);
            let stamp2 = stamp1.update(u, cnt1);
            &&& 0 <= u < g.points@.len()
            &&& u != v
            &&& g_search_inv(g, dw, start, heap2, dist2, par2, stamp2, cnt1 + 1)
            &&& dist2[v] == dist1[v]
            &&& forall|x: int|
                0 <= x < g.points@.len() && x != v ==> #[trigger] g_queued_or_settled(g, dw, heap2, dist2, x)
            &&& forall|j: int| 0 <= j <= k ==> #[trigger] g_relaxed_k(g, dw, dist2, v, j)
            &&& total(dist2) < total(dist1)
        }),
{
    broadcast use vstd::multiset::group_multiset_axioms;
    let n = g.points@.len() as int;
    let e = g.adj@[v]@[k] as int;
    assert(0 <= e < g.edges@.len());
    let ed = g.edges@[e];
    let u = other(ed, v);
    let nd = (dist1[v] + dw[v][e]) as i64;
    let heap2 = heap1.insert(g_entry(u, nd));
    let dist2 = dist1.update(u, nd);
    let par2 = par1.update(u, e as usize);
    let stamp2 = stamp1.update(u, cnt1);
    lemma_total_update(dist1, u, nd);
    assert forall|x: Entry| #[trigger] heap2.count(x) > 0 implies g_entry_ok(n, dist2, x) by {
        if x != g_entry(u, nd) {
            assert(heap1.count(x) > 0);
        }
    }
    assert forall|y: int| 0 <= y < n && y != start && dist2[y] < INF implies #[trigger] par2[y] != NA by {
    }
    assert forall|y: int| 0 <= y < n implies #[trigger] g_parent_le(g, dw, dist2, par2, y) by {
        if y != u {
            assert(g_parent_le(g, dw, dist1, par1, y));
        }
    }
    assert forall|y: int| 0 <= y < n implies #[trigger] g_parent_ranked(g, dist2, par2, stamp2, y) by {
        if y != u {
            assert(g_parent_ranked(g, dist1, par1, stamp1, y));
            assert(g_parent_le(g, dw, dist1, par1, y));
        }
    }
    assert forall|x: int| 0 <= x < n && x != v implies #[trigger] g_queued_or_settled(g, dw, heap2, dist2, x) by {
        if x != u {
            assert(g_queued_or_settled(g, dw, heap1, dist1, x));
            if g_relaxed(g, dw, dist1, x) {
                assert forall|j: int| 0 <= j < g.adj@[x]@.len() implies #[trigger] g_relaxed_k(g, dw, dist2, x, j) by {
                    assert(g_relaxed_k(g, dw, dist1, x, j));
                    let e2 = g.adj@[x]@[j] as int;
                    assert(0 <= e2 < g.edges@.len());
                }
            }
        }
    }
    assert forall|j: int| 0 <= j <= k implies #[trigger] g_relaxed_k(g, dw, dist2, v, j) by {
        if j < k {
            assert(g_relaxed_k(g, dw, dist1, v, j));
            let e2 = g.adj@[v]@[j] as int;
            assert(0 <= e2 < g.edges@.len());
        }
    }
}

/// `dist` and `par_edge` hold the least walk weights from `start` and a
/// tree of edges that realizes them.
pub open spec fn g_shortest_tree(g: &Graph, dw: Seq<Seq<i64>>, start: int, dist: Seq<i64>, par: Seq<usize>) -> bool {
    let n = g.points@.len() as int;
    &&& dist.len() == n
    &&& par.len() == n
    &&& dist[start] == 0
    &&& par[start] == NA
    &&& forall|v: int| 0 <= v < n ==> 0 <= #[trigger] dist[v] <= INF
    &&& forall|v: int| 0 <= v < n ==> #[trigger] g_relaxed(g, dw, dist, v)
    &&& forall|v: int| 0 <= v < n && v != start && dist[v] < INF ==> #[trigger] par[v] != NA
    &&& forall|v: int|
        0 <= v < n && #[trigger] par[v] != NA ==> {
            let e = par[v] as int;
            let u = other(g.edges@[e], v);
            &&& 0 <= e < g.edges@.len()
            &&& (g.edges@[e].u == v || g.edges@[e].v == v)
            &&& dist[v] == dist[u] + dw[u][e]
        }
    &&& exists|stamp: Seq<nat>| #[trigger] g_ranked_by(g, dist, par, stamp)
}

/// Following `par` goes strictly down in (distance, stamp) order.
pub open spec fn g_ranked_by(g: &Graph, dist: Seq<i64>, par: Seq<usize>, stamp: Seq<nat>) -> bool {
    &&& stamp.len() == g.points@.len()
    &&& forall|v: int| 0 <= v < g.points@.len() ==> #[trigger] g_parent_ranked(g, dist, par, stamp, v)
}

/// Number of the first `k` edges listed at `v` that are not marked in
/// `used`.
pub open spec fn unused_at(g: &Graph, used: Seq<bool>, v: int, k: int) -> nat
    decreases k,
{
    if k <= 0 {
        0
    } else {
        unused_at(g, used, v, k - 1) + if used[g.adj@[v]@[k - 1] as int] {
            0nat
        } else {
            1nat
        }
    }
}

/// Number of draws a search makes: one per unused edge listed at each of
/// the first `k` points that it reaches (distance below `INF`).
pub open spec fn draw_count(g: &Graph, used: Seq<bool>, dist: Seq<i64>, k: int) -> nat
    decreases k,
{
    if k <= 0 {
        0
    } else {
        draw_count(g, used, dist, k - 1) + if dist[k - 1] < INF {
            unused_at(g, used, k - 1, g.adj@[k - 1]@.len() as int)
        } else {
            0nat
        }
    }
}

/// Number of draws made at the points among the first `k` marked in
/// `settled`.
pub open spec fn settled_draws(g: &Graph, used: Seq<bool>, settled: Seq<bool>, k: int) -> nat
    decreases k,
{
    if k <= 0 {
        0
    } else {
        settled_draws(g, used, settled, k - 1) + if settled[k - 1] {
            unused_at(g, used, k - 1, g.adj@[k - 1]@.len() as int)
        } else {
            0nat
        }
    }
}

proof fn lemma_settled_draws_update(g: &Graph, used: Seq<bool>, settled: Seq<bool>, v: int, k: int)
    requires
        0 <= v < settled.len(),
        k <= settled.len(),
        !settled[v],
    ensures
        settled_draws(g, used, settled.update(v, true), k) == settled_draws(g, used, settled, k) + if v < k {
            unused_at(g, used, v, g.adj@[v]@.len() as int)
        } else {
            0nat
        },
    decreases k,
{
    if k > 0 {
        lemma_settled_draws_update(g, used, settled, v, k - 1);
    }
}

proof fn lemma_settled_draws_reached(g: &Graph, used: Seq<bool>, settled: Seq<bool>, dist: Seq<i64>, k: int)
    requires
        k <= settled.len(),
        k <= dist.len(),
        forall|x: int| 0 <= x < k ==> (#[trigger] settled[x] <==> dist[x] < INF),
    ensures
        settled_draws(g, used, settled, k) == draw_count(g, used, dist, k),
    decreases k,
{
    if k > 0 {
        lemma_settled_draws_reached(g, used, settled, dist, k - 1);
        assert(settled[k - 1] <==> dist[k - 1] < INF);
    }
}

proof fn lemma_settled_draws_none(g: &Graph, used: Seq<bool>, n: nat, k: int)
    requires
        k <= n,
    ensures
        settled_draws(g, used, Seq::new(n, |j: int| false), k) == 0,
    decreases k,
{
    if k > 0 {
        lemma_settled_draws_none(g, used, n, k - 1);
    }
}

proof fn lemma_prefix_contains_grow(s: Seq<usize>, k: int, x: usize)
    requires
        0 <= k < s.len(),
        s.subrange(0, k).contains(x),
    ensures
        s.subrange(0, k + 1).contains(x),
{
    let j = choose|j: int| 0 <= j < k && s.subrange(0, k)[j] == x;
    assert(s.subrange(0, k + 1)[j] == x);
}

impl Graph {
    /// Least walk weights from point `start`, with the edge each point is
    /// best reached by (`NA` for the start and for points never reached).
    /// Whenever the search leaves a point along an edge it weighs the edge
    /// afresh: nothing for an edge marked in `used`, and otherwise `base[e]`
    /// plus a number drawn from `rng` in `0 ..= base[e] / 10`.  The result is
    /// a shortest-walk tree under the weights so drawn, whatever they are.
    pub fn dijkstra(&self, start: usize, used: &Vec<bool>, base: &Vec<i64>, rng: &mut Xorshift) -> (r: (
        Vec<i64>,
        Vec<usize>,
    ))
        requires
            self.graph_ok(),
            base_ok(self, used@, base@),
            start < self.points@.len(),
            self.points@.len() < 0x4000_0000_0000_0000,
        ensures
            exists|dw: Seq<Seq<i64>>|
                drawn_ok(self, used@, base@, dw) && #[trigger] g_shortest_tree(self, dw, start as int, r.0@, r.1@),
            final(rng).s == advance(old(rng).s, draw_count(self, used@, r.0@, self.points@.len() as int)),
    {
        broadcast use vstd::multiset::group_multiset_axioms;
        let n = self.points.len();
        let ghost m = self.edges@.len();
        let ghost s0 = rng.s;
        let ghost mut ndraw: nat = 0;
        let ghost mut dw: Seq<Seq<i64>> = Seq::new(
            n as nat,
            |v: int| Seq::new(m, |e: int| if used@[e] { 0i64 } else { base@[e] }),
        );
        let mut dist: Vec<i64> = Vec::new();
        let mut par_edge: Vec<usize> = Vec::new();
        let mut i: usize = 0;
        while i < n
            invariant
                n == self.points@.len(),
                i <= n,
                dist@ == Seq::new(i as nat, |j: int| INF),
                par_edge@ == Seq::new(i as nat, |j: int| NA),
            decreases n - i,
        {
            dist.push(INF);
            par_edge.push(NA);
            i = i + 1;
        }
        let mut heap = MinHeap::new();
        dist.set(start, 0);
        heap.push((0, 0, start as i64));
        let ghost mut stamp: Seq<nat> = Seq::new(n as nat, |j: int| 0nat);
        let ghost mut cnt: nat = 1;
        let ghost mut settled: Seq<bool> = Seq::new(n as nat, |j: int| false);
        let ghost mut last: i64 = 0;
        proof {
            assert(drawn_ok(self, used@, base@, dw));
            lemma_drawn_weights_ok(self, used@, base@, dw);
            assert forall|x: int| 0 <= x < n implies #[trigger] g_queued_or_settled(self, dw, heap@, dist@, x) by {
                if x != start {
                    assert forall|j: int| 0 <= j < self.adj@[x]@.len() implies #[trigger] g_relaxed_k(
                        self,
                        dw,
                        dist@,
                        x,
                        j,
                    ) by {
                        let e = self.adj@[x]@[j] as int;
                        assert(0 <= e < self.edges@.len());
                        assert(dw[x][e] >= 0);
                    }
                } else {
                    assert(heap@.count(g_entry(start as int, 0)) > 0);
                }
            }
            assert forall|x: int| 0 <= x < n implies #[trigger] heap@.count(g_entry(x, dist@[x])) <= 1 by {
                if x != start {
                    assert(g_entry(x, dist@[x]) != (0i64, 0i64, start as i64));
                }
            }
            assert(rng.s == advance(s0, ndraw));
            lemma_settled_draws_none(self, used@, n as nat, n as int);
            assert forall|x: int| 0 <= x < n && #[trigger] dist@[x] < INF implies settled[x] || heap@.count(
                g_entry(x, dist@[x]),
            ) > 0 by {
                assert(x == start);
            }
        }
        loop
            invariant
                heap.wf(),
                n == self.points@.len(),
                self.points@.len() < 0x4000_0000_0000_0000,
                base_ok(self, used@, base@),
                drawn_ok(self, used@, base@, dw),
                rng.s == advance(s0, ndraw),
                ndraw == settled_draws(self, used@, settled, n as int),
                g_search_inv(self, dw, start as int, heap@, dist@, par_edge@, stamp, cnt),
                g_settle_inv(self, heap@, dist@, par_edge@, settled, last),
                forall|x: int| 0 <= x < n ==> #[trigger] g_queued_or_settled(self, dw, heap@, dist@, x),
            ensures
                drawn_ok(self, used@, base@, dw),
                rng.s == advance(s0, ndraw),
                ndraw == settled_draws(self, used@, settled, n as int),
                settled.len() == n,
                forall|x: int| 0 <= x < n ==> (#[trigger] settled[x] <==> dist@[x] < INF),
                g_search_inv(self, dw, start as int, heap@, dist@, par_edge@, stamp, cnt),
                forall|x: int| 0 <= x < n ==> #[trigger] g_relaxed(self, dw, dist@, x),
            decreases total(dist@), heap@.len(),
        {
            let ghost dist0 = dist@;
            let ghost heap0 = heap@;
            let top = heap.pop();
            let (d, _, vv) = match top {
                Some(e) => e,
                None => {
                    proof {
                        assert forall|x: int| 0 <= x < n implies #[trigger] g_relaxed(self, dw, dist@, x) by {
                            assert(g_queued_or_settled(self, dw, heap@, dist@, x));
                        }
                        assert forall|x: int| 0 <= x < n implies (#[trigger] settled[x] <==> dist@[x] < INF) by {
                            assert(heap@.count(g_entry(x, dist@[x])) == 0);
                        }
                    }
                    break;
                },
            };
            proof {
                assert(g_entry_ok(n as int, dist@, (d, 0i64, vv)));
                assert(heap0.count((d, 0i64, vv)) > 0);
                assert(d >= last);
            }
            let v = vv as usize;
            if dist[v] < d {
                proof {
                    assert forall|x: int| 0 <= x < n implies #[trigger] g_queued_or_settled(self, dw, heap@, dist@, x) by {
                        assert(g_queued_or_settled(self, dw, heap0, dist@, x));
                    }
                    assert forall|e: Entry| #[trigger] heap@.count(e) > 0 implies g_entry_ok(n as int, dist@, e)
                        && e.0 >= last by {
                        assert(heap0.count(e) > 0);
                    }
                    assert forall|x: int| 0 <= x < n implies #[trigger] heap@.count(g_entry(x, dist@[x])) <= 1
                        && heap@.count(g_entry(x, dist@[x])) <= heap0.count(g_entry(x, dist@[x])) && heap@.count(
                        g_entry(x, dist@[x]),
                    ) == heap0.count(g_entry(x, dist@[x])) by {
                        assert(heap0.count(g_entry(x, dist@[x])) <= 1);
                        assert(g_entry(x, dist@[x]) != (d, 0i64, vv));
                    }
                    assert forall|e: Entry| #[trigger] heap@.count(e) > 0 implies e.0 < INF by {
                        assert(heap0.count(e) > 0);
                    }
                    assert forall|x: int| 0 <= x < n && #[trigger] dist@[x] < INF implies settled[x] || heap@.count(
                        g_entry(x, dist@[x]),
                    ) > 0 by {
                        assert(heap@.count(g_entry(x, dist@[x])) == heap0.count(g_entry(x, dist@[x])));
                    }
                }
                continue;
            }
            let ghost settled0 = settled;
            let ghost last0 = last;
            proof {
                assert(g_settle_inv(self, heap0, dist@, par_edge@, settled0, last0));
                assert forall|x: int| 0 <= x < n && x != v implies #[trigger] g_queued_or_settled(
                    self,
                    dw,
                    heap@,
                    dist@,
                    x,
                ) by {
                    assert(g_queued_or_settled(self, dw, heap0, dist@, x));
                }
                assert forall|e: Entry| #[trigger] heap@.count(e) > 0 implies g_entry_ok(n as int, dist@, e)
                    && e.0 >= d by {
                    assert(heap0.count(e) > 0);
                    assert(entry_le((d, 0i64, vv), e));
                }
                assert(g_entry(v as int, dist@[v as int]) == (d, 0i64, vv));
                assert(!settled[v as int]) by {
                    if settled[v as int] {
                        assert(heap0.count(g_entry(v as int, dist@[v as int])) == 0);
                    }
                }
                assert(heap0.count(g_entry(v as int, dist@[v as int])) <= 1);
                assert(heap@.count(g_entry(v as int, dist@[v as int])) == 0);
                assert forall|x: int| 0 <= x < n implies #[trigger] heap@.count(g_entry(x, dist@[x])) <= 1
                    && heap@.count(g_entry(x, dist@[x])) <= heap0.count(g_entry(x, dist@[x])) by {
                    assert(heap0.count(g_entry(x, dist@[x])) <= 1);
                }
                assert forall|e: Entry| #[trigger] heap@.count(e) > 0 implies e.0 < INF by {
                    assert(heap0.count(e) > 0);
                }
                assert(d < INF);
                assert forall|x: int| 0 <= x < n && x != v && #[trigger] dist@[x] < INF implies settled0[x]
                    || heap@.count(g_entry(x, dist@[x])) > 0 by {
                    assert(g_entry(x, dist@[x]) != (d, 0i64, vv));
                }
                settled = settled.update(v as int, true);
                last = d;
                assert forall|x: int| 0 <= x < n && #[trigger] settled[x] implies dist@[x] <= last && heap@.count(
                    g_entry(x, dist@[x]),
                ) == 0 by {
                    if x != v {
                        assert(settled0[x]);
                    }
                }
                assert forall|x: int| 0 <= x < n && #[trigger] settled[x] implies dist@[x] < INF by {
                    if x != v {
                        assert(settled0[x]);
                    }
                }
                assert forall|x: int| 0 <= x < n && #[trigger] dist@[x] < INF implies settled[x] || heap@.count(
                    g_entry(x, dist@[x]),
                ) > 0 by {
                    if x != v {
                        assert(settled0[x] || heap@.count(g_entry(x, dist@[x])) > 0);
                    }
                }
                assert forall|y: int|
                    0 <= y < n && #[trigger] par_edge@[y] != NA implies settled[other(
                        self.edges@[par_edge@[y] as int],
                        y,
                    )] by {
                    assert(par_edge@[y] != NA);
                    assert(g_parent_le(self, dw, dist@, par_edge@, y));
                    let x = other(self.edges@[par_edge@[y] as int], y);
                    assert(0 <= x < n);
                    assert(settled0[x]);
                }
                assert(g_settle_inv(self, heap@, dist@, par_edge@, settled, last));
                assert forall|y: int|
                    0 <= y < n && #[trigger] par_edge@[y] != NA && other(self.edges@[par_edge@[y] as int], y)
                        == v implies self.adj@[v as int]@.subrange(0, 0).contains(par_edge@[y]) by {
                    assert(settled0[other(self.edges@[par_edge@[y] as int], y)]);
                }
                lemma_total_nonneg(dist@);
            }
            let mut k: usize = 0;
            while k < self.adj[v].len()
                invariant
                    v < n,
                    heap.wf(),
                    n == self.points@.len(),
                    self.points@.len() < 0x4000_0000_0000_0000,
                    base_ok(self, used@, base@),
                    drawn_ok(self, used@, base@, dw),
                    rng.s == advance(s0, ndraw),
                    settled0.len() == n,
                    !settled0[v as int],
                    settled == settled0.update(v as int, true),
                    ndraw == settled_draws(self, used@, settled0, n as int) + unused_at(self, used@, v as int, k as int),
                    k <= self.adj@[v as int]@.len(),
                    g_search_inv(self, dw, start as int, heap@, dist@, par_edge@, stamp, cnt),
                    g_settle_inv(self, heap@, dist@, par_edge@, settled, last),
                    settled[v as int],
                    last == d,
                    dist@[v as int] == d,
                    forall|y: int|
                        0 <= y < n && #[trigger] par_edge@[y] != NA && other(self.edges@[par_edge@[y] as int], y)
                            == v ==> self.adj@[v as int]@.subrange(0, k as int).contains(par_edge@[y]),
                    forall|x: int|
                        0 <= x < n && x != v ==> #[trigger] g_queued_or_settled(self, dw, heap@, dist@, x),
                    forall|j: int| 0 <= j < k ==> #[trigger] g_relaxed_k(self, dw, dist@, v as int, j),
                    total(dist@) <= total(dist0),
                    total(dist@) < total(dist0) || heap@.len() == heap0.len() - 1,
                decreases self.adj@[v as int]@.len() - k,
            {
                let edge_index = self.adj[v][k];
                proof {
                    assert(edge_index < self.edges@.len());
                }
                let weight: i64 = if used[edge_index] {
                    0
                } else {
                    let b = base[edge_index];
                    let r = gen_range(rng, 0, b as usize / 10 + 1);
                    proof {
                        assert(0 <= b);
                        assert((b as usize) <= b) by (bit_vector)
                            requires
                                0 <= b,
                        ;
                        assert(r <= b / 10);
                        ndraw = ndraw + 1;
                    }
                    b + r as i64
                };
                proof {
                    assert(rng.s == advance(s0, ndraw));
                    assert(unused_at(self, used@, v as int, k + 1) == unused_at(self, used@, v as int, k as int) + if used@[edge_index as int] {
                        0nat
                    } else {
                        1nat
                    });
                    let ghost dw0 = dw;
                    lemma_g_redraw(self, dw0, start as int, v as int, k as int, weight, heap@, dist@, par_edge@, stamp, cnt);
                    dw = dw0.update(v as int, dw0[v as int].update(edge_index as int, weight));
                    assert forall|x: int, e: int|
                        0 <= x < dw.len() && 0 <= e < self.edges@.len() implies (if used@[e] {
                        #[trigger] dw[x][e] == 0
                    } else {
                        base@[e] <= dw[x][e] <= base@[e] + base@[e] / 10
                    }) by {
                        if x != v || e != edge_index {
                            assert(dw[x][e] == dw0[x][e]);
                        }
                    }
                    assert(drawn_ok(self, used@, base@, dw));
                }
                let u = self.edges[edge_index].other_point(v);
                if dist[u] <= dist[v] + weight {
                    proof {
                        assert forall|y: int|
                            0 <= y < n && #[trigger] par_edge@[y] != NA && other(
                                self.edges@[par_edge@[y] as int],
                                y,
                            ) == v implies self.adj@[v as int]@.subrange(0, k + 1).contains(par_edge@[y]) by {
                            lemma_prefix_contains_grow(self.adj@[v as int]@, k as int, par_edge@[y]);
                        }
                    }
                    k = k + 1;
                    continue;
                }
                let ghost heap1 = heap@;
                let ghost dist1 = dist@;
                let ghost par1 = par_edge@;
                proof {
                    lemma_g_relax_step(self, dw, start as int, v as int, k as int, heap@, dist@, par_edge@, stamp, cnt);
                    assert(!settled[u as int]) by {
                        if settled[u as int] {
                            assert(dist@[u as int] <= last);
                        }
                    }
                    let ed = self.edges@[edge_index as int];
                    assert(other(ed, u as int) == v as int);
                }
                par_edge.set(u, edge_index);
                let nd = dist[v] + weight;
                dist.set(u, nd);
                heap.push((nd, 0, u as i64));
                proof {
                    stamp = stamp.update(u as int, cnt);
                    cnt = cnt + 1;
                    assert(heap1.count(g_entry(u as int, nd)) == 0) by {
                        if heap1.count(g_entry(u as int, nd)) > 0 {
                            assert(g_entry_ok(n as int, dist1, g_entry(u as int, nd)));
                        }
                    }
                    assert forall|e: Entry| #[trigger] heap@.count(e) > 0 implies e.0 >= last && e.0 < INF by {
                        if e != g_entry(u as int, nd) {
                            assert(heap1.count(e) > 0);
                        }
                    }
                    assert forall|x: int| 0 <= x < n && #[trigger] settled[x] implies dist@[x] < INF by {
                        assert(x != u);
                    }
                    assert forall|x: int| 0 <= x < n && #[trigger] dist@[x] < INF implies settled[x] || heap@.count(
                        g_entry(x, dist@[x]),
                    ) > 0 by {
                        if x != u {
                            assert(dist1[x] < INF);
                            assert(settled[x] || heap1.count(g_entry(x, dist1[x])) > 0);
                        }
                    }
                    assert forall|x: int| 0 <= x < n && #[trigger] settled[x] implies dist@[x] <= last
                        && heap@.count(g_entry(x, dist@[x])) == 0 by {
                        assert(x != u);
                        assert(g_entry(x, dist@[x]) != g_entry(u as int, nd));
                    }
                    assert forall|x: int| 0 <= x < n implies #[trigger] heap@.count(g_entry(x, dist@[x])) <= 1 by {
                        if x != u {
                            assert(g_entry(x, dist@[x]) != g_entry(u as int, nd));
                            assert(heap1.count(g_entry(x, dist1[x])) <= 1);
                        }
                    }
                    assert forall|y: int|
                        0 <= y < n && #[trigger] par_edge@[y] != NA implies settled[other(
                            self.edges@[par_edge@[y] as int],
                            y,
                        )] by {
                        if y != u {
                            assert(par1[y] != NA);
                        }
                    }
                    assert(g_settle_inv(self, heap@, dist@, par_edge@, settled, last));
                    assert forall|y: int|
                        0 <= y < n && #[trigger] par_edge@[y] != NA && other(
                            self.edges@[par_edge@[y] as int],
                            y,
                        ) == v implies self.adj@[v as int]@.subrange(0, k + 1).contains(par_edge@[y]) by {
                        if y != u {
                            assert(par1[y] != NA);
                            lemma_prefix_contains_grow(self.adj@[v as int]@, k as int, par_edge@[y]);
                        } else {
                            assert(self.adj@[v as int]@.subrange(0, k + 1)[k as int] == edge_index);
                        }
                    }
                }
                k = k + 1;
            }
            proof {
                lemma_settled_draws_update(self, used@, settled0, v as int, n as int);
                assert forall|x: int| 0 <= x < n implies #[trigger] g_queued_or_settled(self, dw, heap@, dist@, x) by {
                    if x == v {
                        assert forall|j: int| 0 <= j < self.adj@[x]@.len() implies #[trigger] g_relaxed_k(
                            self,
                            dw,
                            dist@,
                            x,
                            j,
                        ) by {
                        }
                    }
                }
                lemma_total_nonneg(dist@);
            }
        }
        proof {
            assert forall|x: int| 0 <= x < n && #[trigger] par_edge@[x] != NA implies {
                let e = par_edge@[x] as int;
                let u = other(self.edges@[e], x);
                &&& 0 <= e < self.edges@.len()
                &&& (self.edges@[e].u == x || self.edges@[e].v == x)
                &&& dist@[x] == dist@[u] + dw[u][e]
            } by {
                assert(g_parent_le(self, dw, dist@, par_edge@, x));
                let e = par_edge@[x] as int;
                let u = other(self.edges@[e], x);
                assert(self.adj@[u]@.contains(e as usize));
                let j = choose|j: int| 0 <= j < self.adj@[u]@.len() && self.adj@[u]@[j] == e as usize;
                assert(g_relaxed(self, dw, dist@, u));
                assert(g_relaxed_k(self, dw, dist@, u, j));
            }
            assert(g_ranked_by(self, dist@, par_edge@, stamp));
            assert(g_shortest_tree(self, dw, start as int, dist@, par_edge@));
        }
        let r = (dist, par_edge);
        proof {
            assert(drawn_ok(self, used@, base@, dw) && g_shortest_tree(self, dw, start as int, r.0@, r.1@));
            lemma_settled_draws_reached(self, used@, settled, r.0@, n as int);
        }
        r
    }
}

/// The point reached from `start` by following the edges `es`, or `None`
/// when some edge does not touch the point reached so far.
pub open spec fn walk_end(g: &Graph, start: int, es: Seq<usize>) -> Option<int>
    decreases es.len(),
{
    if es.len() == 0 {
        Some(start)
    } else if 0 <= es[0] < g.edges@.len() && (g.edges@[es[0] as int].u == start || g.edges@[es[0] as int].v
        == start) {
        walk_end(g, other(g.edges@[es[0] as int], start), es.drop_first())
    } else {
        None
    }
}

/// The points visited from `start` following the edges `es`, `start`
/// included.
pub open spec fn walk_points(g: &Graph, start: int, es: Seq<usize>) -> Seq<int>
    decreases es.len(),
{
    if es.len() == 0 {
        seq![start]
    } else {
        seq![start] + walk_points(g, other(g.edges@[es[0] as int], start), es.drop_first())
    }
}

/// `(dist, stamp)` of `a` is at most that of `b`.
pub open spec fn rank_le(dist: Seq<i64>, stamp: Seq<nat>, a: int, b: int) -> bool {
    dist[a] < dist[b] || (dist[a] == dist[b] && stamp[a] <= stamp[b])
}


proof fn lemma_edge_cost_bound(graph: &Graph, state: &State, e: int, c: int)
    requires
        graph.points_ok(),
        graph.edges_ok(),
        damage_ok(state),
        0 <= c <= MAX_C,
        0 <= e < graph.edges@.len(),
    ensures
        0 <= edge_cost(graph, state, e, c) <= (MAX_DAMAGE + MAX_C) * 398,
{
    let ed = graph.edges@[e];
    let pu = graph.points@[ed.u as int];
    let pv = graph.points@[ed.v as int];
    assert(pu.valid());
    assert(pv.valid());
    lemma_idx_bounds(pu);
    lemma_idx_bounds(pv);
    let h = (point_hardness(state, pu) + point_hardness(state, pv)) / 2 + c;
    let d = manhattan(pu, pv);
    assert(0 <= d <= 398);
    assert(0 <= h <= MAX_DAMAGE + MAX_C);
    assert(0 <= h * d <= (MAX_DAMAGE + MAX_C) * 398) by (nonlinear_arith)
        requires
            0 <= d <= 398,
            0 <= h <= MAX_DAMAGE + MAX_C,
    ;
}

/// Total weight of the edges `es` walked from `start`, each edge weighing
/// what it weighs when left from the point the walk has reached.
pub open spec fn walk_weight(g: &Graph, dw: Seq<Seq<i64>>, start: int, es: Seq<usize>) -> int
    decreases es.len(),
{
    if es.len() == 0 {
        0
    } else {
        dw[start][es[0] as int] + walk_weight(g, dw, other(g.edges@[es[0] as int], start), es.drop_first())
    }
}

/// Relaxed distances never exceed the weight of an edge walk.
proof fn lemma_g_walk_lower_bound(g: &Graph, dw: Seq<Seq<i64>>, dist: Seq<i64>, start: int, es: Seq<usize>)
    requires
        g.graph_ok(),
        dist.len() == g.points@.len(),
        0 <= start < g.points@.len(),
        walk_end(g, start, es) is Some,
        forall|v: int| 0 <= v < g.points@.len() ==> #[trigger] g_relaxed(g, dw, dist, v),
    ensures
        0 <= walk_end(g, start, es).unwrap() < g.points@.len(),
        dist[walk_end(g, start, es).unwrap()] <= dist[start] + walk_weight(g, dw, start, es),
    decreases es.len(),
{
    if es.len() > 0 {
        let e = es[0] as int;
        let ed = g.edges@[e];
        let u = other(ed, start);
        assert(ed.u < g.points@.len() && ed.v < g.points@.len());
        lemma_g_walk_lower_bound(g, dw, dist, u, es.drop_first());
        assert(g.adj@[start]@.contains(e as usize));
        let j = choose|j: int| 0 <= j < g.adj@[start]@.len() && g.adj@[start]@[j] == e as usize;
        assert(g_relaxed(g, dw, dist, start));
        assert(g_relaxed_k(g, dw, dist, start, j));
    }
}

/// The cost of each edge, as an `i64`.
pub open spec fn edge_costs(a: &AnnealingState, c: int) -> Seq<i64> {
    Seq::new(a.graph.edges@.len(), |e: int| edge_cost(&a.graph, &a.state, e, c) as i64)
}

/// The edge route held by `r`, if any.
pub open spec fn route_of(r: Option<Vec<usize>>) -> Option<Seq<usize>> {
    match r {
        Some(p) => Some(p@),
        None => None,
    }
}

impl AnnealingState {
    /// The point indices of the sources are points of the graph.
    pub open spec fn sources_ok(&self) -> bool {
        forall|i: int| 0 <= i < self.source@.len() ==> #[trigger] self.source@[i] < self.graph.points@.len()
    }

    /// `r` answers a search from point `start` with the edges marked in
    /// `used` in use, under search weights `dw` drawn from the edges' costs
    /// (see `drawn_ok`): `None` exactly when there is no source or every
    /// walk to a source weighs at least `INF`; otherwise a lightest walk to
    /// a source that visits no point twice and, among sources at equal
    /// weight, ends at the one listed first.
    pub open spec fn answers(&self, c: int, used: Seq<bool>, start: int, dw: Seq<Seq<i64>>, r: Option<Seq<usize>>) -> bool {
        let g = &self.graph;
        &&& drawn_ok(g, used, edge_costs(self, c), dw)
        &&& r is None <==> (self.source@.len() == 0 || forall|es: Seq<usize>|
            #[trigger] self.leads_to_source(start, es) ==> walk_weight(g, dw, start, es) >= INF)
        &&& r matches Some(path) ==> {
            &&& self.leads_to_source(start, path)
            &&& walk_points(g, start, path).no_duplicates()
            &&& forall|es: Seq<usize>| #[trigger] self.leads_to_source(start, es) ==> walk_weight(g, dw, start, path)
                <= walk_weight(g, dw, start, es)
            &&& exists|b: int|
                0 <= b < self.source@.len() && walk_end(g, start, path) == Some(self.source@[b] as int) && forall|
                    j: int,
                    es: Seq<usize>,
                |
                    0 <= j < b && #[trigger] walk_end(g, start, es) == Some(#[trigger] self.source@[j] as int)
                        ==> walk_weight(g, dw, start, path) < walk_weight(g, dw, start, es)
        }
    }

    /// A search from `start`, with the edges of `used` in use, ran this way:
    /// it drew the weights `dw` and answered `r` (see `answers`), found the
    /// least walk weights `dist` with the tree of edges `par`, and moved the
    /// generator from `s0` to `s1`, one draw per unused edge listed at each
    /// point it reached.
    pub open spec fn search_ran(
        &self,
        c: int,
        used: Seq<bool>,
        start: int,
        s0: u64,
        s1: u64,
        dw: Seq<Seq<i64>>,
        dist: Seq<i64>,
        par: Seq<usize>,
        r: Option<Seq<usize>>,
    ) -> bool {
        &&& self.answers(c, used, start, dw, r)
        &&& g_shortest_tree(&self.graph, dw, start, dist, par)
        &&& s1 == advance(s0, draw_count(&self.graph, used, dist, self.graph.points@.len() as int))
    }

    /// A lightest edge walk from point `point_idx` to a source, the search
    /// weighing an edge afresh each time it leaves a point along it: nothing
    /// for an edge in use, and otherwise its cost plus a random amount of at
    /// most a tenth of it.  Among sources at equal weight the one listed
    /// first is taken.  `None` when there is no source or every walk to a
    /// source weighs at least `INF` (see `answers`).  The generator moves on
    /// once per draw (see `search_ran`).
    pub fn find_path_to_source(&self, point_idx: usize, c: i64, rng: &mut Xorshift) -> (r: Option<Vec<usize>>)
        requires
            self.graph.points_ok(),
            self.graph.graph_ok(),
            damage_ok(&self.state),
            0 <= c <= MAX_C,
            self.edge_used@.len() == self.graph.edges@.len(),
            self.sources_ok(),
            point_idx < self.graph.points@.len(),
            self.graph.points@.len() < 0x4000_0000_0000_0000,
        ensures
            exists|dw: Seq<Seq<i64>>, dist: Seq<i64>, par: Seq<usize>|
                #[trigger] self.search_ran(
                    c as int,
                    self.edge_used@,
                    point_idx as int,
                    old(rng).s,
                    final(rng).s,
                    dw,
                    dist,
                    par,
                    route_of(r),
                ),
    {
        let m = self.edge_used.len();
        let mut base: Vec<i64> = Vec::new();
        let mut e: usize = 0;
        while e < m
            invariant
                self.graph.points_ok(),
                self.graph.edges_ok(),
                damage_ok(&self.state),
                0 <= c <= MAX_C,
                m == self.graph.edges@.len(),
                e <= m,
                base@ == edge_costs(self, c as int).take(e as int),
                forall|x: int| 0 <= x < e ==> 0 <= #[trigger] base@[x] && base@[x] + base@[x] / 10 <= MAX_EDGE_WEIGHT,
            decreases m - e,
        {
            let w = self.edge_weight(e, c);
            proof {
                lemma_edge_cost_bound(&self.graph, &self.state, e as int, c as int);
            }
            base.push(w);
            proof {
                assert(base@ =~= edge_costs(self, c as int).take(e + 1));
            }
            e = e + 1;
        }
        proof {
            assert(base@ =~= edge_costs(self, c as int));
        }
        let (dist, par_edge) = self.graph.dijkstra(point_idx, &self.edge_used, &base, rng);
        let ghost dw = choose|dw: Seq<Seq<i64>>|
            drawn_ok(&self.graph, self.edge_used@, base@, dw) && #[trigger] g_shortest_tree(
                &self.graph,
                dw,
                point_idx as int,
                dist@,
                par_edge@,
            );
        let ghost d = dist@;
        if self.source.len() == 0 {
            proof {
                assert(self.search_ran(
                    c as int,
                    self.edge_used@,
                    point_idx as int,
                    old(rng).s,
                    rng.s,
                    dw,
                    dist@,
                    par_edge@,
                    route_of(None),
                ));
            }
            return None;
        }
        let mut best: usize = self.source[0];
        let ghost mut bi: int = 0;
        let mut i: usize = 0;
        while i < self.source.len()
            invariant
                dist@ == d,
                self.sources_ok(),
                d.len() == self.graph.points@.len(),
                i <= self.source@.len(),
                self.source@.len() > 0,
                self.source@.contains(best),
                best < self.graph.points@.len(),
                forall|j: int| 0 <= j < i ==> d[best as int] <= d[#[trigger] self.source@[j] as int],
                0 <= bi < self.source@.len(),
                bi <= i,
                self.source@[bi] == best,
                forall|j: int| 0 <= j < bi ==> d[best as int] < d[#[trigger] self.source@[j] as int],
            decreases self.source@.len() - i,
        {
            if dist[self.source[i]] < dist[best] {
                best = self.source[i];
                proof {
                    bi = i as int;
                }
            }
            i = i + 1;
        }
        proof {
            assert forall|es: Seq<usize>| #[trigger] self.leads_to_source(point_idx as int, es) implies d[best as int]
                <= walk_weight(&self.graph, dw, point_idx as int, es) by {
                lemma_g_walk_lower_bound(&self.graph, dw, d, point_idx as int, es);
                let end = walk_end(&self.graph, point_idx as int, es).unwrap();
                let j = choose|j: int| 0 <= j < self.source@.len() && self.source@[j] == end as usize;
                assert(d[best as int] <= d[self.source@[j] as int]);
            }
        }
        if dist[best] >= INF {
            proof {
                assert(self.search_ran(
                    c as int,
                    self.edge_used@,
                    point_idx as int,
                    old(rng).s,
                    rng.s,
                    dw,
                    dist@,
                    par_edge@,
                    route_of(None),
                ));
            }
            return None;
        }
        let ghost stamp = choose|stamp: Seq<nat>| #[trigger] g_ranked_by(&self.graph, d, par_edge@, stamp);
        let mut cur = best;
        let mut rev: Vec<usize> = Vec::new();
        let ghost mut fw: Seq<usize> = Seq::empty();
        while cur != point_idx
            invariant
                dist@ == d,
                g_shortest_tree(&self.graph, dw, point_idx as int, d, par_edge@),
                self.graph.graph_ok(),
                stamp.len() == self.graph.points@.len(),
                forall|v: int| 0 <= v < self.graph.points@.len() ==> #[trigger] g_parent_ranked(&self.graph, d, par_edge@, stamp, v),
                cur < self.graph.points@.len(),
                d[best as int] < INF,
                d[cur as int] <= d[best as int],
                walk_end(&self.graph, cur as int, fw) == Some(best as int),
                walk_weight(&self.graph, dw, cur as int, fw) == d[best as int] - d[cur as int],
                fw == rev@.reverse(),
                walk_points(&self.graph, cur as int, fw).no_duplicates(),
                forall|k: int| 0 <= k < walk_points(&self.graph, cur as int, fw).len() ==> rank_le(
                    d,
                    stamp,
                    cur as int,
                    #[trigger] walk_points(&self.graph, cur as int, fw)[k],
                ),
            decreases d[cur as int], stamp[cur as int],
        {
            let e = par_edge[cur];
            let ghost old_fw = fw;
            proof {
                assert(par_edge@[cur as int] != NA);
                assert(g_parent_ranked(&self.graph, d, par_edge@, stamp, cur as int));
                assert(self.graph.edges@[e as int].u < self.graph.points@.len());
            }
            let u = self.graph.edges[e].other_point(cur);
            rev.push(e);
            proof {
                fw = seq![e] + old_fw;
                assert(fw.drop_first() =~= old_fw);
                assert(fw =~= rev@.reverse());
                assert(other(self.graph.edges@[e as int], u as int) == cur as int);
                let wp0 = walk_points(&self.graph, cur as int, old_fw);
                let wp = walk_points(&self.graph, u as int, fw);
                assert(fw[0] == e);
                assert(wp == seq![u as int] + wp0);
                assert forall|k: int| 0 <= k < wp0.len() implies wp0[k] != u as int by {
                    assert(rank_le(d, stamp, cur as int, wp0[k]));
                }
                assert forall|i: int, j: int| 0 <= i < j < wp.len() implies wp[i] != wp[j] by {
                    if i == 0 {
                        assert(wp[j] == wp0[j - 1]);
                    } else {
                        assert(wp[i] == wp0[i - 1] && wp[j] == wp0[j - 1]);
                    }
                }
                assert forall|k: int| 0 <= k < wp.len() implies rank_le(d, stamp, u as int, #[trigger] wp[k]) by {
                    if k > 0 {
                        assert(wp[k] == wp0[k - 1]);
                        assert(rank_le(d, stamp, cur as int, wp0[k - 1]));
                    }
                }
            }
            cur = u;
        }
        let mut edge_path: Vec<usize> = Vec::new();
        let mut k = rev.len();
        while k > 0
            invariant
                k <= rev@.len(),
                edge_path@.len() == rev@.len() - k,
                forall|j: int| 0 <= j < edge_path@.len() ==> edge_path@[j] == rev@[rev@.len() - 1 - j],
            decreases k,
        {
            k = k - 1;
            edge_path.push(rev[k]);
        }
        proof {
            assert(edge_path@ =~= fw);
            assert(self.leads_to_source(point_idx as int, fw));
            assert forall|j: int, es: Seq<usize>|
                0 <= j < bi && #[trigger] walk_end(&self.graph, point_idx as int, es) == Some(
                    #[trigger] self.source@[j] as int,
                ) implies walk_weight(&self.graph, dw, point_idx as int, fw) < walk_weight(
                &self.graph,
                dw,
                point_idx as int,
                es,
            ) by {
                assert(self.source@[j] < self.graph.points@.len());
                lemma_g_walk_lower_bound(&self.graph, dw, d, point_idx as int, es);
                assert(d[best as int] < d[self.source@[j] as int]);
            }
        }
        let r = Some(edge_path);
        proof {
            assert(route_of(r) == Some(fw));
            assert(self.search_ran(
                c as int,
                self.edge_used@,
                point_idx as int,
                old(rng).s,
                rng.s,
                dw,
                dist@,
                par_edge@,
                route_of(r),
            ));
        }
        r
    }
}

/// No two edges join the same pair of points.
pub open spec fn edges_distinct(es: Seq<Edge>) -> bool {
    forall|a: int, b: int| #![trigger es[a], es[b]] 0 <= a < b < es.len() ==> !es[a].same_pair(&es[b])
}

/// Indices, in increasing order, of the edges among the first `k` of `es`
/// that touch point `v`.
pub open spec fn incident_prefix(es: Seq<Edge>, v: int, k: int) -> Seq<usize>
    decreases k,
{
    if k <= 0 {
        seq![]
    } else {
        let prev = incident_prefix(es, v, k - 1);
        if es[k - 1].u == v || es[k - 1].v == v {
            prev.push((k - 1) as usize)
        } else {
            prev
        }
    }
}

/// The edges listed by `incident_prefix` come in strictly increasing
/// order, below `k`.
proof fn lemma_incident_prefix_increasing(es: Seq<Edge>, v: int, k: int)
    requires
        k <= usize::MAX,
    ensures
        forall|i: int, j: int|
            0 <= i < j < incident_prefix(es, v, k).len() ==> #[trigger] incident_prefix(es, v, k)[i]
                < #[trigger] incident_prefix(es, v, k)[j],
        forall|i: int| 0 <= i < incident_prefix(es, v, k).len() ==> #[trigger] incident_prefix(es, v, k)[i] < k,
    decreases k,
{
    if k > 0 {
        lemma_incident_prefix_increasing(es, v, k - 1);
        let prev = incident_prefix(es, v, k - 1);
        let cur = incident_prefix(es, v, k);
        if es[k - 1].u == v || es[k - 1].v == v {
            assert(cur == prev.push((k - 1) as usize));
            assert forall|i: int, j: int| 0 <= i < j < cur.len() implies #[trigger] cur[i] < #[trigger] cur[j] by {
                assert(cur[i] == prev[i]);
                assert(prev[i] < k - 1);
                if j < prev.len() {
                    assert(cur[j] == prev[j]);
                } else {
                    assert(cur[j] == (k - 1) as usize);
                }
            }
            assert forall|i: int| 0 <= i < cur.len() implies #[trigger] cur[i] < k by {
                if i < prev.len() {
                    assert(cur[i] == prev[i]);
                }
            }
        } else {
            assert(cur == prev);
        }
    }
}

proof fn lemma_incident_prefix_same(a: Seq<Edge>, b: Seq<Edge>, v: int, k: int)
    requires
        0 <= k <= a.len(),
        k <= b.len(),
        forall|j: int| 0 <= j < k ==> a[j] == b[j],
    ensures
        incident_prefix(a, v, k) == incident_prefix(b, v, k),
    decreases k,
{
    if k > 0 {
        lemma_incident_prefix_same(a, b, v, k - 1);
    }
}

/// Some edge joins `u` and `v`.
pub open spec fn has_pair(es: Seq<Edge>, u: usize, v: usize) -> bool {
    exists|k: int| 0 <= k < es.len() && (#[trigger] es[k]).same_pair(&Edge { u, v })
}

/// The edge joins two different points at most 80 apart.
pub open spec fn short_edge(points: Seq<Pos>, e: Edge) -> bool {
    &&& e.u < points.len()
    &&& e.v < points.len()
    &&& e.u != e.v
    &&& manhattan(points[e.u as int], points[e.v as int]) <= 80
}

/// `path` goes from point to point along edges of `es`.
pub open spec fn is_chain(es: Seq<Edge>, path: Seq<usize>) -> bool {
    &&& path.len() >= 1
    &&& forall|k: int| 0 <= k < path.len() - 1 ==> #[trigger] has_pair(es, path[k], path[k + 1])
}

/// A chain of edges of `es` leads from `a` to `b`.
pub open spec fn linked(es: Seq<Edge>, a: usize, b: usize) -> bool {
    exists|path: Seq<usize>| #[trigger] is_chain(es, path) && path[0] == a && path.last() == b
}

proof fn lemma_linked_refl(es: Seq<Edge>, a: usize)
    ensures
        linked(es, a, a),
{
    assert(is_chain(es, seq![a]));
}

proof fn lemma_has_pair_symm(es: Seq<Edge>, a: usize, b: usize)
    requires
        has_pair(es, a, b),
    ensures
        has_pair(es, b, a),
{
    let k = choose|k: int| 0 <= k < es.len() && (#[trigger] es[k]).same_pair(&Edge { u: a, v: b });
    assert(es[k].same_pair(&Edge { u: b, v: a }));
}

proof fn lemma_linked_edge(es: Seq<Edge>, a: usize, b: usize)
    requires
        has_pair(es, a, b),
    ensures
        linked(es, a, b),
{
    let p = seq![a, b];
    assert(has_pair(es, p[0], p[1]));
    assert(is_chain(es, p));
}

proof fn lemma_linked_join(es: Seq<Edge>, a: usize, b: usize, c: usize, d: usize)
    requires
        linked(es, a, b),
        has_pair(es, b, c),
        linked(es, c, d),
    ensures
        linked(es, a, d),
{
    let p1 = choose|path: Seq<usize>| #[trigger] is_chain(es, path) && path[0] == a && path.last() == b;
    let p2 = choose|path: Seq<usize>| #[trigger] is_chain(es, path) && path[0] == c && path.last() == d;
    let p = p1 + p2;
    assert forall|k: int| 0 <= k < p.len() - 1 implies #[trigger] has_pair(es, p[k], p[k + 1]) by {
        if k < p1.len() - 1 {
            assert(has_pair(es, p1[k], p1[k + 1]));
        } else if k >= p1.len() {
            let j = k - p1.len();
            assert(has_pair(es, p2[j], p2[j + 1]));
        }
    }
    assert(is_chain(es, p));
}

proof fn lemma_linked_transfer(es1: Seq<Edge>, es2: Seq<Edge>, a: usize, b: usize)
    requires
        linked(es1, a, b),
        forall|x: usize, y: usize| #[trigger] has_pair(es1, x, y) ==> has_pair(es2, x, y),
    ensures
        linked(es2, a, b),
{
    let p = choose|path: Seq<usize>| #[trigger] is_chain(es1, path) && path[0] == a && path.last() == b;
    assert forall|k: int| 0 <= k < p.len() - 1 implies #[trigger] has_pair(es2, p[k], p[k + 1]) by {
        assert(has_pair(es1, p[k], p[k + 1]));
    }
    assert(is_chain(es2, p));
}

proof fn lemma_has_pair_extend(es1: Seq<Edge>, es2: Seq<Edge>)
    requires
        es1.len() <= es2.len(),
        forall|k: int| 0 <= k < es1.len() ==> es2[k] == es1[k],
    ensures
        forall|x: usize, y: usize| #[trigger] has_pair(es1, x, y) ==> has_pair(es2, x, y),
{
    assert forall|x: usize, y: usize| #[trigger] has_pair(es1, x, y) implies has_pair(es2, x, y) by {
        let k = choose|k: int| 0 <= k < es1.len() && (#[trigger] es1[k]).same_pair(&Edge { u: x, v: y });
        assert(es2[k] == es1[k]);
    }
}

/// Some entry of `ps` is the ordered pair `(u, v)`.
pub open spec fn pair_listed(ps: Seq<(i64, usize, usize)>, u: usize, v: usize) -> bool {
    exists|q: int| 0 <= q < ps.len() && (#[trigger] ps[q]).1 == u && ps[q].2 == v
}

proof fn lemma_pair_listed_push(before: Seq<(i64, usize, usize)>, after: Seq<(i64, usize, usize)>)
    requires
        before.len() <= after.len(),
        forall|q: int| 0 <= q < before.len() ==> after[q] == before[q],
    ensures
        forall|u: usize, v: usize| #[trigger] pair_listed(before, u, v) ==> pair_listed(after, u, v),
{
    assert forall|u: usize, v: usize| #[trigger] pair_listed(before, u, v) implies pair_listed(after, u, v) by {
        let q = choose|q: int| 0 <= q < before.len() && (#[trigger] before[q]).1 == u && before[q].2 == v;
        assert(after[q] == before[q]);
    }
}

proof fn lemma_pair_listed_sorted(before: Seq<(i64, usize, usize)>, after: Seq<(i64, usize, usize)>)
    requires
        after.to_multiset() == before.to_multiset(),
    ensures
        forall|u: usize, v: usize| #[trigger] pair_listed(before, u, v) ==> pair_listed(after, u, v),
{
    broadcast use vstd::seq_lib::group_to_multiset_ensures;
    assert forall|u: usize, v: usize| #[trigger] pair_listed(before, u, v) implies pair_listed(after, u, v) by {
        let q = choose|q: int| 0 <= q < before.len() && (#[trigger] before[q]).1 == u && before[q].2 == v;
        let x = before[q];
        assert(before.contains(x));
        assert(after.to_multiset().count(x) > 0);
        assert(after.contains(x));
        let q2 = choose|q2: int| 0 <= q2 < after.len() && after[q2] == x;
        assert(after[q2].1 == u && after[q2].2 == v);
    }
}

/// Every label equal to that of `from` becomes the label of `to`.
pub open spec fn relabel(lab: Seq<usize>, from: int, to: int) -> Seq<usize> {
    Seq::new(lab.len(), |i: int| if lab[i] == lab[from] { lab[to] } else { lab[i] })
}

/// Joining the sets of `su` and `sv` while adding an edge between their
/// points keeps every set linked.
proof fn lemma_kruskal_step(es: Seq<Edge>, near: Seq<usize>, lab: Seq<usize>, su: int, sv: int)
    requires
        lab.len() == near.len(),
        0 <= su < lab.len(),
        0 <= sv < lab.len(),
        forall|x: int, y: int| #![trigger lab[x], lab[y]]
            0 <= x < lab.len() && 0 <= y < lab.len() && lab[x] == lab[y] ==> linked(es, near[x], near[y]),
    ensures
        forall|x: int, y: int| #![trigger relabel(lab, su, sv)[x], relabel(lab, su, sv)[y]]
            0 <= x < lab.len() && 0 <= y < lab.len() && relabel(lab, su, sv)[x] == relabel(lab, su, sv)[y]
                ==> linked(es.push(Edge { u: near[su], v: near[sv] }), near[x], near[y]),
{
    let es2 = es.push(Edge { u: near[su], v: near[sv] });
    let lab2 = relabel(lab, su, sv);
    lemma_has_pair_extend(es, es2);
    assert(es2[es.len() as int].same_pair(&Edge { u: near[su], v: near[sv] }));
    assert(has_pair(es2, near[su], near[sv]));
    assert forall|x: int, y: int| #![trigger lab2[x], lab2[y]]
        0 <= x < lab.len() && 0 <= y < lab.len() && lab2[x] == lab2[y] implies linked(es2, near[x], near[y]) by {
        if lab[x] == lab[su] && lab[y] == lab[su] {
            assert(lab[x] == lab[y]);
            lemma_linked_transfer(es, es2, near[x], near[y]);
        } else if lab[x] != lab[su] && lab[y] != lab[su] {
            assert(lab[x] == lab[y]);
            lemma_linked_transfer(es, es2, near[x], near[y]);
        } else if lab[x] == lab[su] {
            assert(lab[y] == lab[sv]);
            assert(linked(es, near[x], near[su]));
            assert(linked(es, near[sv], near[y]));
            lemma_linked_transfer(es, es2, near[x], near[su]);
            lemma_linked_transfer(es, es2, near[sv], near[y]);
            lemma_linked_join(es2, near[x], near[su], near[sv], near[y]);
        } else {
            assert(lab[x] == lab[sv]);
            assert(linked(es, near[x], near[sv]));
            assert(linked(es, near[su], near[y]));
            lemma_linked_transfer(es, es2, near[x], near[sv]);
            lemma_linked_transfer(es, es2, near[su], near[y]);
            lemma_has_pair_symm(es2, near[su], near[sv]);
            lemma_linked_join(es2, near[x], near[sv], near[su], near[y]);
        }
    }
}

/// Point `i` followed by the points among the first `j` other than `i`
/// within distance 40 of it, in index order.
pub open spec fn near_prefix(points: Seq<Pos>, i: int, j: int) -> Seq<usize>
    decreases j,
{
    if j <= 0 {
        seq![i as usize]
    } else {
        let prev = near_prefix(points, i, j - 1);
        if j - 1 != i && manhattan(points[i], points[j - 1]) <= 40 {
            prev.push((j - 1) as usize)
        } else {
            prev
        }
    }
}

/// Edges from `i` to the points among the first `j` other than `i` within
/// distance 15, in index order.
pub open spec fn short_prefix(points: Seq<Pos>, i: int, j: int) -> Seq<Edge>
    decreases j,
{
    if j <= 0 {
        seq![]
    } else {
        let prev = short_prefix(points, i, j - 1);
        if j - 1 != i && manhattan(points[i], points[j - 1]) <= 15 {
            prev.push(Edge { u: i as usize, v: (j - 1) as usize })
        } else {
            prev
        }
    }
}

/// The ordered pairs `(near[a], near[b])` of distinct points for row `a`
/// and the first `b` columns, with their distances.
pub open spec fn pair_row(points: Seq<Pos>, near: Seq<usize>, a: int, b: int) -> Seq<(i64, usize, usize)>
    decreases b,
{
    if b <= 0 {
        seq![]
    } else {
        let prev = pair_row(points, near, a, b - 1);
        if near[a] != near[b - 1] {
            prev.push((manhattan(points[near[a] as int], points[near[b - 1] as int]) as i64, near[a], near[b - 1]))
        } else {
            prev
        }
    }
}

/// The pairs of the first `a` rows, row by row.
pub open spec fn pair_rows(points: Seq<Pos>, near: Seq<usize>, a: int) -> Seq<(i64, usize, usize)>
    decreases a,
{
    if a <= 0 {
        seq![]
    } else {
        pair_rows(points, near, a - 1) + pair_row(points, near, a - 1, near.len() as int)
    }
}

/// All ordered pairs of distinct points of `near`, row by row.
pub open spec fn pair_list(points: Seq<Pos>, near: Seq<usize>) -> Seq<(i64, usize, usize)> {
    pair_rows(points, near, near.len() as int)
}

/// `sorted` is `s` sorted by distance, pairs at equal distance kept in the
/// order of `s`.
pub open spec fn stably_sorted(s: Seq<(i64, usize, usize)>, sorted: Seq<(i64, usize, usize)>) -> bool {
    &&& sorted_by_first(sorted)
    &&& exists|perm: Seq<int>| #[trigger] reorders(s, sorted, perm) && keeps_ties(sorted, perm)
}

/// Position of point `u` in `near`.
pub open spec fn slot_of(near: Seq<usize>, u: usize) -> int {
    choose|x: int| 0 <= x < near.len() && near[x] == u
}

/// The set labels and the edges Kruskal's method has picked after taking
/// the first `k` pairs of `pairs` over the points `near`.
pub open spec fn kruskal_state(pairs: Seq<(i64, usize, usize)>, near: Seq<usize>, k: int) -> (Seq<usize>, Seq<Edge>)
    decreases k,
{
    if k <= 0 {
        (Seq::new(near.len(), |x: int| x as usize), seq![])
    } else {
        let (lab, es) = kruskal_state(pairs, near, k - 1);
        let p = pairs[k - 1];
        let su = slot_of(near, p.1);
        let sv = slot_of(near, p.2);
        if lab[su] == lab[sv] {
            (lab, es)
        } else {
            (relabel(lab, su, sv), es.push(Edge { u: p.1, v: p.2 }))
        }
    }
}

/// The edges Kruskal's method picks from the pairs in the order given.
pub open spec fn kruskal_picks(pairs: Seq<(i64, usize, usize)>, near: Seq<usize>) -> Seq<Edge> {
    kruskal_state(pairs, near, pairs.len() as int).1
}

/// The edges proposed for the first `i` points, in order: for each point its
/// short edges, then Kruskal's picks over its neighbourhood with the pairs
/// taken in the order `sorted[point]`.
pub open spec fn proposed_edges(points: Seq<Pos>, sorted: Seq<Seq<(i64, usize, usize)>>, i: int) -> Seq<Edge>
    decreases i,
{
    if i <= 0 {
        seq![]
    } else {
        proposed_edges(points, sorted, i - 1) + short_prefix(points, i - 1, points.len() as int)
            + kruskal_picks(sorted[i - 1], near_prefix(points, i - 1, points.len() as int))
    }
}

proof fn lemma_proposed_prefix(points: Seq<Pos>, a: Seq<Seq<(i64, usize, usize)>>, b: Seq<Seq<(i64, usize, usize)>>, i: int)
    requires
        0 <= i <= a.len(),
        i <= b.len(),
        forall|k: int| 0 <= k < i ==> a[k] == b[k],
    ensures
        proposed_edges(points, a, i) == proposed_edges(points, b, i),
    decreases i,
{
    if i > 0 {
        lemma_proposed_prefix(points, a, b, i - 1);
    }
}

/// The pairs of a neighbourhood have one stable order, so rebuilding the
/// edges of the same points proposes the same edges, and with them the same
/// edge list and adjacency lists.
pub proof fn law_rebuild_same(points: Seq<Pos>, s1: Seq<Seq<(i64, usize, usize)>>, s2: Seq<Seq<(i64, usize, usize)>>)
    requires
        s1.len() == points.len(),
        s2.len() == points.len(),
        forall|k: int|
            0 <= k < points.len() ==> #[trigger] stably_sorted(
                pair_list(points, near_prefix(points, k, points.len() as int)),
                s1[k],
            ),
        forall|k: int|
            0 <= k < points.len() ==> #[trigger] stably_sorted(
                pair_list(points, near_prefix(points, k, points.len() as int)),
                s2[k],
            ),
    ensures
        proposed_edges(points, s1, points.len() as int) == proposed_edges(points, s2, points.len() as int),
{
    assert forall|k: int| 0 <= k < points.len() implies s1[k] == s2[k] by {
        let a = pair_list(points, near_prefix(points, k, points.len() as int));
        assert(stably_sorted(a, s1[k]));
        assert(stably_sorted(a, s2[k]));
        let p1 = choose|perm: Seq<int>| #[trigger] reorders(a, s1[k], perm) && keeps_ties(s1[k], perm);
        let p2 = choose|perm: Seq<int>| #[trigger] reorders(a, s2[k], perm) && keeps_ties(s2[k], perm);
        lemma_stable_sort_unique(a, s1[k], s2[k], p1, p2);
    }
    assert(s1 =~= s2);
}

/// The first `k` edges of `es`, each skipped when an earlier kept edge
/// already joins the same two points.
pub open spec fn without_repeats(es: Seq<Edge>, k: int) -> Seq<Edge>
    decreases k,
{
    if k <= 0 {
        seq![]
    } else {
        let prev = without_repeats(es, k - 1);
        if has_pair(prev, es[k - 1].u, es[k - 1].v) {
            prev
        } else {
            prev.push(es[k - 1])
        }
    }
}

/// Whether some edge of `es` joins the same points as `e`.
fn contains_edge(es: &Vec<Edge>, e: &Edge) -> (b: bool)
    ensures
        b == has_pair(es@, e.u, e.v),
{
    let mut k: usize = 0;
    while k < es.len()
        invariant
            k <= es@.len(),
            forall|j: int| 0 <= j < k ==> !(#[trigger] es@[j]).same_pair(&Edge { u: e.u, v: e.v }),
        decreases es@.len() - k,
    {
        if es[k] == *e {
            proof {
                assert(es@[k as int].same_pair(&Edge { u: e.u, v: e.v }));
            }
            return true;
        }
        k = k + 1;
    }
    false
}

proof fn lemma_triangle(a: Pos, s: Pos, b: Pos)
    ensures
        manhattan(a, b) <= manhattan(a, s) + manhattan(s, b),
{
}

impl Graph {
    /// Point `i` followed by every other point within Manhattan distance 40
    /// of it, in index order.
    fn near_points(&self, i: usize) -> (near: Vec<usize>)
        requires
            self.points_ok(),
            i < self.points@.len(),
        ensures
            near@.len() >= 1,
            near@[0] == i,
            near@.no_duplicates(),
            forall|t: int| 0 <= t < near@.len() ==> #[trigger] near@[t] < self.points@.len() && manhattan(
                self.points@[i as int],
                self.points@[near@[t] as int],
            ) <= 40,
            forall|j: int|
                0 <= j < self.points@.len() && manhattan(self.points@[i as int], #[trigger] self.points@[j]) <= 40
                    ==> near@.contains(j as usize),
            near@ == near_prefix(self.points@, i as int, self.points@.len() as int),
    {
        let n = self.points.len();
        let s = self.points[i];
        let mut near: Vec<usize> = Vec::new();
        near.push(i);
        let mut j: usize = 0;
        while j < n
            invariant
                self.points_ok(),
                n == self.points@.len(),
                i < n,
                s == self.points@[i as int],
                j <= n,
                near@.len() >= 1,
                near@[0] == i,
                near@.no_duplicates(),
                forall|t: int| 1 <= t < near@.len() ==> #[trigger] near@[t] < j && near@[t] != i,
                forall|t: int| 0 <= t < near@.len() ==> #[trigger] near@[t] < n && manhattan(s, self.points@[near@[t] as int]) <= 40,
                forall|x: int| 0 <= x < j && manhattan(s, #[trigger] self.points@[x]) <= 40 ==> near@.contains(x as usize),
                near@ == near_prefix(self.points@, i as int, j as int),
            decreases n - j,
        {
            let ghost before = near@;
            if i != j {
                proof {
                    assert(self.points@[i as int].valid());
                    assert(self.points@[j as int].valid());
                }
                if s.dist(&self.points[j]) <= 40 {
                    near.push(j);
                    proof {
                        assert(near@[near@.len() - 1] == j);
                    }
                }
            } else {
                proof {
                    assert(near@[0] == j);
                }
            }
            proof {
                assert forall|x: int| 0 <= x < j + 1 && manhattan(s, #[trigger] self.points@[x]) <= 40 implies near@.contains(x as usize) by {
                    if x < j {
                        assert(before.contains(x as usize));
                        let t = choose|t: int| 0 <= t < before.len() && before[t] == x as usize;
                        assert(near@[t] == x as usize);
                    }
                }
            }
            j = j + 1;
        }
        near
    }

    /// Appends an edge from `i` to every other point within distance 15.
    fn add_short_edges(&self, i: usize, add_edges: &mut Vec<Edge>)
        requires
            self.points_ok(),
            i < self.points@.len(),
            forall|k: int| 0 <= k < old(add_edges)@.len() ==> short_edge(self.points@, #[trigger] old(add_edges)@[k]),
        ensures
            forall|k: int| 0 <= k < final(add_edges)@.len() ==> short_edge(self.points@, #[trigger] final(add_edges)@[k]),
            forall|j: int|
                0 <= j < self.points@.len() && j != i && manhattan(self.points@[i as int], self.points@[j])
                    <= 15 ==> has_pair(final(add_edges)@, i, j as usize),
            forall|k: int| 0 <= k < old(add_edges)@.len() ==> final(add_edges)@[k] == old(add_edges)@[k],
            final(add_edges)@.len() >= old(add_edges)@.len(),
            final(add_edges)@ == old(add_edges)@ + short_prefix(self.points@, i as int, self.points@.len() as int),
    {
        let n = self.points.len();
        let s = self.points[i];
        let mut j: usize = 0;
        while j < n
            invariant
                self.points_ok(),
                n == self.points@.len(),
                i < n,
                s == self.points@[i as int],
                j <= n,
                forall|k: int| 0 <= k < add_edges@.len() ==> short_edge(self.points@, #[trigger] add_edges@[k]),
                forall|x: int|
                    0 <= x < j && x != i && manhattan(s, self.points@[x]) <= 15 ==> has_pair(add_edges@, i, x as usize),
                forall|k: int| 0 <= k < old(add_edges)@.len() ==> add_edges@[k] == old(add_edges)@[k],
                add_edges@.len() >= old(add_edges)@.len(),
                add_edges@ == old(add_edges)@ + short_prefix(self.points@, i as int, j as int),
            decreases n - j,
        {
            proof {
                assert(old(add_edges)@ + short_prefix(self.points@, i as int, j + 1) =~= if j != i && manhattan(
                    s,
                    self.points@[j as int],
                ) <= 15 {
                    (old(add_edges)@ + short_prefix(self.points@, i as int, j as int)).push(Edge { u: i, v: j })
                } else {
                    old(add_edges)@ + short_prefix(self.points@, i as int, j as int)
                });
            }
            if i != j {
                proof {
                    assert(self.points@[i as int].valid());
                    assert(self.points@[j as int].valid());
                }
                if s.dist(&self.points[j]) <= 15 {
                    let ghost before = add_edges@;
                    add_edges.push(Edge { u: i, v: j });
                    proof {
                        assert forall|x: int|
                            0 <= x < j + 1 && x != i && manhattan(s, self.points@[x]) <= 15 implies has_pair(
                            add_edges@,
                            i,
                            x as usize,
                        ) by {
                            if x < j {
                                let k = choose|k: int| 0 <= k < before.len() && (#[trigger] before[k]).same_pair(
                                    &Edge { u: i, v: x as usize },
                                );
                                assert(add_edges@[k] == before[k]);
                            } else {
                                assert(add_edges@[before.len() as int].same_pair(&Edge { u: i, v: x as usize }));
                            }
                        }
                    }
                }
            }
            j = j + 1;
        }
    }

    /// For the points near `i`, appends the edges that Kruskal's method
    /// picks when the pairs are taken by increasing distance.
    fn add_tree_edges(&self, i: usize, add_edges: &mut Vec<Edge>)
        requires
            self.points_ok(),
            i < self.points@.len(),
            forall|k: int| 0 <= k < old(add_edges)@.len() ==> short_edge(self.points@, #[trigger] old(add_edges)@[k]),
        ensures
            forall|k: int| 0 <= k < final(add_edges)@.len() ==> short_edge(self.points@, #[trigger] final(add_edges)@[k]),
            forall|k: int| 0 <= k < old(add_edges)@.len() ==> final(add_edges)@[k] == old(add_edges)@[k],
            final(add_edges)@.len() >= old(add_edges)@.len(),
            forall|j: int|
                0 <= j < self.points@.len() && manhattan(self.points@[i as int], #[trigger] self.points@[j]) <= 40
                    ==> linked(final(add_edges)@, i, j as usize),
            exists|sorted: Seq<(i64, usize, usize)>|
                #[trigger] stably_sorted(
                    pair_list(self.points@, near_prefix(self.points@, i as int, self.points@.len() as int)),
                    sorted,
                ) && final(add_edges)@ == old(add_edges)@ + kruskal_picks(
                    sorted,
                    near_prefix(self.points@, i as int, self.points@.len() as int),
                ),
    {
        broadcast use vstd::seq_lib::group_to_multiset_ensures;
        let n = self.points.len();
        let near = self.near_points(i);
        let ghost s = self.points@[i as int];
        let m = near.len();
        let mut pairs: Vec<(i64, usize, usize)> = Vec::new();
        let mut a: usize = 0;
        while a < m
            invariant
                self.points_ok(),
                n == self.points@.len(),
                m == near@.len(),
                a <= m,
                forall|t: int| 0 <= t < near@.len() ==> #[trigger] near@[t] < n && manhattan(
                    s,
                    self.points@[near@[t] as int],
                ) <= 40,
                forall|k: int| 0 <= k < pairs@.len() ==> {
                    &&& near@.contains((#[trigger] pairs@[k]).1)
                    &&& near@.contains(pairs@[k].2)
                    &&& pairs@[k].1 != pairs@[k].2
                },
                forall|a2: int, b2: int|
                    0 <= a2 < a && 0 <= b2 < m && near@[a2] != near@[b2] ==> #[trigger] pair_listed(
                        pairs@,
                        near@[a2],
                        near@[b2],
                    ),
                pairs@ == pair_rows(self.points@, near@, a as int),
            decreases m - a,
        {
            let mut b: usize = 0;
            while b < m
                invariant
                    self.points_ok(),
                    n == self.points@.len(),
                    m == near@.len(),
                    a < m,
                    b <= m,
                    forall|t: int| 0 <= t < near@.len() ==> #[trigger] near@[t] < n && manhattan(
                        s,
                        self.points@[near@[t] as int],
                    ) <= 40,
                    forall|k: int| 0 <= k < pairs@.len() ==> {
                        &&& near@.contains((#[trigger] pairs@[k]).1)
                        &&& near@.contains(pairs@[k].2)
                        &&& pairs@[k].1 != pairs@[k].2
                    },
                    forall|a2: int, b2: int|
                        0 <= a2 < a && 0 <= b2 < m && near@[a2] != near@[b2] ==> #[trigger] pair_listed(
                            pairs@,
                            near@[a2],
                            near@[b2],
                        ),
                    forall|b2: int|
                        0 <= b2 < b && near@[a as int] != near@[b2] ==> #[trigger] pair_listed(
                            pairs@,
                            near@[a as int],
                            near@[b2],
                        ),
                    pairs@ == pair_rows(self.points@, near@, a as int) + pair_row(self.points@, near@, a as int, b as int),
                decreases m - b,
            {
                let u = near[a];
                let v = near[b];
                let ghost before = pairs@;
                if u != v {
                    proof {
                        assert(near@[a as int] < n);
                        assert(near@[b as int] < n);
                        assert(self.points@[u as int].valid());
                        assert(self.points@[v as int].valid());
                    }
                    let d = self.points[u].dist(&self.points[v]);
                    pairs.push((d, u, v));
                    proof {
                        assert(near@[a as int] == u);
                        assert(near@[b as int] == v);
                        assert(pairs@[before.len() as int] == (d, u, v));
                    }
                }
                proof {
                    assert(pairs@ =~= pair_rows(self.points@, near@, a as int) + pair_row(
                        self.points@,
                        near@,
                        a as int,
                        b + 1,
                    ));
                    lemma_pair_listed_push(before, pairs@);
                    assert forall|a2: int, b2: int|
                        0 <= a2 < a && 0 <= b2 < m && near@[a2] != near@[b2] implies #[trigger] pair_listed(
                            pairs@,
                            near@[a2],
                            near@[b2],
                        ) by {
                        assert(pair_listed(before, near@[a2], near@[b2]));
                    }
                    assert forall|b2: int|
                        0 <= b2 < b + 1 && near@[a as int] != near@[b2] implies #[trigger] pair_listed(
                            pairs@,
                            near@[a as int],
                            near@[b2],
                        ) by {
                        if b2 < b {
                            assert(pair_listed(before, near@[a as int], near@[b2]));
                        } else {
                            let q = before.len() as int;
                            assert(pairs@[q].1 == near@[a as int] && pairs@[q].2 == near@[b2]);
                        }
                    }
                }
                b = b + 1;
            }
            proof {
                assert(pair_rows(self.points@, near@, a + 1) == pair_rows(self.points@, near@, a as int) + pair_row(
                    self.points@,
                    near@,
                    a as int,
                    m as int,
                ));
            }
            a = a + 1;
        }
        let ghost unsorted = pairs@;
        sort_by_first(&mut pairs);
        proof {
            assert forall|k: int| 0 <= k < pairs@.len() implies {
                &&& near@.contains((#[trigger] pairs@[k]).1)
                &&& near@.contains(pairs@[k].2)
                &&& pairs@[k].1 != pairs@[k].2
            } by {
                let x = pairs@[k];
                assert(pairs@.contains(x));
                assert(pairs@.to_multiset().count(x) > 0);
                assert(unsorted.to_multiset().count(x) > 0);
                assert(unsorted.contains(x));
            }
            lemma_pair_listed_sorted(unsorted, pairs@);
            assert forall|a2: int, b2: int|
                0 <= a2 < m && 0 <= b2 < m && near@[a2] != near@[b2] implies #[trigger] pair_listed(
                    pairs@,
                    near@[a2],
                    near@[b2],
                ) by {
                assert(pair_listed(unsorted, near@[a2], near@[b2]));
            }
        }
        let mut slot: Vec<usize> = Vec::new();
        let mut t: usize = 0;
        while t < n
            invariant
                t <= n,
                slot@ == Seq::new(t as nat, |x: int| NA),
            decreases n - t,
        {
            slot.push(NA);
            t = t + 1;
        }
        let mut t: usize = 0;
        while t < m
            invariant
                m == near@.len(),
                near@.no_duplicates(),
                forall|x: int| 0 <= x < near@.len() ==> #[trigger] near@[x] < n,
                slot@.len() == n,
                t <= m,
                forall|x: int| 0 <= x < t ==> slot@[#[trigger] near@[x] as int] == x,
            decreases m - t,
        {
            let ghost before = slot@;
            slot.set(near[t], t);
            proof {
                assert forall|x: int| 0 <= x < t + 1 implies slot@[#[trigger] near@[x] as int] == x by {
                    if x < t {
                        assert(near@[x] != near@[t as int]);
                    }
                }
            }
            t = t + 1;
        }
        let mut uf = UnionFind::new(m);
        proof {
            assert forall|x: int, y: int| #![trigger uf@[x], uf@[y]]
                0 <= x < m && 0 <= y < m && uf@[x] == uf@[y] implies linked(add_edges@, near@[x], near@[y]) by {
                lemma_linked_refl(add_edges@, near@[x]);
            }
        }
        let mut k: usize = 0;
        while k < pairs.len()
            invariant
                self.points_ok(),
                n == self.points@.len(),
                m == near@.len(),
                uf@.len() == m,
                slot@.len() == n,
                forall|x: int| 0 <= x < m ==> slot@[#[trigger] near@[x] as int] == x,
                forall|t: int| 0 <= t < near@.len() ==> #[trigger] near@[t] < n && manhattan(
                    s,
                    self.points@[near@[t] as int],
                ) <= 40,
                forall|q: int| 0 <= q < pairs@.len() ==> {
                    &&& near@.contains((#[trigger] pairs@[q]).1)
                    &&& near@.contains(pairs@[q].2)
                    &&& pairs@[q].1 != pairs@[q].2
                },
                k <= pairs@.len(),
                forall|q: int| 0 <= q < add_edges@.len() ==> short_edge(self.points@, #[trigger] add_edges@[q]),
                forall|q: int| 0 <= q < old(add_edges)@.len() ==> add_edges@[q] == old(add_edges)@[q],
                add_edges@.len() >= old(add_edges)@.len(),
                forall|x: int, y: int| #![trigger uf@[x], uf@[y]]
                    0 <= x < m && 0 <= y < m && uf@[x] == uf@[y] ==> linked(add_edges@, near@[x], near@[y]),
                forall|q: int| 0 <= q < k ==> linked(add_edges@, (#[trigger] pairs@[q]).1, pairs@[q].2),
                near@.no_duplicates(),
                uf@ == kruskal_state(pairs@, near@, k as int).0,
                add_edges@ == old(add_edges)@ + kruskal_state(pairs@, near@, k as int).1,
                forall|a2: int, b2: int|
                    0 <= a2 < m && 0 <= b2 < m && near@[a2] != near@[b2] ==> #[trigger] pair_listed(
                        pairs@,
                        near@[a2],
                        near@[b2],
                    ),
            decreases pairs@.len() - k,
        {
            let (_, u, v) = pairs[k];
            proof {
                assert(near@.contains(pairs@[k as int].1));
                assert(near@.contains(pairs@[k as int].2));
            }
            let ghost tu = choose|x: int| 0 <= x < near@.len() && near@[x] == u;
            let ghost tv = choose|x: int| 0 <= x < near@.len() && near@[x] == v;
            proof {
                assert(slot@[near@[tu] as int] == tu);
                assert(slot@[near@[tv] as int] == tv);
            }
            let su = slot[u];
            let sv = slot[v];
            proof {
                assert(slot_of(near@, u) == tu);
                assert(slot_of(near@, v) == tv);
                assert(su as int == tu && sv as int == tv);
            }
            if uf.same(su, sv) {
                proof {
                    assert(uf@[su as int] == uf@[sv as int]);
                    assert(linked(add_edges@, near@[su as int], near@[sv as int]));
                    assert(kruskal_state(pairs@, near@, k + 1) == kruskal_state(pairs@, near@, k as int));
                }
                k = k + 1;
                continue;
            }
            let ghost lab = uf@;
            let ghost es0 = add_edges@;
            uf.unite(su, sv);
            proof {
                assert(near@[tu] < n && manhattan(s, self.points@[near@[tu] as int]) <= 40);
                assert(near@[tv] < n && manhattan(s, self.points@[near@[tv] as int]) <= 40);
                lemma_triangle(self.points@[u as int], s, self.points@[v as int]);
            }
            add_edges.push(Edge { u, v });
            proof {
                assert(uf@ == relabel(lab, su as int, sv as int));
                assert(add_edges@ == es0.push(Edge { u: near@[su as int], v: near@[sv as int] }));
                lemma_kruskal_step(es0, near@, lab, su as int, sv as int);
                lemma_has_pair_extend(es0, add_edges@);
                assert(add_edges@ =~= old(add_edges)@ + kruskal_state(pairs@, near@, k + 1).1);
                assert forall|q: int| 0 <= q < k + 1 implies linked(add_edges@, (#[trigger] pairs@[q]).1, pairs@[q].2) by {
                    if q < k {
                        lemma_linked_transfer(es0, add_edges@, pairs@[q].1, pairs@[q].2);
                    } else {
                        assert(add_edges@[es0.len() as int].same_pair(&Edge { u, v }));
                        lemma_linked_edge(add_edges@, u, v);
                    }
                }
            }
            k = k + 1;
        }
        proof {
            assert(stably_sorted(unsorted, pairs@));
            assert(unsorted == pair_list(self.points@, near@));
            assert(add_edges@ == old(add_edges)@ + kruskal_picks(pairs@, near@));
            assert forall|j: int|
                0 <= j < self.points@.len() && manhattan(self.points@[i as int], #[trigger] self.points@[j]) <= 40
                    implies linked(add_edges@, i, j as usize) by {
                assert(near@.contains(j as usize));
                let t = choose|t: int| 0 <= t < near@.len() && near@[t] == j as usize;
                if j as usize == i {
                    lemma_linked_refl(add_edges@, i);
                } else {
                    assert(pair_listed(pairs@, near@[0], near@[t]));
                    let q = choose|q: int| 0 <= q < pairs@.len() && (#[trigger] pairs@[q]).1 == near@[0]
                        && pairs@[q].2 == near@[t];
                    assert(linked(add_edges@, pairs@[q].1, pairs@[q].2));
                }
            }
        }
    }

    /// Rebuilds the edges: each point is joined to every point within
    /// distance 15, and the points within distance 40 of it are joined by
    /// the edges Kruskal's method picks; pairs already joined are skipped.
    /// Afterwards any two points within distance 40 are linked by a chain of
    /// edges, no edge is longer than 80, and no pair is joined twice.  The
    /// edges are exactly the proposed ones (per point in index order: its
    /// short edges, then Kruskal's picks over its stably sorted pairs) with
    /// repeats skipped, and `adj[v]` lists the edges at `v` once each, in
    /// increasing order.
    pub fn recalculate_edges(&mut self)
        requires
            old(self).points_ok(),
        ensures
            final(self).points@ == old(self).points@,
            final(self).pos_index@ == old(self).pos_index@,
            final(self).points_ok(),
            final(self).graph_ok(),
            edges_distinct(final(self).edges@),
            forall|v: int|
                0 <= v < final(self).adj@.len() ==> (#[trigger] final(self).adj@[v])@ == incident_prefix(
                    final(self).edges@,
                    v,
                    final(self).edges@.len() as int,
                ),
            forall|e: int| 0 <= e < final(self).edges@.len() ==> short_edge(final(self).points@, #[trigger] final(self).edges@[e]),
            forall|i: int, j: int|
                0 <= i < final(self).points@.len() && 0 <= j < final(self).points@.len() && i != j && manhattan(
                    final(self).points@[i],
                    final(self).points@[j],
                ) <= 15 ==> #[trigger] has_pair(final(self).edges@, i as usize, j as usize),
            forall|i: int, j: int|
                0 <= i < final(self).points@.len() && 0 <= j < final(self).points@.len() && manhattan(
                    final(self).points@[i],
                    final(self).points@[j],
                ) <= 40 ==> #[trigger] linked(final(self).edges@, i as usize, j as usize),
            exists|sorted: Seq<Seq<(i64, usize, usize)>>|
                #![trigger proposed_edges(final(self).points@, sorted, final(self).points@.len() as int)]
                sorted.len() == final(self).points@.len() && (forall|k: int|
                    0 <= k < sorted.len() ==> #[trigger] stably_sorted(
                        pair_list(
                            final(self).points@,
                            near_prefix(final(self).points@, k, final(self).points@.len() as int),
                        ),
                        sorted[k],
                    )) && final(self).edges@ == without_repeats(
                    proposed_edges(final(self).points@, sorted, final(self).points@.len() as int),
                    proposed_edges(final(self).points@, sorted, final(self).points@.len() as int).len() as int,
                ),
    {
        let n = self.points.len();
        let ghost mut sorted_all: Seq<Seq<(i64, usize, usize)>> = seq![];
        let mut add_edges: Vec<Edge> = Vec::new();
        let mut i: usize = 0;
        while i < n
            invariant
                self.points_ok(),
                n == self.points@.len(),
                self.points@ == old(self).points@,
                self.pos_index@ == old(self).pos_index@,
                i <= n,
                forall|k: int| 0 <= k < add_edges@.len() ==> short_edge(self.points@, #[trigger] add_edges@[k]),
                forall|x: int, j: int|
                    0 <= x < i && 0 <= j < n && x != j && manhattan(self.points@[x], self.points@[j]) <= 15
                        ==> #[trigger] has_pair(add_edges@, x as usize, j as usize),
                forall|x: int, j: int|
                    0 <= x < i && 0 <= j < n && manhattan(self.points@[x], self.points@[j]) <= 40
                        ==> #[trigger] linked(add_edges@, x as usize, j as usize),
                sorted_all.len() == i,
                forall|k: int|
                    0 <= k < i ==> #[trigger] stably_sorted(
                        pair_list(self.points@, near_prefix(self.points@, k, n as int)),
                        sorted_all[k],
                    ),
                add_edges@ == proposed_edges(self.points@, sorted_all, i as int),
            decreases n - i,
        {
            let ghost before = add_edges@;
            self.add_short_edges(i, &mut add_edges);
            let ghost mid = add_edges@;
            self.add_tree_edges(i, &mut add_edges);
            proof {
                let srt = choose|sorted: Seq<(i64, usize, usize)>|
                    #[trigger] stably_sorted(
                        pair_list(self.points@, near_prefix(self.points@, i as int, n as int)),
                        sorted,
                    ) && add_edges@ == mid + kruskal_picks(sorted, near_prefix(self.points@, i as int, n as int));
                let s0 = sorted_all;
                sorted_all = s0.push(srt);
                lemma_proposed_prefix(self.points@, s0, sorted_all, i as int);
                assert(add_edges@ =~= proposed_edges(self.points@, sorted_all, i + 1));
                assert forall|k: int|
                    0 <= k < i + 1 implies #[trigger] stably_sorted(
                        pair_list(self.points@, near_prefix(self.points@, k, n as int)),
                        sorted_all[k],
                    ) by {
                    if k < i {
                        assert(sorted_all[k] == s0[k]);
                    }
                }
                lemma_has_pair_extend(before, add_edges@);
                assert forall|x: int, j: int|
                    0 <= x < i + 1 && 0 <= j < n && manhattan(self.points@[x], self.points@[j]) <= 40
                        implies #[trigger] linked(add_edges@, x as usize, j as usize) by {
                    if x < i {
                        lemma_linked_transfer(before, add_edges@, x as usize, j as usize);
                    } else {
                        assert(linked(add_edges@, i, j as usize));
                    }
                }
                assert forall|x: int, j: int|
                    0 <= x < i + 1 && 0 <= j < n && x != j && manhattan(self.points@[x], self.points@[j]) <= 15
                        implies #[trigger] has_pair(add_edges@, x as usize, j as usize) by {
                    if x < i {
                        assert(has_pair(before, x as usize, j as usize));
                        let k = choose|k: int| 0 <= k < before.len() && (#[trigger] before[k]).same_pair(
                            &Edge { u: x as usize, v: j as usize },
                        );
                        assert(add_edges@[k] == before[k]);
                    } else {
                        assert(has_pair(mid, x as usize, j as usize));
                        let k = choose|k: int| 0 <= k < mid.len() && (#[trigger] mid[k]).same_pair(
                            &Edge { u: x as usize, v: j as usize },
                        );
                        assert(add_edges@[k] == mid[k]);
                    }
                }
            }
            i = i + 1;
        }
        let mut adj: Vec<Vec<usize>> = Vec::new();
        let mut t: usize = 0;
        while t < n
            invariant
                t <= n,
                adj@.len() == t,
                forall|x: int| 0 <= x < t ==> (#[trigger] adj@[x])@.len() == 0,
            decreases n - t,
        {
            adj.push(Vec::new());
            t = t + 1;
        }
        self.adj = adj;
        self.edges = Vec::new();
        let mut k: usize = 0;
        while k < add_edges.len()
            invariant
                self.points_ok(),
                n == self.points@.len(),
                self.points@ == old(self).points@,
                self.pos_index@ == old(self).pos_index@,
                k <= add_edges@.len(),
                self.edges_ok(),
                self.adj_complete(),
                self.edges@.len() <= k,
                edges_distinct(self.edges@),
                forall|v: int|
                    0 <= v < self.adj@.len() ==> (#[trigger] self.adj@[v])@ == incident_prefix(
                        self.edges@,
                        v,
                        self.edges@.len() as int,
                    ),
                forall|e: int| 0 <= e < self.edges@.len() ==> short_edge(self.points@, #[trigger] self.edges@[e]),
                forall|q: int| 0 <= q < add_edges@.len() ==> short_edge(self.points@, #[trigger] add_edges@[q]),
                forall|q: int| 0 <= q < k ==> has_pair(self.edges@, (#[trigger] add_edges@[q]).u, add_edges@[q].v),
                self.edges@ == without_repeats(add_edges@, k as int),
            decreases add_edges@.len() - k,
        {
            let edge = add_edges[k];
            if contains_edge(&self.edges, &edge) {
                k = k + 1;
                continue;
            }
            let edge_index = self.edges.len();
            proof {
                assert(short_edge(self.points@, add_edges@[k as int]));
            }
            let ghost e0 = self.edges@;
            let ghost a0 = self.adj@;
            self.adj[edge.u].push(edge_index);
            self.adj[edge.v].push(edge_index);
            self.edges.push(edge);
            proof {
                let ne = edge_index as int;
                assert forall|v: int| 0 <= v < self.adj@.len() implies (#[trigger] self.adj@[v])@ == incident_prefix(
                    self.edges@,
                    v,
                    self.edges@.len() as int,
                ) by {
                    lemma_incident_prefix_same(e0, self.edges@, v, ne);
                    assert(self.edges@[ne] == edge);
                    if v == edge.u as int {
                        assert(self.adj@[v]@ == a0[v]@.push(edge_index));
                    } else if v == edge.v as int {
                        assert(self.adj@[v]@ == a0[v]@.push(edge_index));
                    } else {
                        assert(self.adj@[v] == a0[v]);
                    }
                }
                assert forall|v: int, j: int|
                    0 <= v < self.adj@.len() && 0 <= j < self.adj@[v]@.len() implies {
                        let e = #[trigger] self.adj@[v]@[j];
                        &&& e < self.edges@.len()
                        &&& (self.edges@[e as int].u == v || self.edges@[e as int].v == v)
                    } by {
                    if v == edge.u as int || v == edge.v as int {
                        if j < a0[v]@.len() {
                            assert(a0[v]@[j] == self.adj@[v]@[j]) by {
                                if edge.u == edge.v {
                                } else if v == edge.u as int {
                                    assert(self.adj@[v]@ == a0[v]@.push(edge_index));
                                } else {
                                    assert(self.adj@[v]@ == a0[v]@.push(edge_index));
                                }
                            }
                        }
                    } else {
                        assert(self.adj@[v] == a0[v]);
                    }
                }
                assert forall|e: int| 0 <= e < self.edges@.len() implies self.adj@[(#[trigger] self.edges@[e]).u as int]@.contains(
                    e as usize,
                ) && self.adj@[self.edges@[e].v as int]@.contains(e as usize) by {
                    if e < ne {
                        let eu = e0[e].u as int;
                        let ev = e0[e].v as int;
                        assert(a0[eu]@.contains(e as usize));
                        assert(a0[ev]@.contains(e as usize));
                        let ju = choose|j: int| 0 <= j < a0[eu]@.len() && a0[eu]@[j] == e as usize;
                        let jv = choose|j: int| 0 <= j < a0[ev]@.len() && a0[ev]@[j] == e as usize;
                        assert(self.adj@[eu]@[ju] == e as usize);
                        assert(self.adj@[ev]@[jv] == e as usize);
                    } else {
                        let lu = self.adj@[edge.u as int]@.len() - 1;
                        let lv = self.adj@[edge.v as int]@.len() - 1;
                        assert(self.adj@[edge.v as int]@[lv] == edge_index);
                        assert(self.adj@[edge.u as int]@[a0[edge.u as int]@.len() as int] == edge_index);
                    }
                }
                assert forall|q: int| 0 <= q < k + 1 implies has_pair(
                    self.edges@,
                    (#[trigger] add_edges@[q]).u,
                    add_edges@[q].v,
                ) by {
                    if q < k {
                        let j = choose|j: int| 0 <= j < e0.len() && (#[trigger] e0[j]).same_pair(
                            &Edge { u: add_edges@[q].u, v: add_edges@[q].v },
                        );
                        assert(self.edges@[j] == e0[j]);
                    } else {
                        assert(self.edges@[ne].same_pair(&Edge { u: edge.u, v: edge.v }));
                    }
                }
                assert forall|a: int, b: int| #![trigger self.edges@[a], self.edges@[b]]
                    0 <= a < b < self.edges@.len() implies !self.edges@[a].same_pair(&self.edges@[b]) by {
                    if b == ne {
                        if self.edges@[a].same_pair(&self.edges@[b]) {
                            assert(e0[a].same_pair(&Edge { u: edge.u, v: edge.v }));
                        }
                    }
                }
            }
            k = k + 1;
        }
        proof {
            assert forall|i: int, j: int|
                0 <= i < self.points@.len() && 0 <= j < self.points@.len() && i != j && manhattan(
                    self.points@[i],
                    self.points@[j],
                ) <= 15 implies #[trigger] has_pair(self.edges@, i as usize, j as usize) by {
                assert(has_pair(add_edges@, i as usize, j as usize));
                let q = choose|q: int| 0 <= q < add_edges@.len() && (#[trigger] add_edges@[q]).same_pair(
                    &Edge { u: i as usize, v: j as usize },
                );
                assert(has_pair(self.edges@, add_edges@[q].u, add_edges@[q].v));
                let e = choose|e: int| 0 <= e < self.edges@.len() && (#[trigger] self.edges@[e]).same_pair(
                    &Edge { u: add_edges@[q].u, v: add_edges@[q].v },
                );
                assert(self.edges@[e].same_pair(&Edge { u: i as usize, v: j as usize }));
            }
            assert forall|x: usize, y: usize| #[trigger] has_pair(add_edges@, x, y) implies has_pair(self.edges@, x, y) by {
                let q = choose|q: int| 0 <= q < add_edges@.len() && (#[trigger] add_edges@[q]).same_pair(
                    &Edge { u: x, v: y },
                );
                assert(has_pair(self.edges@, add_edges@[q].u, add_edges@[q].v));
                let e = choose|e: int| 0 <= e < self.edges@.len() && (#[trigger] self.edges@[e]).same_pair(
                    &Edge { u: add_edges@[q].u, v: add_edges@[q].v },
                );
                assert(self.edges@[e].same_pair(&Edge { u: x, v: y }));
            }
            assert forall|i: int, j: int|
                0 <= i < self.points@.len() && 0 <= j < self.points@.len() && manhattan(
                    self.points@[i],
                    self.points@[j],
                ) <= 40 implies #[trigger] linked(self.edges@, i as usize, j as usize) by {
                assert(linked(add_edges@, i as usize, j as usize));
                lemma_linked_transfer(add_edges@, self.edges@, i as usize, j as usize);
            }
            assert forall|v: int, i: int, j: int|
                0 <= v < self.adj@.len() && 0 <= i < j < self.adj@[v]@.len() implies #[trigger] self.adj@[v]@[i]
                    != #[trigger] self.adj@[v]@[j] by {
                assert(self.edges@.len() == self.edges.len());
                lemma_incident_prefix_increasing(self.edges@, v, self.edges@.len() as int);
            }
        }
    }
}

proof fn lemma_used_edge_weight_none(graph: &Graph, state: &State, c: int, n: nat, k: int)
    requires
        k <= n,
    ensures
        used_edge_weight(graph, state, c, Seq::new(n, |i: int| false), k) == 0,
    decreases k,
{
    if k > 0 {
        lemma_used_edge_weight_none(graph, state, c, n, k - 1);
    }
}

impl AnnealingState {
    /// Every house index is a point of the graph.
    pub open spec fn houses_ok(&self) -> bool {
        forall|i: int| 0 <= i < self.house@.len() ==> #[trigger] self.house@[i] < self.graph.points@.len()
    }

    /// Following the edges `es` from point `start` ends at a source.
    pub open spec fn leads_to_source(&self, start: int, es: Seq<usize>) -> bool {
        let end = walk_end(&self.graph, start, es);
        end is Some && self.source@.contains(end.unwrap() as usize)
    }

    /// Some walk leads from house `i` to a source with edge costs summing,
    /// doubled, to less than `INF`.
    pub open spec fn cheaply_routable(&self, i: int, c: int) -> bool {
        exists|es: Seq<usize>|
            #[trigger] self.leads_to_source(self.house@[i] as int, es) && 2 * edges_cost(
                &self.graph,
                &self.state,
                c,
                es,
            ) < INF
    }

    /// House `i` was routed with the edges marked in `useds[i]` in use: its
    /// route answers a search from the house that moved the generator from
    /// `seeds[i]` to `seeds[i + 1]` (see `search_ran`), and the route's edges
    /// were then marked.
    pub open spec fn house_routed(&self, c: int, useds: Seq<Seq<bool>>, seeds: Seq<u64>, i: int) -> bool {
        let path = self.to_source_paths@[i]@;
        &&& exists|dw: Seq<Seq<i64>>, dist: Seq<i64>, par: Seq<usize>|
            #[trigger] self.search_ran(c, useds[i], self.house@[i] as int, seeds[i], seeds[i + 1], dw, dist, par, Some(path))
        &&& useds[i + 1] == marked_with(useds[i], path)
    }

    /// The houses before `i` were routed in turn (see `house_routed`) from
    /// no marks and generator state `seed`.
    pub open spec fn routed_before(&self, c: int, seed: u64, useds: Seq<Seq<bool>>, seeds: Seq<u64>, i: int) -> bool {
        &&& 0 <= i < self.house@.len()
        &&& useds.len() == i + 1
        &&& seeds.len() == i + 1
        &&& useds[0] == Seq::new(self.graph.edges@.len(), |e: int| false)
        &&& seeds[0] == seed
        &&& forall|x: int| 0 <= x < i ==> #[trigger] self.house_routed(c, useds, seeds, x)
    }

    /// The search for house `i`, with the edges of `useds[i]` in use and the
    /// generator at `seeds[i]`, found no source.
    pub open spec fn stuck_at(&self, c: int, useds: Seq<Seq<bool>>, seeds: Seq<u64>, i: int) -> bool {
        exists|s1: u64, dw: Seq<Seq<i64>>, dist: Seq<i64>, par: Seq<usize>|
            #[trigger] self.search_ran(c, useds[i], self.house@[i] as int, seeds[i], s1, dw, dist, par, None)
    }

    /// The search for house `i`, with the edges of `useds[i]` in use and the
    /// generator at `seeds[i]`, found a route whose edges, marked too, weigh
    /// more than an `i64` holds.
    pub open spec fn overflow_at(&self, c: int, useds: Seq<Seq<bool>>, seeds: Seq<u64>, i: int) -> bool {
        exists|s1: u64, dw: Seq<Seq<i64>>, dist: Seq<i64>, par: Seq<usize>, path: Seq<usize>|
            #[trigger] self.search_ran(c, useds[i], self.house@[i] as int, seeds[i], s1, dw, dist, par, Some(path))
                && used_edge_weight(
                &self.graph,
                &self.state,
                c,
                marked_with(useds[i], path),
                self.graph.edges@.len() as int,
            ) > i64::MAX
    }

    /// Route `i` leads from house `i` to a source.
    pub open spec fn route_ok(&self, i: int) -> bool {
        let end = walk_end(&self.graph, self.house@[i] as int, self.to_source_paths@[i]@);
        end is Some && self.source@.contains(end.unwrap() as usize)
    }

    /// The weight of the edges marked in `marks`, or `None` when it does
    /// not fit in an `i64`.
    fn marked_weight(&self, marks: &Vec<bool>, c: i64) -> (r: Option<i64>)
        requires
            self.graph.points_ok(),
            self.graph.edges_ok(),
            damage_ok(&self.state),
            0 <= c <= MAX_C,
            marks@.len() == self.graph.edges@.len(),
        ensures
            r is Some <==> used_edge_weight(
                &self.graph,
                &self.state,
                c as int,
                marks@,
                self.graph.edges@.len() as int,
            ) <= i64::MAX,
            r matches Some(x) ==> x == used_edge_weight(
                &self.graph,
                &self.state,
                c as int,
                marks@,
                self.graph.edges@.len() as int,
            ),
    {
        let m = marks.len();
        let mut total: i64 = 0;
        let mut e: usize = 0;
        while e < m
            invariant
                self.graph.points_ok(),
                self.graph.edges_ok(),
                damage_ok(&self.state),
                0 <= c <= MAX_C,
                m == self.graph.edges@.len(),
                m == marks@.len(),
                e <= m,
                total == used_edge_weight(&self.graph, &self.state, c as int, marks@, e as int),
            decreases m - e,
        {
            if marks[e] {
                let w = self.edge_weight(e, c);
                match total.checked_add(w) {
                    Some(x) => {
                        total = x;
                    },
                    None => {
                        proof {
                            lemma_used_edge_weight_mono(&self.graph, &self.state, c as int, marks@, e + 1, m as int);
                        }
                        return None;
                    },
                }
            }
            e = e + 1;
        }
        Some(total)
    }

    /// Rebuilds the edges, clears every mark and routes each house in turn
    /// to a source with `find_path_to_source`, marking the route's edges and
    /// adding their weight to the score.  `false` exactly when some house
    /// finds no source or the edges in use would weigh more than an `i64`
    /// holds; when every house has a walk to a source whose cost, doubled,
    /// stays below `INF`, only the latter can happen.  Each route answers
    /// its search (see `answers`), the searches drawing in turn from the
    /// generator.  Every pair of points within distance 40 ends up linked by
    /// edges.
    pub fn recalculate_all(&mut self, c: i64, rng: &mut Xorshift) -> (ok: bool)
        requires
            old(self).graph.points_ok(),
            damage_ok(&old(self).state),
            0 <= c <= MAX_C,
            old(self).sources_ok(),
            old(self).houses_ok(),
            old(self).graph.points@.len() < 0x4000_0000_0000_0000,
        ensures
            final(self).graph.points@ == old(self).graph.points@,
            final(self).state == old(self).state,
            final(self).house@ == old(self).house@,
            final(self).source@ == old(self).source@,
            final(self).graph.points_ok(),
            final(self).graph.graph_ok(),
            forall|i: int, j: int|
                0 <= i < final(self).graph.points@.len() && 0 <= j < final(self).graph.points@.len() && manhattan(
                    final(self).graph.points@[i],
                    final(self).graph.points@[j],
                ) <= 40 ==> #[trigger] linked(final(self).graph.edges@, i as usize, j as usize),
            !ok ==> exists|useds: Seq<Seq<bool>>, seeds: Seq<u64>, i: int|
                #[trigger] final(self).routed_before(c as int, old(rng).s, useds, seeds, i) && (final(self).stuck_at(
                    c as int,
                    useds,
                    seeds,
                    i,
                ) || final(self).overflow_at(c as int, useds, seeds, i)),
            ({
                let routable = forall|i: int|
                    0 <= i < final(self).house@.len() ==> #[trigger] final(self).cheaply_routable(i, c as int);
                routable && !ok ==> exists|useds: Seq<Seq<bool>>, seeds: Seq<u64>, i: int|
                    #[trigger] final(self).routed_before(c as int, old(rng).s, useds, seeds, i)
                        && final(self).overflow_at(c as int, useds, seeds, i)
            }),
            ok ==> {
                &&& final(self).wf(c as int)
                &&& final(self).to_source_paths@.len() == final(self).house@.len()
                &&& forall|i: int| 0 <= i < final(self).house@.len() ==> #[trigger] final(self).route_ok(i)
                &&& exists|useds: Seq<Seq<bool>>, seeds: Seq<u64>|
                    #![trigger useds.last(), seeds.last()]
                    useds.len() == final(self).house@.len() + 1 && seeds.len() == useds.len() && useds[0]
                        == Seq::new(final(self).graph.edges@.len(), |e: int| false) && seeds[0] == old(rng).s
                        && useds.last() == final(self).edge_used@ && seeds.last() == final(rng).s && forall|i: int|
                        0 <= i < final(self).house@.len() ==> #[trigger] final(self).house_routed(
                            c as int,
                            useds,
                            seeds,
                            i,
                        )
                &&& forall|e: int|
                    0 <= e < final(self).edge_used@.len() ==> (#[trigger] final(self).edge_used@[e] <==> exists|i: int|
                        0 <= i < final(self).house@.len() && final(self).to_source_paths@[i]@.contains(e as usize))
            },
    {
        self.graph.recalculate_edges();
        let ghost g1 = self.graph;
        let ne = self.graph.edges.len();
        let mut used: Vec<bool> = Vec::new();
        let mut t: usize = 0;
        while t < ne
            invariant
                t <= ne,
                used@ == Seq::new(t as nat, |i: int| false),
            decreases ne - t,
        {
            used.push(false);
            t = t + 1;
        }
        self.edge_used = used;
        self.score = 0;
        let h = self.house.len();
        let mut paths: Vec<Vec<usize>> = Vec::new();
        let mut t: usize = 0;
        while t < h
            invariant
                t <= h,
                paths@.len() == t,
                forall|x: int| 0 <= x < t ==> (#[trigger] paths@[x])@.len() == 0,
            decreases h - t,
        {
            paths.push(Vec::new());
            t = t + 1;
        }
        self.to_source_paths = paths;
        proof {
            lemma_used_edge_weight_none(&self.graph, &self.state, c as int, ne as nat, ne as int);
        }
        let ghost mut useds: Seq<Seq<bool>> = seq![self.edge_used@];
        let ghost mut seeds: Seq<u64> = seq![rng.s];
        let ghost u0 = self.edge_used@;
        let ghost r0 = rng.s;
        let mut i: usize = 0;
        while i < h
            invariant
                useds.len() == i + 1,
                seeds.len() == i + 1,
                useds[0] == u0,
                u0 == Seq::new(self.graph.edges@.len(), |e: int| false),
                seeds[0] == r0,
                r0 == old(rng).s,
                useds.last() == self.edge_used@,
                seeds.last() == rng.s,
                forall|x: int| 0 <= x < i ==> #[trigger] self.house_routed(c as int, useds, seeds, x),
                self.wf(c as int),
                self.graph.graph_ok(),
                self.graph.points@ == old(self).graph.points@,
                self.graph == g1,
                forall|i: int, j: int|
                    0 <= i < g1.points@.len() && 0 <= j < g1.points@.len() && manhattan(g1.points@[i], g1.points@[j])
                        <= 40 ==> #[trigger] linked(g1.edges@, i as usize, j as usize),
                self.graph.points@.len() < 0x4000_0000_0000_0000,
                self.state == old(self).state,
                self.house@ == old(self).house@,
                self.source@ == old(self).source@,
                self.sources_ok(),
                self.houses_ok(),
                h == self.house@.len(),
                self.to_source_paths@.len() == h,
                i <= h,
                forall|x: int| 0 <= x < i ==> #[trigger] self.route_ok(x),
                forall|x: int| i <= x < h ==> (#[trigger] self.to_source_paths@[x])@.len() == 0,
                forall|e: int|
                    0 <= e < self.edge_used@.len() ==> (#[trigger] self.edge_used@[e] <==> exists|x: int|
                        0 <= x < h && self.to_source_paths@[x]@.contains(e as usize)),
            decreases h - i,
        {
            let h_idx = self.house[i];
            let ghost s0 = rng.s;
            proof {
                assert(self.routed_before(c as int, r0, useds, seeds, i as int));
            }
            let found = self.find_path_to_source(h_idx, c, rng);
            let ghost rf = route_of(found);
            let ghost s1 = rng.s;
            let ghost t = choose|dw: Seq<Seq<i64>>, dist: Seq<i64>, par: Seq<usize>|
                #[trigger] self.search_ran(c as int, self.edge_used@, h_idx as int, s0, s1, dw, dist, par, rf);
            let ghost dwi = t.0;
            let edge_path = match found {
                Some(p) => p,
                None => {
                    proof {
                        assert(rf is None);
                        assert(self.search_ran(
                            c as int,
                            useds[i as int],
                            self.house@[i as int] as int,
                            seeds[i as int],
                            s1,
                            t.0,
                            t.1,
                            t.2,
                            None,
                        ));
                        assert(self.stuck_at(c as int, useds, seeds, i as int));
                        if self.cheaply_routable(i as int, c as int) {
                            let es = choose|es: Seq<usize>|
                                #[trigger] self.leads_to_source(self.house@[i as int] as int, es) && 2 * edges_cost(
                                    &self.graph,
                                    &self.state,
                                    c as int,
                                    es,
                                ) < INF;
                            lemma_walk_weight_le_double(self, c as int, self.edge_used@, dwi, h_idx as int, es);
                            assert(self.source@.len() > 0);
                            assert(walk_weight(&self.graph, dwi, h_idx as int, es) >= INF);
                        }
                    }
                    return false;
                },
            };
            proof {
                assert(rf == Some(edge_path@));
                assert forall|k: int| 0 <= k < edge_path@.len() implies #[trigger] edge_path@[k] < self.edge_used@.len() by {
                    lemma_walk_edges_in_range(&self.graph, h_idx as int, edge_path@, k);
                }
            }
            let marks = mark_path(&self.edge_used, &edge_path);
            match self.marked_weight(&marks, c) {
                Some(_) => {},
                None => {
                    proof {
                        assert(self.search_ran(
                            c as int,
                            useds[i as int],
                            self.house@[i as int] as int,
                            seeds[i as int],
                            s1,
                            t.0,
                            t.1,
                            t.2,
                            Some(edge_path@),
                        ));
                        assert(self.overflow_at(c as int, useds, seeds, i as int));
                    }
                    return false;
                },
            }
            let ghost before = *self;
            let ghost ep = edge_path@;
            let ghost s_after = rng.s;
            self.set_edge_path(i, edge_path, c);
            proof {
                let us0 = useds;
                let ss0 = seeds;
                useds = us0.push(self.edge_used@);
                seeds = ss0.push(s_after);
                assert forall|x: int| 0 <= x < i + 1 implies #[trigger] self.house_routed(c as int, useds, seeds, x) by {
                    assert(useds[x] == us0[x]);
                    assert(seeds[x] == ss0[x]);
                    let hx = self.house@[x] as int;
                    if x < i {
                        assert(before.house_routed(c as int, us0, ss0, x));
                        let px = before.to_source_paths@[x]@;
                        let tx = choose|dw: Seq<Seq<i64>>, dist: Seq<i64>, par: Seq<usize>|
                            #[trigger] before.search_ran(c as int, us0[x], hx, ss0[x], ss0[x + 1], dw, dist, par, Some(px));
                        lemma_search_frame(&before, self, c as int, us0[x], hx, ss0[x], ss0[x + 1], tx.0, tx.1, tx.2, Some(px));
                        assert(self.to_source_paths@[x] == before.to_source_paths@[x]);
                        assert(self.search_ran(
                            c as int,
                            useds[x],
                            hx,
                            seeds[x],
                            seeds[x + 1],
                            tx.0,
                            tx.1,
                            tx.2,
                            Some(self.to_source_paths@[x]@),
                        ));
                        assert(useds[x + 1] == us0[x + 1]);
                        assert(seeds[x + 1] == ss0[x + 1]);
                    } else {
                        assert(self.to_source_paths@[x]@ == ep);
                        assert(useds[x] == before.edge_used@);
                        assert(seeds[x] == s0);
                        assert(hx == h_idx as int);
                        assert(seeds[x + 1] == s_after);
                        lemma_search_frame(&before, self, c as int, before.edge_used@, hx, s0, s_after, t.0, t.1, t.2, Some(ep));
                        assert(self.search_ran(
                            c as int,
                            useds[x],
                            hx,
                            seeds[x],
                            seeds[x + 1],
                            t.0,
                            t.1,
                            t.2,
                            Some(self.to_source_paths@[x]@),
                        ));
                        assert(useds[x + 1] == self.edge_used@);
                        assert(self.edge_used@ =~= marked_with(useds[x], ep));
                    }
                }
                assert forall|x: int| 0 <= x < i + 1 implies #[trigger] self.route_ok(x) by {
                    if x < i {
                        assert(before.route_ok(x));
                        assert(self.to_source_paths@[x] == before.to_source_paths@[x]);
                    } else {
                        assert(before.leads_to_source(h_idx as int, ep));
                    }
                }
                assert forall|e: int| 0 <= e < self.edge_used@.len() implies (#[trigger] self.edge_used@[e]
                    <==> exists|x: int| 0 <= x < h && self.to_source_paths@[x]@.contains(e as usize)) by {
                    if self.edge_used@[e] {
                        if before.edge_used@[e] {
                            let x = choose|x: int| 0 <= x < h && before.to_source_paths@[x]@.contains(e as usize);
                            if x == i {
                                assert(before.to_source_paths@[x]@.len() == 0);
                            }
                            assert(self.to_source_paths@[x] == before.to_source_paths@[x]);
                        } else {
                            assert(ep.contains(e as usize));
                            assert(self.to_source_paths@[i as int]@ == ep);
                        }
                    } else {
                        if exists|x: int| 0 <= x < h && self.to_source_paths@[x]@.contains(e as usize) {
                            let x = choose|x: int| 0 <= x < h && self.to_source_paths@[x]@.contains(e as usize);
                            if x != i {
                                assert(self.to_source_paths@[x] == before.to_source_paths@[x]);
                            }
                        }
                    }
                }
            }
            i = i + 1;
        }
        true
    }
}

/// `answers` reads only the graph, the board knowledge and the sources.
proof fn lemma_answers_frame(
    a: &AnnealingState,
    b: &AnnealingState,
    c: int,
    used: Seq<bool>,
    start: int,
    dw: Seq<Seq<i64>>,
    r: Option<Seq<usize>>,
)
    requires
        a.graph == b.graph,
        a.state == b.state,
        a.source@ == b.source@,
    ensures
        a.answers(c, used, start, dw, r) == b.answers(c, used, start, dw, r),
{
    assert forall|es: Seq<usize>|
        #![trigger a.leads_to_source(start, es)]
        #![trigger b.leads_to_source(start, es)]
        a.leads_to_source(start, es) == b.leads_to_source(start, es) by {}
    assert(edge_costs(a, c) =~= edge_costs(b, c));
    assert(a.graph.edges@ == b.graph.edges@);
}

/// `search_ran` reads only the graph, the board knowledge and the sources.
proof fn lemma_search_frame(
    a: &AnnealingState,
    b: &AnnealingState,
    c: int,
    used: Seq<bool>,
    start: int,
    s0: u64,
    s1: u64,
    dw: Seq<Seq<i64>>,
    dist: Seq<i64>,
    par: Seq<usize>,
    r: Option<Seq<usize>>,
)
    requires
        a.graph == b.graph,
        a.state == b.state,
        a.source@ == b.source@,
    ensures
        a.search_ran(c, used, start, s0, s1, dw, dist, par, r) == b.search_ran(c, used, start, s0, s1, dw, dist, par, r),
{
    lemma_answers_frame(a, b, c, used, start, dw, r);
}

/// `used` with the edges of `path` marked too.
fn mark_path(used: &Vec<bool>, path: &Vec<usize>) -> (marks: Vec<bool>)
    requires
        forall|k: int| 0 <= k < path@.len() ==> #[trigger] path@[k] < used@.len(),
    ensures
        marks@ == marked_with(used@, path@),
{
    let n = used.len();
    let mut marks: Vec<bool> = Vec::new();
    let mut e: usize = 0;
    while e < n
        invariant
            n == used@.len(),
            e <= n,
            marks@ == used@.take(e as int),
        decreases n - e,
    {
        marks.push(used[e]);
        proof {
            assert(marks@ =~= used@.take(e + 1));
        }
        e = e + 1;
    }
    proof {
        assert(marks@ =~= marked_with(used@, path@.take(0)));
    }
    let mut k: usize = 0;
    while k < path.len()
        invariant
            n == used@.len(),
            k <= path@.len(),
            forall|j: int| 0 <= j < path@.len() ==> #[trigger] path@[j] < n,
            marks@ == marked_with(used@, path@.take(k as int)),
        decreases path@.len() - k,
    {
        let e = path[k];
        let ghost before = marks@;
        marks.set(e, true);
        proof {
            assert(path@.take(k + 1) =~= path@.take(k as int).push(e));
            assert forall|x: int| 0 <= x < n implies marks@[x] == marked_with(used@, path@.take(k + 1))[x] by {
                if path@.take(k as int).contains(x as usize) {
                    let m = choose|m: int| 0 <= m < k && #[trigger] path@.take(k as int)[m] == x as usize;
                    assert(path@.take(k + 1)[m] == x as usize);
                }
                if path@.take(k + 1).contains(x as usize) {
                    let m = choose|m: int| 0 <= m < k + 1 && #[trigger] path@.take(k + 1)[m] == x as usize;
                    if m < k {
                        assert(path@.take(k as int)[m] == x as usize);
                    }
                }
                if x == e {
                    assert(path@.take(k + 1)[k as int] == e);
                }
            }
            assert(marks@ =~= marked_with(used@, path@.take(k + 1)));
        }
        k = k + 1;
    }
    proof {
        assert(path@.take(path@.len() as int) =~= path@);
    }
    marks
}

/// Sum of the costs of the edges `es`, each counted as often as it occurs.
pub open spec fn edges_cost(graph: &Graph, state: &State, c: int, es: Seq<usize>) -> int
    decreases es.len(),
{
    if es.len() == 0 {
        0
    } else {
        edge_cost(graph, state, es[0] as int, c) + edges_cost(graph, state, c, es.drop_first())
    }
}

/// Under search weights drawn from the edges' costs, a walk weighs at most
/// twice its cost.
proof fn lemma_walk_weight_le_double(
    a: &AnnealingState,
    c: int,
    used: Seq<bool>,
    dw: Seq<Seq<i64>>,
    start: int,
    es: Seq<usize>,
)
    requires
        a.graph.points_ok(),
        a.graph.edges_ok(),
        damage_ok(&a.state),
        0 <= c <= MAX_C,
        drawn_ok(&a.graph, used, edge_costs(a, c), dw),
        0 <= start < a.graph.points@.len(),
        walk_end(&a.graph, start, es) is Some,
    ensures
        walk_weight(&a.graph, dw, start, es) <= 2 * edges_cost(&a.graph, &a.state, c, es),
    decreases es.len(),
{
    if es.len() > 0 {
        lemma_walk_edges_in_range(&a.graph, start, es, 0);
        let e = es[0] as int;
        lemma_edge_cost_bound(&a.graph, &a.state, e, c);
        let w = edge_cost(&a.graph, &a.state, e, c);
        assert(edge_costs(a, c)[e] == w);
        assert(dw[start][e] <= 2 * w);
        let ed = a.graph.edges@[e];
        assert(ed.u < a.graph.points@.len() && ed.v < a.graph.points@.len());
        lemma_walk_weight_le_double(a, c, used, dw, other(ed, start), es.drop_first());
    }
}

/// The weight of the first `k1` edges in use is at most that of the first
/// `k2`.
proof fn lemma_used_edge_weight_mono(graph: &Graph, state: &State, c: int, used: Seq<bool>, k1: int, k2: int)
    requires
        graph.points_ok(),
        graph.edges_ok(),
        damage_ok(state),
        0 <= c,
        0 <= k1 <= k2 <= graph.edges@.len(),
    ensures
        used_edge_weight(graph, state, c, used, k1) <= used_edge_weight(graph, state, c, used, k2),
    decreases k2 - k1,
{
    if k1 < k2 {
        lemma_used_edge_weight_mono(graph, state, c, used, k1, k2 - 1);
        lemma_edge_cost_nonneg(graph, state, k2 - 1, c);
    }
}

proof fn lemma_walk_edges_in_range(g: &Graph, start: int, es: Seq<usize>, k: int)
    requires
        walk_end(g, start, es) is Some,
        0 <= k < es.len(),
    ensures
        es[k] < g.edges@.len(),
    decreases es.len(),
{
    if k > 0 {
        lemma_walk_edges_in_range(g, other(g.edges@[es[0] as int], start), es.drop_first(), k - 1);
    }
}

/// One step from `p` towards `h`: along the rows when they are farther
/// apart than the columns, along the columns otherwise.
pub open spec fn step_toward(p: Pos, h: Pos) -> Pos {
    let dy = if p.y < h.y { h.y - p.y } else { p.y - h.y };
    let dx = if p.x < h.x { h.x - p.x } else { p.x - h.x };
    if dy > dx {
        if p.y < h.y {
            Pos { y: (p.y + 1) as i64, x: p.x }
        } else {
            Pos { y: (p.y - 1) as i64, x: p.x }
        }
    } else if p.x < h.x {
        Pos { y: p.y, x: (p.x + 1) as i64 }
    } else if p.x > h.x {
        Pos { y: p.y, x: (p.x - 1) as i64 }
    } else {
        p
    }
}

/// The cells from `p` to `h`, both included, taking `step_toward` steps.
pub open spec fn line_walk(p: Pos, h: Pos) -> Seq<Pos>
    decreases manhattan(p, h),
{
    if p == h || manhattan(p, h) <= 0 {
        seq![h]
    } else {
        seq![p] + line_walk(step_toward(p, h), h)
    }
}

/// The cells of the edges `es` in order, edge by edge.
pub open spec fn edges_cells(g: &Graph, es: Seq<usize>) -> Seq<Pos>
    decreases es.len(),
{
    if es.len() == 0 {
        seq![]
    } else {
        let ed = g.edges@[es.last() as int];
        edges_cells(g, es.drop_last()) + line_walk(g.points@[ed.u as int], g.points@[ed.v as int])
    }
}

/// A walk from `p` to `h` starts at `p`, ends at `h`, moves to a
/// side-neighbour at each step and takes the Manhattan distance in steps;
/// each step moves along the rows while the rows are farther apart than the
/// columns, and along the columns otherwise.
pub proof fn law_line_walk(p: Pos, h: Pos)
    requires
        p.valid(),
        h.valid(),
    ensures
        line_walk(p, h).len() == manhattan(p, h) + 1,
        line_walk(p, h)[0] == p,
        line_walk(p, h).last() == h,
        forall|i: int| 0 <= i < line_walk(p, h).len() - 1 ==> adjacent(#[trigger] line_walk(p, h)[i], line_walk(p, h)[i + 1]),
        forall|i: int|
            0 <= i < line_walk(p, h).len() - 1 ==> if abs_int(h.y - (#[trigger] line_walk(p, h)[i]).y) > abs_int(
                h.x - line_walk(p, h)[i].x,
            ) {
                line_walk(p, h)[i + 1].x == line_walk(p, h)[i].x
            } else {
                line_walk(p, h)[i + 1].y == line_walk(p, h)[i].y
            },
    decreases manhattan(p, h),
{
    if p != h {
        let q = step_toward(p, h);
        assert(manhattan(q, h) == manhattan(p, h) - 1);
        assert(adjacent(p, q));
        assert(q.valid());
        law_line_walk(q, h);
        let w = line_walk(p, h);
        let t = line_walk(q, h);
        assert(w == seq![p] + t);
        assert forall|i: int| 0 <= i < w.len() - 1 implies adjacent(#[trigger] w[i], w[i + 1]) by {
            if i == 0 {
                assert(w[1] == t[0]);
            } else {
                assert(w[i] == t[i - 1] && w[i + 1] == t[i]);
            }
        }
        assert forall|i: int| 0 <= i < w.len() - 1 implies if abs_int(h.y - (#[trigger] w[i]).y) > abs_int(h.x - w[i].x) {
            w[i + 1].x == w[i].x
        } else {
            w[i + 1].y == w[i].y
        } by {
            if i == 0 {
                assert(w[1] == t[0]);
            } else {
                assert(w[i] == t[i - 1] && w[i + 1] == t[i]);
            }
        }
    }
}

/// The cells of a list of edges are those of its parts in turn: the cells
/// of `a + b` are the cells of `a` followed by those of `b`, a single edge
/// gives the walk from its first point to its second, and no edge gives no
/// cell.  So every cell of the walk of every listed edge is dug.
pub proof fn law_edges_cells_concat(g: &Graph, a: Seq<usize>, b: Seq<usize>)
    ensures
        edges_cells(g, Seq::<usize>::empty()) == Seq::<Pos>::empty(),
        edges_cells(g, a + b) == edges_cells(g, a) + edges_cells(g, b),
        forall|e: usize| #[trigger] edges_cells(g, seq![e]) == line_walk(
            g.points@[g.edges@[e as int].u as int],
            g.points@[g.edges@[e as int].v as int],
        ),
    decreases b.len(),
{
    assert forall|e: usize| #[trigger] edges_cells(g, seq![e]) == line_walk(
        g.points@[g.edges@[e as int].u as int],
        g.points@[g.edges@[e as int].v as int],
    ) by {
        assert(seq![e].drop_last() =~= Seq::<usize>::empty());
        assert(seq![e].last() == e);
        assert(edges_cells(g, Seq::<usize>::empty()) == Seq::<Pos>::empty());
        assert(edges_cells(g, seq![e]) =~= Seq::<Pos>::empty() + line_walk(
            g.points@[g.edges@[e as int].u as int],
            g.points@[g.edges@[e as int].v as int],
        ));
    }
    if b.len() == 0 {
        assert(a + b =~= a);
        assert(edges_cells(g, a) + edges_cells(g, b) =~= edges_cells(g, a));
    } else {
        law_edges_cells_concat(g, a, b.drop_last());
        assert((a + b).drop_last() =~= a + b.drop_last());
        assert((a + b).last() == b.last());
        let ed = g.edges@[b.last() as int];
        let lw = line_walk(g.points@[ed.u as int], g.points@[ed.v as int]);
        assert(edges_cells(g, a + b) =~= edges_cells(g, a) + edges_cells(g, b.drop_last()) + lw);
    }
}

/// Every cell of the walk of every listed edge is among the cells dug.
pub proof fn law_edges_cells_cover(g: &Graph, es: Seq<usize>, k: int, i: int)
    requires
        0 <= k < es.len(),
        ({
            let ed = g.edges@[es[k] as int];
            0 <= i < line_walk(g.points@[ed.u as int], g.points@[ed.v as int]).len()
        }),
    ensures
        ({
            let ed = g.edges@[es[k] as int];
            edges_cells(g, es).contains(line_walk(g.points@[ed.u as int], g.points@[ed.v as int])[i])
        }),
{
    let ed = g.edges@[es[k] as int];
    let lw = line_walk(g.points@[ed.u as int], g.points@[ed.v as int]);
    let pre = es.take(k);
    let post = es.skip(k + 1);
    assert(es =~= pre + (seq![es[k]] + post));
    law_edges_cells_concat(g, pre, seq![es[k]] + post);
    law_edges_cells_concat(g, seq![es[k]], post);
    let c1 = edges_cells(g, pre);
    let all = c1 + (lw + edges_cells(g, post));
    assert(edges_cells(g, es) == all);
    assert(all[c1.len() + i] == lw[i]);
}

impl Graph {
    /// The cells to open for the edges `edges`: for each edge the cells of
    /// the walk from its first point to its second, stepping along the
    /// farther-apart coordinate first.
    pub fn edge_cells(&self, edges: &Vec<usize>) -> (cells: Vec<Pos>)
        requires
            self.points_ok(),
            self.edges_ok(),
            forall|k: int| 0 <= k < edges@.len() ==> #[trigger] edges@[k] < self.edges@.len(),
        ensures
            cells@ == edges_cells(self, edges@),
    {
        let mut cells: Vec<Pos> = Vec::new();
        let mut k: usize = 0;
        while k < edges.len()
            invariant
                self.points_ok(),
                self.edges_ok(),
                forall|k: int| 0 <= k < edges@.len() ==> #[trigger] edges@[k] < self.edges@.len(),
                k <= edges@.len(),
                cells@ == edges_cells(self, edges@.take(k as int)),
            decreases edges@.len() - k,
        {
            let ed = self.edges[edges[k]];
            proof {
                assert(edges@[k as int] < self.edges@.len());
                assert(self.points@[ed.u as int].valid());
                assert(self.points@[ed.v as int].valid());
            }
            let mut p = self.points[ed.u];
            let h = self.points[ed.v];
            let ghost start = cells@;
            while p != h
                invariant
                    p.valid(),
                    h.valid(),
                    start + line_walk(self.points@[ed.u as int], h) == cells@ + line_walk(p, h),
                decreases manhattan(p, h),
            {
                let ghost p0 = p;
                cells.push(p);
                let dy = if p.y < h.y { h.y - p.y } else { p.y - h.y };
                let dx = if p.x < h.x { h.x - p.x } else { p.x - h.x };
                if dy > dx {
                    if p.y < h.y {
                        p.y = p.y + 1;
                    } else if p.y > h.y {
                        p.y = p.y - 1;
                    }
                } else {
                    if p.x < h.x {
                        p.x = p.x + 1;
                    } else if p.x > h.x {
                        p.x = p.x - 1;
                    }
                }
                proof {
                    assert(p == step_toward(p0, h));
                    assert(line_walk(p0, h) == seq![p0] + line_walk(p, h));
                    assert(cells@ + line_walk(p, h) =~= cells@.drop_last() + (seq![p0] + line_walk(p, h)));
                }
            }
            cells.push(p);
            proof {
                assert(line_walk(p, h) == seq![h]);
                assert(edges@.take(k + 1).drop_last() =~= edges@.take(k as int));
                assert(cells@ =~= start + line_walk(self.points@[ed.u as int], h));
            }
            k = k + 1;
        }
        proof {
            assert(edges@.take(edges@.len() as int) =~= edges@);
        }
        cells
    }
}

/// `cells` without its trailing run of broken cells.
pub open spec fn drop_broken_tail(cells: Seq<Pos>, state: &State) -> Seq<Pos>
    decreases cells.len(),
{
    if cells.len() > 0 && state.is_broken.at(cells.last()) {
        drop_broken_tail(cells.drop_last(), state)
    } else {
        cells
    }
}

/// Drops the broken cells from the end of `cells` and returns the last
/// cell left, if any.
pub fn last_unbroken(cells: &mut Vec<Pos>, state: &State) -> (r: Option<Pos>)
    requires
        state.wf(),
        forall|k: int| 0 <= k < old(cells)@.len() ==> (#[trigger] old(cells)@[k]).valid(),
    ensures
        final(cells)@ == drop_broken_tail(old(cells)@, state),
        r == if final(cells)@.len() > 0 {
            Some(final(cells)@.last())
        } else {
            None::<Pos>
        },
{
    loop
        invariant
            state.wf(),
            forall|k: int| 0 <= k < cells@.len() ==> (#[trigger] cells@[k]).valid(),
            drop_broken_tail(cells@, state) == drop_broken_tail(old(cells)@, state),
        decreases cells@.len(),
    {
        if cells.len() == 0 {
            return None;
        }
        let last = cells[cells.len() - 1];
        proof {
            assert(cells@[cells@.len() - 1].valid());
            lemma_idx_bounds(last);
        }
        if !state.is_broken.get(&last) {
            return Some(last);
        }
        cells.pop();
    }
}

impl AnnealingState {
    /// For every edge in use, in edge order, its two endpoints.
    pub fn used_edge_endpoints(&self) -> (pts: Vec<usize>)
        requires
            self.edge_used@.len() == self.graph.edges@.len(),
        ensures
            pts@ == used_endpoints(self, self.edge_used@.len() as int),
    {
        let mut pts: Vec<usize> = Vec::new();
        let mut e: usize = 0;
        while e < self.graph.edges.len()
            invariant
                self.edge_used@.len() == self.graph.edges@.len(),
                e <= self.graph.edges@.len(),
                pts@ == used_endpoints(self, e as int),
            decreases self.graph.edges@.len() - e,
        {
            if self.edge_used[e] {
                let ed = self.graph.edges[e];
                pts.push(ed.u);
                pts.push(ed.v);
            }
            e = e + 1;
        }
        pts
    }

    /// For every edge in use, in edge order, the cell halfway between its
    /// endpoints (coordinates rounded down).
    pub fn used_edge_midpoints(&self) -> (mids: Vec<Pos>)
        requires
            self.graph.points_ok(),
            self.graph.edges_ok(),
            self.edge_used@.len() == self.graph.edges@.len(),
        ensures
            mids@ == used_midpoints(self, self.edge_used@.len() as int),
    {
        let mut mids: Vec<Pos> = Vec::new();
        let mut e: usize = 0;
        while e < self.graph.edges.len()
            invariant
                self.graph.points_ok(),
                self.graph.edges_ok(),
                self.edge_used@.len() == self.graph.edges@.len(),
                e <= self.graph.edges@.len(),
                mids@ == used_midpoints(self, e as int),
            decreases self.graph.edges@.len() - e,
        {
            if self.edge_used[e] {
                let ed = self.graph.edges[e];
                proof {
                    assert(self.graph.edges@[e as int].u < self.graph.points@.len());
                    assert(self.graph.points@[ed.u as int].valid());
                    assert(self.graph.points@[ed.v as int].valid());
                }
                let u = self.graph.points[ed.u];
                let v = self.graph.points[ed.v];
                mids.push(Pos { x: (u.x + v.x) / 2, y: (u.y + v.y) / 2 });
            }
            e = e + 1;
        }
        mids
    }
}

/// Endpoints of the used edges below `k`, in order.
pub open spec fn used_endpoints(a: &AnnealingState, k: int) -> Seq<usize>
    decreases k,
{
    if k <= 0 {
        seq![]
    } else if a.edge_used@[k - 1] {
        used_endpoints(a, k - 1).push(a.graph.edges@[k - 1].u).push(a.graph.edges@[k - 1].v)
    } else {
        used_endpoints(a, k - 1)
    }
}

/// Midpoints of the used edges below `k`, in order.
pub open spec fn used_midpoints(a: &AnnealingState, k: int) -> Seq<Pos>
    decreases k,
{
    if k <= 0 {
        seq![]
    } else if a.edge_used@[k - 1] {
        let ed = a.graph.edges@[k - 1];
        let u = a.graph.points@[ed.u as int];
        let v = a.graph.points@[ed.v as int];
        used_midpoints(a, k - 1).push(Pos { x: ((u.x + v.x) / 2) as i64, y: ((u.y + v.y) / 2) as i64 })
    } else {
        used_midpoints(a, k - 1)
    }
}

/// Pair `j` of `ep` (its entries `2 * j` and `2 * j + 1`) are the first and
/// second point of an edge in use below `k`.
pub open spec fn used_pair_edge(a: &AnnealingState, ep: Seq<usize>, j: int, k: int) -> bool {
    exists|e: int|
        0 <= e < k && a.edge_used@[e] && ep[2 * j] == (#[trigger] a.graph.edges@[e]).u && ep[2 * j + 1]
            == a.graph.edges@[e].v
}

proof fn lemma_used_midpoints(a: &AnnealingState, k: int)
    requires
        a.graph.points_ok(),
        a.graph.edges_ok(),
        a.edge_used@.len() == a.graph.edges@.len(),
        0 <= k <= a.edge_used@.len(),
    ensures
        2 * used_midpoints(a, k).len() == used_endpoints(a, k).len(),
        forall|j: int|
            0 <= j < used_midpoints(a, k).len() ==> {
                let m = #[trigger] used_midpoints(a, k)[j];
                let u = a.graph.points@[used_endpoints(a, k)[2 * j] as int];
                let v = a.graph.points@[used_endpoints(a, k)[2 * j + 1] as int];
                &&& u.y + v.y - 1 <= 2 * m.y <= u.y + v.y
                &&& u.x + v.x - 1 <= 2 * m.x <= u.x + v.x
            },
        forall|j: int|
            0 <= j < used_midpoints(a, k).len() ==> #[trigger] used_pair_edge(a, used_endpoints(a, k), j, k),
    decreases k,
{
    if k > 0 {
        lemma_used_midpoints(a, k - 1);
        let mids0 = used_midpoints(a, k - 1);
        let ep0 = used_endpoints(a, k - 1);
        let mids = used_midpoints(a, k);
        let ep = used_endpoints(a, k);
        if a.edge_used@[k - 1] {
            let ed = a.graph.edges@[k - 1];
            assert(ed.u < a.graph.points@.len() && ed.v < a.graph.points@.len());
            let u = a.graph.points@[ed.u as int];
            let v = a.graph.points@[ed.v as int];
            assert(u.valid() && v.valid());
            let l = mids0.len() as int;
            assert(ep[2 * l] == ed.u && ep[2 * l + 1] == ed.v);
            assert forall|j: int| 0 <= j < mids.len() implies {
                let m = #[trigger] mids[j];
                let pu = a.graph.points@[ep[2 * j] as int];
                let pv = a.graph.points@[ep[2 * j + 1] as int];
                &&& pu.y + pv.y - 1 <= 2 * m.y <= pu.y + pv.y
                &&& pu.x + pv.x - 1 <= 2 * m.x <= pu.x + pv.x
            } by {
                if j < l {
                    assert(mids[j] == mids0[j]);
                    assert(ep[2 * j] == ep0[2 * j] && ep[2 * j + 1] == ep0[2 * j + 1]);
                }
            }
            assert forall|j: int| 0 <= j < mids.len() implies #[trigger] used_pair_edge(a, ep, j, k) by {
                if j < l {
                    assert(ep[2 * j] == ep0[2 * j] && ep[2 * j + 1] == ep0[2 * j + 1]);
                    assert(used_pair_edge(a, ep0, j, k - 1));
                    let e = choose|e: int|
                        0 <= e < k - 1 && a.edge_used@[e] && ep0[2 * j] == (#[trigger] a.graph.edges@[e]).u && ep0[2
                            * j + 1] == a.graph.edges@[e].v;
                    assert(a.graph.edges@[e] == a.graph.edges@[e]);
                } else {
                    assert(ep[2 * j] == a.graph.edges@[k - 1].u);
                    assert(a.graph.edges@[k - 1] == ed);
                }
            }
        } else {
            assert forall|j: int| 0 <= j < mids.len() implies #[trigger] used_pair_edge(a, ep, j, k) by {
                assert(used_pair_edge(a, ep0, j, k - 1));
                let e = choose|e: int|
                    0 <= e < k - 1 && a.edge_used@[e] && ep0[2 * j] == (#[trigger] a.graph.edges@[e]).u && ep0[2 * j
                        + 1] == a.graph.edges@[e].v;
                assert(a.graph.edges@[e] == a.graph.edges@[e]);
            }
        }
    }
}

/// Each refinement point is the cell halfway between the two endpoints of
/// an edge in use: `used_edge_midpoints` gives one per pair listed by
/// `used_edge_endpoints`, in the same order, each pair being the endpoints
/// of an edge in use, and each coordinate of the midpoint is half the sum of
/// the endpoints' coordinates, rounded down.
pub proof fn law_midpoints_halfway(a: &AnnealingState)
    requires
        a.graph.points_ok(),
        a.graph.edges_ok(),
        a.edge_used@.len() == a.graph.edges@.len(),
    ensures
        ({
            let n = a.edge_used@.len() as int;
            let mids = used_midpoints(a, n);
            let ep = used_endpoints(a, n);
            &&& 2 * mids.len() == ep.len()
            &&& forall|j: int|
                0 <= j < mids.len() ==> {
                    let m = #[trigger] mids[j];
                    let u = a.graph.points@[ep[2 * j] as int];
                    let v = a.graph.points@[ep[2 * j + 1] as int];
                    &&& u.y + v.y - 1 <= 2 * m.y <= u.y + v.y
                    &&& u.x + v.x - 1 <= 2 * m.x <= u.x + v.x
                }
            &&& forall|j: int| 0 <= j < mids.len() ==> #[trigger] used_pair_edge(a, ep, j, n)
        }),
{
    lemma_used_midpoints(a, a.edge_used@.len() as int);
}

/// `x` is the column of some source or house.
pub open spec fn is_input_x(input: &Input, x: i64) -> bool {
    (exists|k: int| 0 <= k < input.source@.len() && (#[trigger] input.source@[k]).x == x) || (exists|k: int|
        0 <= k < input.house@.len() && (#[trigger] input.house@[k]).x == x)
}

/// `y` is the row of some source or house.
pub open spec fn is_input_y(input: &Input, y: i64) -> bool {
    (exists|k: int| 0 <= k < input.source@.len() && (#[trigger] input.source@[k]).y == y) || (exists|k: int|
        0 <= k < input.house@.len() && (#[trigger] input.house@[k]).y == y)
}

/// Appends `x` unless `v` already holds it.
fn push_unique(v: &mut Vec<i64>, x: i64)
    ensures
        forall|y: i64| final(v)@.contains(y) <==> (old(v)@.contains(y) || y == x),
        old(v)@.no_duplicates() ==> final(v)@.no_duplicates(),
{
    let mut k: usize = 0;
    while k < v.len()
        invariant
            k <= v@.len(),
            forall|j: int| 0 <= j < k ==> v@[j] != x,
        decreases v@.len() - k,
    {
        if v[k] == x {
            return;
        }
        k = k + 1;
    }
    let ghost before = v@;
    v.push(x);
    proof {
        assert forall|y: i64| v@.contains(y) <==> (before.contains(y) || y == x) by {
            if v@.contains(y) {
                let j = choose|j: int| 0 <= j < v@.len() && v@[j] == y;
                if j < before.len() {
                    assert(before[j] == y);
                }
            }
            if before.contains(y) {
                let j = choose|j: int| 0 <= j < before.len() && before[j] == y;
                assert(v@[j] == y);
            }
            if y == x {
                assert(v@[before.len() as int] == x);
            }
        }
    }
}

/// Strictly increasing.
pub open spec fn strictly_increasing(s: Seq<i64>) -> bool {
    forall|i: int, j: int| 0 <= i < j < s.len() ==> (#[trigger] s[i]) < (#[trigger] s[j])
}

proof fn lemma_sorted_distinct_strict(s: Seq<i64>, t: Seq<i64>)
    requires
        t.no_duplicates(),
        s.to_multiset() == t.to_multiset(),
        forall|i: int, j: int| 0 <= i < j < s.len() ==> (#[trigger] s[i]) <= (#[trigger] s[j]),
    ensures
        strictly_increasing(s),
        forall|y: i64| s.contains(y) <==> t.contains(y),
{
    broadcast use vstd::seq_lib::group_to_multiset_ensures;
    t.lemma_multiset_has_no_duplicates();
    assert forall|i: int, j: int| 0 <= i < j < s.len() implies (#[trigger] s[i]) < (#[trigger] s[j]) by {
        if s[i] == s[j] {
            assert(s.to_multiset().count(s[i]) == 1) by {
                assert(s.contains(s[i]));
            }
            let r = s.remove(j);
            assert(r.contains(s[i])) by {
                assert(r[i] == s[i]);
            }
            assert(r.to_multiset() == s.to_multiset().remove(s[j]));
            assert(r.to_multiset().count(s[i]) == 0);
        }
    }
    assert forall|y: i64| s.contains(y) <==> t.contains(y) by {
        assert(s.contains(y) <==> s.to_multiset().count(y) > 0);
        assert(t.contains(y) <==> t.to_multiset().count(y) > 0);
    }
}

/// The columns and the rows of the sources and houses, each in increasing
/// order without repeats.
pub fn grid_axis_seeds(input: &Input) -> (r: (Vec<i64>, Vec<i64>))
    ensures
        strictly_increasing(r.0@),
        strictly_increasing(r.1@),
        forall|x: i64| r.0@.contains(x) <==> is_input_x(input, x),
        forall|y: i64| r.1@.contains(y) <==> is_input_y(input, y),
{
    let mut xs: Vec<i64> = Vec::new();
    let mut ys: Vec<i64> = Vec::new();
    let mut k: usize = 0;
    while k < input.source.len()
        invariant
            k <= input.source@.len(),
            xs@.no_duplicates(),
            ys@.no_duplicates(),
            forall|x: i64| xs@.contains(x) <==> exists|j: int| 0 <= j < k && (#[trigger] input.source@[j]).x == x,
            forall|y: i64| ys@.contains(y) <==> exists|j: int| 0 <= j < k && (#[trigger] input.source@[j]).y == y,
        decreases input.source@.len() - k,
    {
        let src = input.source[k];
        push_unique(&mut xs, src.x);
        push_unique(&mut ys, src.y);
        proof {
            assert forall|x: i64| xs@.contains(x) <==> exists|j: int| 0 <= j < k + 1 && (#[trigger] input.source@[j]).x == x by {
                if x == src.x {
                    assert(input.source@[k as int].x == x);
                }
            }
            assert forall|y: i64| ys@.contains(y) <==> exists|j: int| 0 <= j < k + 1 && (#[trigger] input.source@[j]).y == y by {
                if y == src.y {
                    assert(input.source@[k as int].y == y);
                }
            }
        }
        k = k + 1;
    }
    let mut k: usize = 0;
    while k < input.house.len()
        invariant
            k <= input.house@.len(),
            xs@.no_duplicates(),
            ys@.no_duplicates(),
            forall|x: i64| xs@.contains(x) <==> (exists|j: int| 0 <= j < input.source@.len() && (#[trigger] input.source@[j]).x == x)
                || exists|j: int| 0 <= j < k && (#[trigger] input.house@[j]).x == x,
            forall|y: i64| ys@.contains(y) <==> (exists|j: int| 0 <= j < input.source@.len() && (#[trigger] input.source@[j]).y == y)
                || exists|j: int| 0 <= j < k && (#[trigger] input.house@[j]).y == y,
        decreases input.house@.len() - k,
    {
        let h = input.house[k];
        push_unique(&mut xs, h.x);
        push_unique(&mut ys, h.y);
        proof {
            assert forall|x: i64| xs@.contains(x) <==> (exists|j: int| 0 <= j < input.source@.len() && (#[trigger] input.source@[j]).x == x)
                || exists|j: int| 0 <= j < k + 1 && (#[trigger] input.house@[j]).x == x by {
                if x == h.x {
                    assert(input.house@[k as int].x == x);
                }
            }
            assert forall|y: i64| ys@.contains(y) <==> (exists|j: int| 0 <= j < input.source@.len() && (#[trigger] input.source@[j]).y == y)
                || exists|j: int| 0 <= j < k + 1 && (#[trigger] input.house@[j]).y == y by {
                if y == h.y {
                    assert(input.house@[k as int].y == y);
                }
            }
        }
        k = k + 1;
    }
    let ghost ux = xs@;
    let ghost uy = ys@;
    sort_i64(&mut xs);
    sort_i64(&mut ys);
    proof {
        lemma_sorted_distinct_strict(xs@, ux);
        lemma_sorted_distinct_strict(ys@, uy);
    }
    (xs, ys)
}

} // verus!
