use vstd::prelude::*;
use crate::def::{Input, Pos, State, Vec2d, INF, N, S_MAX, cell_count, lemma_idx_bounds, lemma_idx_injective};
use crate::grid::{
    Grid, lemma_set_fits, MAX_C, MAX_WEIGHT, is_walk, walk_cost, unconnected_prefix, dfs_from, no_parent, start_seen, used_sum, lemma_used_sum_bounds,
    lemma_used_sum_update,
};
use crate::util::rnd::{Xorshift, advance, gen_range, shuffle, shuffle_prefix, xorshift};

verus! {

broadcast use vstd::seq_lib::group_to_multiset_ensures;

/// The instance is one the route planner can work on: at least one source,
/// all houses and sources on the board, and a bounded cost per cell.
pub open spec fn planning_input(input: &Input) -> bool {
    &&& input.source@.len() > 0
    &&& forall|i: int| 0 <= i < input.source@.len() ==> (#[trigger] input.source@[i]).valid()
    &&& forall|i: int| 0 <= i < input.house@.len() ==> (#[trigger] input.house@[i]).valid()
    &&& 0 <= input.c <= MAX_C
}

/// The grid plans for exactly the houses and sources of the instance.
pub open spec fn grid_for(grid: &Grid, input: &Input) -> bool {
    &&& grid.wf()
    &&& grid.house@ == input.house@
    &&& grid.source@ == input.source@
}

/// Water reaches every house.
pub open spec fn all_connected(grid: &Grid) -> bool {
    forall|i: int| 0 <= i < grid.house@.len() ==> #[trigger] grid.connected(grid.house@[i])
}

/// Every cell used in `a` is used in `b`.
pub open spec fn used_le(a: Seq<bool>, b: Seq<bool>) -> bool {
    &&& a.len() == b.len()
    &&& forall|i: int| 0 <= i < a.len() && #[trigger] a[i] ==> b[i]
}

/// A record of the previous state of a cell.
pub struct Change {
    pub p: Pos,
    pub prev: bool,
}

/// The plan obtained by undoing the changes of `cs`, last first.
pub open spec fn undo(used: Seq<bool>, cs: Seq<Change>) -> Seq<bool>
    decreases cs.len(),
{
    if cs.len() == 0 {
        used
    } else {
        undo(used.update(cs.last().p.idx(), cs.last().prev), cs.drop_last())
    }
}

/// Adding used cells keeps every connected cell connected.
pub proof fn lemma_connected_monotone(g1: &Grid, g2: &Grid, h: Pos)
    requires
        g1.is_used.covers_board(),
        used_le(g1.is_used@, g2.is_used@),
        g1.source@ == g2.source@,
        g1.connected(h),
    ensures
        g2.connected(h),
{
    let r = choose|r: Seq<Pos>| #[trigger] g1.is_route(r) && r[0] == h;
    assert forall|k: int| 1 <= k < r.len() implies g2.usable(#[trigger] r[k]) by {
        assert(g1.usable(r[k]));
        assert(r[k].valid());
        lemma_idx_bounds(r[k]);
    }
    assert(g2.is_route(r) && r[0] == h);
}

/// The first cell of `w` at or after `k` that is a source.
proof fn lemma_first_source(g: &Grid, w: Seq<Pos>, k: int) -> (j: int)
    requires
        0 <= k < w.len(),
        g.source@.contains(w.last()),
        forall|m: int| 0 <= m < k ==> !g.source@.contains(#[trigger] w[m]),
    ensures
        k <= j < w.len(),
        g.source@.contains(w[j]),
        forall|m: int| 0 <= m < j ==> !g.source@.contains(#[trigger] w[m]),
    decreases w.len() - k,
{
    if g.source@.contains(w[k]) {
        k
    } else {
        lemma_first_source(g, w, k + 1)
    }
}

/// A walk without repeated cells that ends at a source and whose cells
/// after the first are all used connects its first cell.
pub proof fn lemma_path_connects(g: &Grid, w: Seq<Pos>)
    requires
        is_walk(w),
        w.no_duplicates(),
        g.source@.contains(w.last()),
        forall|k: int| 1 <= k < w.len() ==> g.is_used.at(#[trigger] w[k]),
    ensures
        g.connected(w[0]),
{
    let j = lemma_first_source(g, w, 0);
    let r = w.take(j + 1);
    assert forall|k: int| 0 <= k < r.len() implies (#[trigger] r[k]).valid() by {
        assert(w[k].valid());
    }
    assert forall|k: int| 0 <= k < r.len() - 1 implies crate::def::adjacent(#[trigger] r[k], r[k + 1]) by {
        assert(crate::def::adjacent(w[k], w[k + 1]));
    }
    assert forall|k: int| 1 <= k < r.len() implies g.usable(#[trigger] r[k]) by {
        assert(g.is_used.at(w[k]));
    }
    assert forall|k: int| 0 <= k < r.len() - 1 implies !g.source@.contains(#[trigger] r[k]) by {
        assert(!g.source@.contains(w[k]));
    }
    assert(g.is_route(r) && r[0] == w[0]);
}

/// The listed unconnected houses are exactly the unconnected ones.
pub proof fn lemma_unconnected_prefix(g: &Grid, k: int)
    requires
        0 <= k <= g.house@.len(),
    ensures
        forall|x: usize| #[trigger] unconnected_prefix(g, k).contains(x) ==> x < k,
        forall|j: int|
            0 <= j < k && !g.connected(#[trigger] g.house@[j]) ==> unconnected_prefix(g, k).contains(
                j as usize,
            ),
    decreases k,
{
    if k > 0 {
        lemma_unconnected_prefix(g, k - 1);
        let prev = unconnected_prefix(g, k - 1);
        if !g.connected(g.house@[k - 1]) {
            let cur = prev.push((k - 1) as usize);
            assert(cur[cur.len() - 1] == (k - 1) as usize);
            assert forall|x: usize| #[trigger] cur.contains(x) implies x < k by {
                let m = choose|m: int| 0 <= m < cur.len() && cur[m] == x;
                if m < prev.len() {
                    assert(prev[m] == x);
                    assert(prev.contains(x));
                }
            }
            assert forall|j: int|
                0 <= j < k && !g.connected(#[trigger] g.house@[j]) implies cur.contains(j as usize) by {
                if j < k - 1 {
                    assert(prev.contains(j as usize));
                    let m = choose|m: int| 0 <= m < prev.len() && prev[m] == j as usize;
                    assert(cur[m] == j as usize);
                } else {
                    assert(cur[cur.len() - 1] == j as usize);
                }
            }
        }
    }
}

/// Grid of estimated weights for the instance in which exactly the houses
/// and the sources are used and the score starts at zero.
pub fn generate_estimated_grid(input: &Input, estimated_weight: Vec2d<i64>) -> (g: Grid)
    requires
        estimated_weight.covers_board(),
        forall|i: int| 0 <= i < cell_count() ==> 0 <= #[trigger] estimated_weight@[i] <= MAX_WEIGHT,
        forall|i: int| 0 <= i < input.source@.len() ==> (#[trigger] input.source@[i]).valid(),
        forall|i: int| 0 <= i < input.house@.len() ==> (#[trigger] input.house@[i]).valid(),
    ensures
        grid_for(&g, input),
        g.total_score == 0,
        g.estimated_weight@ == estimated_weight@,
        forall|p: Pos|
            p.valid() ==> (#[trigger] g.is_used.at(p) <==> (input.house@.contains(p)
                || input.source@.contains(p))),
{
    let mut is_used: Vec2d<bool> = Vec2d::new(N, N, false);
    let mut i: usize = 0;
    while i < input.house.len()
        invariant
            is_used.covers_board(),
            forall|i: int| 0 <= i < input.house@.len() ==> (#[trigger] input.house@[i]).valid(),
            i <= input.house@.len(),
            forall|p: Pos|
                p.valid() ==> (#[trigger] is_used.at(p) <==> input.house@.take(i as int).contains(p)),
        decreases input.house@.len() - i,
    {
        let h = input.house[i];
        proof {
            lemma_idx_bounds(h);
        }
        let ghost before = is_used;
        is_used.set(&h, true);
        proof {
            assert forall|p: Pos| p.valid() implies (#[trigger] is_used.at(p) <==> input.house@.take(
                i + 1,
            ).contains(p)) by {
                lemma_idx_bounds(p);
                let t = input.house@.take(i + 1);
                assert(t =~= input.house@.take(i as int).push(h));
                if p.idx() == h.idx() {
                    crate::def::lemma_idx_injective(p, h);
                    assert(t[i as int] == h);
                } else {
                    assert(before.at(p) == is_used.at(p));
                    if t.contains(p) {
                        let m = choose|m: int| 0 <= m < t.len() && t[m] == p;
                        assert(m != i);
                        assert(input.house@.take(i as int)[m] == p);
                    }
                    if input.house@.take(i as int).contains(p) {
                        let m = choose|m: int| 0 <= m < i && input.house@.take(i as int)[m] == p;
                        assert(t[m] == p);
                    }
                }
            }
        }
        i = i + 1;
    }
    proof {
        assert(input.house@.take(input.house@.len() as int) =~= input.house@);
    }
    let mut j: usize = 0;
    while j < input.source.len()
        invariant
            is_used.covers_board(),
            forall|i: int| 0 <= i < input.source@.len() ==> (#[trigger] input.source@[i]).valid(),
            j <= input.source@.len(),
            forall|p: Pos|
                p.valid() ==> (#[trigger] is_used.at(p) <==> (input.house@.contains(p)
                    || input.source@.take(j as int).contains(p))),
        decreases input.source@.len() - j,
    {
        let s = input.source[j];
        proof {
            lemma_idx_bounds(s);
        }
        let ghost before = is_used;
        is_used.set(&s, true);
        proof {
            assert forall|p: Pos| p.valid() implies (#[trigger] is_used.at(p) <==> (
            input.house@.contains(p) || input.source@.take(j + 1).contains(p))) by {
                lemma_idx_bounds(p);
                let t = input.source@.take(j + 1);
                assert(t =~= input.source@.take(j as int).push(s));
                if p.idx() == s.idx() {
                    crate::def::lemma_idx_injective(p, s);
                    assert(t[j as int] == s);
                } else {
                    assert(before.at(p) == is_used.at(p));
                    if t.contains(p) {
                        let m = choose|m: int| 0 <= m < t.len() && t[m] == p;
                        assert(m != j);
                        assert(input.source@.take(j as int)[m] == p);
                    }
                    if input.source@.take(j as int).contains(p) {
                        let m = choose|m: int| 0 <= m < j && input.source@.take(j as int)[m] == p;
                        assert(t[m] == p);
                    }
                }
            }
        }
        j = j + 1;
    }
    proof {
        assert(input.source@.take(input.source@.len() as int) =~= input.source@);
        lemma_used_sum_bounds(is_used@, estimated_weight@, cell_count());
    }
    let house = copy_positions(&input.house);
    let source = copy_positions(&input.source);
    Grid { total_score: 0, estimated_weight, is_used, house, source }
}

/// A copy of a list of cells.
fn copy_positions(v: &Vec<Pos>) -> (r: Vec<Pos>)
    ensures
        r@ == v@,
{
    let mut r: Vec<Pos> = Vec::new();
    let mut i: usize = 0;
    while i < v.len()
        invariant
            i <= v@.len(),
            r@ == v@.take(i as int),
        decreases v@.len() - i,
    {
        r.push(v[i]);
        proof {
            assert(v@.take(i + 1) =~= v@.take(i as int).push(v@[i as int]));
        }
        i = i + 1;
    }
    proof {
        assert(v@.take(v@.len() as int) =~= v@);
    }
    r
}

/// `after` is `before` with the cells of `w` used as well and everything
/// else as it was; the score differs by the weight of the newly used cells.
pub open spec fn path_marked(before: &Grid, after: &Grid, w: Seq<Pos>) -> bool {
    &&& after.wf()
    &&& same_frame(before, after)
    &&& forall|q: Pos| q.valid() ==> #[trigger] after.is_used.at(q) == (before.is_used.at(q) || w.contains(q))
}

/// `w` is a cheapest walk on `g`, at excavation cost `c`, from `start` to one
/// of `source`.
pub open spec fn cheapest_walk(g: &Grid, c: int, start: Pos, source: Seq<Pos>, w: Seq<Pos>) -> bool {
    &&& is_walk(w)
    &&& w[0] == start
    &&& source.contains(w.last())
    &&& forall|w2: Seq<Pos>|
        #[trigger] is_walk(w2) && w2[0] == start && source.contains(w2.last()) ==> walk_cost(g, c, w)
            <= walk_cost(g, c, w2)
}

/// `plans[i + 1]` is `plans[i]` with a cheapest walk `walks[i]` from house
/// `i` (on `plans[i]`, at the instance's cost) marked used.
pub open spec fn connects_in_turn(input: &Input, walks: Seq<Seq<Pos>>, plans: Seq<Grid>) -> bool {
    &&& plans.len() == walks.len() + 1
    &&& walks.len() <= input.house@.len()
    &&& forall|i: int|
        0 <= i < walks.len() ==> cheapest_walk(
            &plans[i],
            input.c as int,
            input.house@[i],
            input.source@,
            #[trigger] walks[i],
        ) && path_marked(&plans[i], &plans[i + 1], walks[i])
}

/// Marks every cell of `path` used.
fn use_path(grid: &mut Grid, path: &Vec<Pos>)
    requires
        old(grid).wf(),
        forall|k: int| 0 <= k < path@.len() ==> (#[trigger] path@[k]).valid(),
    ensures
        path_marked(old(grid), final(grid), path@),
{
    let mut k: usize = 0;
    while k < path.len()
        invariant
            grid.wf(),
            forall|k: int| 0 <= k < path@.len() ==> (#[trigger] path@[k]).valid(),
            k <= path@.len(),
            same_frame(old(grid), grid),
            forall|q: Pos| q.valid() ==> #[trigger] grid.is_used.at(q) == (old(grid).is_used.at(q)
                || path@.take(k as int).contains(q)),
        decreases path@.len() - k,
    {
        let p = path[k];
        proof {
            lemma_idx_bounds(p);
        }
        let ghost before = *grid;
        proof {
            lemma_set_fits(grid, p, true);
        }
        grid.set(&p, true);
        proof {
            assert(path@.take(k + 1) =~= path@.take(k as int).push(p));
            assert forall|q: Pos| q.valid() implies #[trigger] grid.is_used.at(q) == (old(grid).is_used.at(q)
                || path@.take(k + 1).contains(q)) by {
                lemma_idx_bounds(q);
                let t1 = path@.take(k + 1);
                let t0 = path@.take(k as int);
                if q == p {
                    assert(t1[k as int] == q);
                } else {
                    if q.idx() == p.idx() {
                        lemma_idx_injective(q, p);
                    }
                    assert(grid.is_used.at(q) == before.is_used.at(q));
                    if t1.contains(q) {
                        let m = choose|m: int| 0 <= m < t1.len() && #[trigger] t1[m] == q;
                        assert(t0[m] == q);
                    }
                    if t0.contains(q) {
                        let m = choose|m: int| 0 <= m < t0.len() && #[trigger] t0[m] == q;
                        assert(t1[m] == q);
                    }
                }
            }
        }
        k = k + 1;
    }
    proof {
        assert(path@.take(path@.len() as int) =~= path@);
    }
}

/// Marking cells used keeps every used cell used.
proof fn lemma_marked_grows(before: &Grid, after: &Grid, w: Seq<Pos>)
    requires
        before.wf(),
        path_marked(before, after, w),
    ensures
        used_le(before.is_used@, after.is_used@),
{
    assert forall|i: int| 0 <= i < before.is_used@.len() && #[trigger] before.is_used@[i] implies after.is_used@[i] by {
        let q = cell_at(i);
        lemma_cell_at(i);
        assert(before.is_used.at(q));
        assert(after.is_used.at(q));
    }
}

/// Connects house `i` to its nearest source: marks the cells of a cheapest
/// walk from the house to a source used and returns that walk.  No other
/// cell changes, and the score grows by the weight of the newly used cells.
pub fn connect_house(input: &Input, grid: &mut Grid, i: usize) -> (path: Vec<Pos>)
    requires
        planning_input(input),
        grid_for(old(grid), input),
        i < input.house@.len(),
    ensures
        grid_for(final(grid), input),
        cheapest_walk(old(grid), input.c as int, input.house@[i as int], input.source@, path@),
        path_marked(old(grid), final(grid), path@),
        used_le(old(grid).is_used@, final(grid).is_used@),
        final(grid).connected(input.house@[i as int]),
{
    let (path, _) = grid.find_path_to_nearest_source(&input.house[i], INF, &input.source, input.c);
    let ghost g0 = *grid;
    use_path(grid, &path);
    proof {
        assert forall|k: int| 0 <= k < path@.len() implies grid.is_used.at(#[trigger] path@[k]) by {
            assert(path@.contains(path@[k]));
            assert(path@[k].valid());
        }
        lemma_path_connects(grid, path@);
        lemma_marked_grows(&g0, grid, path@);
    }
    path
}

/// Connects every house to its nearest source, in house order, marking the
/// cells of each cheapest walk used: house `i` gets a cheapest walk on the
/// plan as it stands after the houses before it, only the cells of those
/// walks become used, and the score grows by their newly used weight.
pub fn generate_route(input: &Input, grid: &mut Grid)
    requires
        planning_input(input),
        grid_for(old(grid), input),
    ensures
        grid_for(final(grid), input),
        all_connected(final(grid)),
        used_le(old(grid).is_used@, final(grid).is_used@),
        final(grid).estimated_weight@ == old(grid).estimated_weight@,
        same_frame(old(grid), final(grid)),
        exists|walks: Seq<Seq<Pos>>, plans: Seq<Grid>|
            #[trigger] connects_in_turn(input, walks, plans) && walks.len() == input.house@.len() && plans[0]
                == *old(grid) && plans.last() == *final(grid),
{
    let ghost mut walks: Seq<Seq<Pos>> = seq![];
    let ghost mut plans: Seq<Grid> = seq![*grid];
    let mut i: usize = 0;
    while i < input.house.len()
        invariant
            planning_input(input),
            grid_for(grid, input),
            i <= input.house@.len(),
            used_le(old(grid).is_used@, grid.is_used@),
            grid.estimated_weight@ == old(grid).estimated_weight@,
            same_frame(old(grid), grid),
            forall|j: int| 0 <= j < i ==> #[trigger] grid.connected(input.house@[j]),
            connects_in_turn(input, walks, plans),
            walks.len() == i,
            plans[0] == *old(grid),
            plans.last() == *grid,
        decreases input.house@.len() - i,
    {
        let ghost before = *grid;
        let path = connect_house(input, grid, i);
        proof {
            assert forall|j: int| 0 <= j < i + 1 implies #[trigger] grid.connected(input.house@[j]) by {
                if j < i {
                    lemma_connected_monotone(&before, grid, input.house@[j]);
                }
            }
            let w0 = walks;
            let p0 = plans;
            walks = w0.push(path@);
            plans = p0.push(*grid);
            assert forall|k: int| 0 <= k < walks.len() implies cheapest_walk(
                &plans[k],
                input.c as int,
                input.house@[k],
                input.source@,
                #[trigger] walks[k],
            ) && path_marked(&plans[k], &plans[k + 1], walks[k]) by {
                if k < i {
                    assert(walks[k] == w0[k]);
                    assert(plans[k] == p0[k]);
                    assert(plans[k + 1] == p0[k + 1]);
                } else {
                    assert(plans[k] == before);
                }
            }
        }
        i = i + 1;
    }
}

/// Every logged cell lies on the board.
pub open spec fn changes_ok(cs: Seq<Change>) -> bool {
    forall|k: int| 0 <= k < cs.len() ==> (#[trigger] cs[k]).p.valid()
}

/// The part of the grid that only `set` changes stayed put.
pub open spec fn same_frame(a: &Grid, b: &Grid) -> bool {
    &&& a.estimated_weight@ == b.estimated_weight@
    &&& a.house@ == b.house@
    &&& a.source@ == b.source@
    &&& a.used_total() - a.total_score == b.used_total() - b.total_score
}

/// Sets cell `p` after logging its previous state in `changes`.
fn log_and_set(grid: &mut Grid, p: &Pos, v: bool, changes: &mut Vec<Change>)
    requires
        old(grid).wf(),
        p.valid(),
        changes_ok(old(changes)@),
    ensures
        final(grid).wf(),
        Grid::set_relation(old(grid), final(grid), *p, v),
        same_frame(old(grid), final(grid)),
        changes_ok(final(changes)@),
        undo(final(grid).is_used@, final(changes)@) == undo(old(grid).is_used@, old(changes)@),
        final(changes)@ == old(changes)@.push(Change { p: *p, prev: old(grid).is_used.at(*p) }),
{
    proof {
        lemma_idx_bounds(*p);
    }
    let prev = grid.is_used.get(p);
    changes.push(Change { p: *p, prev });
    proof {
        lemma_set_fits(grid, *p, v);
    }
    grid.set(p, v);
    proof {
        law_logged_set_undone(old(grid).is_used@, old(changes)@, *p, v);
    }
}

/// `after` is `before` with the cells of `route` no longer used and
/// everything else as it was.
pub open spec fn route_cleared(before: &Grid, after: &Grid, route: Seq<Pos>) -> bool {
    &&& after.wf()
    &&& same_frame(before, after)
    &&& forall|q: Pos| q.valid() ==> #[trigger] after.is_used.at(q) == (before.is_used.at(q) && !route.contains(q))
}

/// Clears every cell of `path`, logging the previous states: one entry per
/// cell of `path`, in order, appended to `changes`.
fn clear_path(grid: &mut Grid, path: &Vec<Pos>, changes: &mut Vec<Change>)
    requires
        old(grid).wf(),
        forall|k: int| 0 <= k < path@.len() ==> (#[trigger] path@[k]).valid(),
        changes_ok(old(changes)@),
    ensures
        route_cleared(old(grid), final(grid), path@),
        changes_ok(final(changes)@),
        undo(final(grid).is_used@, final(changes)@) == undo(old(grid).is_used@, old(changes)@),
        final(changes)@.len() == old(changes)@.len() + path@.len(),
        forall|k: int| 0 <= k < old(changes)@.len() ==> #[trigger] final(changes)@[k] == old(changes)@[k],
        forall|k: int| 0 <= k < path@.len() ==> #[trigger] final(changes)@[old(changes)@.len() + k].p == path@[k],
{
    let mut k: usize = 0;
    while k < path.len()
        invariant
            grid.wf(),
            forall|k: int| 0 <= k < path@.len() ==> (#[trigger] path@[k]).valid(),
            k <= path@.len(),
            same_frame(old(grid), grid),
            changes_ok(changes@),
            undo(grid.is_used@, changes@) == undo(old(grid).is_used@, old(changes)@),
            forall|q: Pos| q.valid() ==> #[trigger] grid.is_used.at(q) == (old(grid).is_used.at(q)
                && !path@.take(k as int).contains(q)),
            changes@.len() == old(changes)@.len() + k,
            forall|j: int| 0 <= j < old(changes)@.len() ==> #[trigger] changes@[j] == old(changes)@[j],
            forall|j: int| 0 <= j < k ==> #[trigger] changes@[old(changes)@.len() + j].p == path@[j],
        decreases path@.len() - k,
    {
        let ghost before = *grid;
        let ghost cs0 = changes@;
        log_and_set(grid, &path[k], false, changes);
        proof {
            let p = path@[k as int];
            assert(changes@ == cs0.push(Change { p, prev: before.is_used.at(p) }));
            assert(path@.take(k + 1) =~= path@.take(k as int).push(p));
            assert forall|q: Pos| q.valid() implies #[trigger] grid.is_used.at(q) == (old(grid).is_used.at(q)
                && !path@.take(k + 1).contains(q)) by {
                lemma_idx_bounds(q);
                lemma_idx_bounds(p);
                if q == p {
                    assert(path@.take(k + 1)[k as int] == q);
                } else {
                    if q.idx() == p.idx() {
                        lemma_idx_injective(q, p);
                    }
                    assert(grid.is_used.at(q) == before.is_used.at(q));
                    let t1 = path@.take(k + 1);
                    let t0 = path@.take(k as int);
                    if t1.contains(q) {
                        let m = choose|m: int| 0 <= m < t1.len() && #[trigger] t1[m] == q;
                        assert(m < k);
                        assert(t0[m] == q);
                    }
                    if t0.contains(q) {
                        let m = choose|m: int| 0 <= m < t0.len() && #[trigger] t0[m] == q;
                        assert(t1[m] == q);
                    }
                }
            }
        }
        k = k + 1;
    }
    proof {
        assert(path@.take(path@.len() as int) =~= path@);
    }
}

/// Marks every cell of `path` used, logging the previous states.
fn add_path(grid: &mut Grid, path: &Vec<Pos>, changes: &mut Vec<Change>)
    requires
        old(grid).wf(),
        forall|k: int| 0 <= k < path@.len() ==> (#[trigger] path@[k]).valid(),
        changes_ok(old(changes)@),
    ensures
        final(grid).wf(),
        same_frame(old(grid), final(grid)),
        changes_ok(final(changes)@),
        undo(final(grid).is_used@, final(changes)@) == undo(old(grid).is_used@, old(changes)@),
        used_le(old(grid).is_used@, final(grid).is_used@),
        forall|k: int| 0 <= k < path@.len() ==> final(grid).is_used.at(#[trigger] path@[k]),
        path_marked(old(grid), final(grid), path@),
{
    let mut k: usize = 0;
    while k < path.len()
        invariant
            grid.wf(),
            forall|k: int| 0 <= k < path@.len() ==> (#[trigger] path@[k]).valid(),
            k <= path@.len(),
            same_frame(old(grid), grid),
            changes_ok(changes@),
            undo(grid.is_used@, changes@) == undo(old(grid).is_used@, old(changes)@),
            used_le(old(grid).is_used@, grid.is_used@),
            forall|m: int| 0 <= m < k ==> grid.is_used.at(#[trigger] path@[m]),
            forall|q: Pos| q.valid() ==> #[trigger] grid.is_used.at(q) == (old(grid).is_used.at(q)
                || path@.take(k as int).contains(q)),
        decreases path@.len() - k,
    {
        let p = path[k];
        proof {
            lemma_idx_bounds(p);
        }
        let ghost before = *grid;
        log_and_set(grid, &path[k], true, changes);
        proof {
            assert forall|m: int| 0 <= m < k + 1 implies grid.is_used.at(#[trigger] path@[m]) by {
                lemma_idx_bounds(path@[m]);
            }
            assert(path@.take(k + 1) =~= path@.take(k as int).push(p));
            assert forall|q: Pos| q.valid() implies #[trigger] grid.is_used.at(q) == (old(grid).is_used.at(q)
                || path@.take(k + 1).contains(q)) by {
                lemma_idx_bounds(q);
                let t1 = path@.take(k + 1);
                let t0 = path@.take(k as int);
                if q == p {
                    assert(t1[k as int] == q);
                } else {
                    if q.idx() == p.idx() {
                        lemma_idx_injective(q, p);
                    }
                    assert(grid.is_used.at(q) == before.is_used.at(q));
                    if t1.contains(q) {
                        let m = choose|m: int| 0 <= m < t1.len() && #[trigger] t1[m] == q;
                        assert(t0[m] == q);
                    }
                    if t0.contains(q) {
                        let m = choose|m: int| 0 <= m < t0.len() && #[trigger] t0[m] == q;
                        assert(t1[m] == q);
                    }
                }
            }
        }
        k = k + 1;
    }
    proof {
        assert(path@.take(path@.len() as int) =~= path@);
    }
}

/// Replays the log backwards, restoring each logged cell.
fn rollback(grid: &mut Grid, changes: &Vec<Change>)
    requires
        old(grid).wf(),
        changes_ok(changes@),
    ensures
        final(grid).wf(),
        same_frame(old(grid), final(grid)),
        final(grid).is_used@ == undo(old(grid).is_used@, changes@),
{
    let mut k = changes.len();
    proof {
        assert(changes@.take(k as int) =~= changes@);
    }
    while k > 0
        invariant
            grid.wf(),
            changes_ok(changes@),
            k <= changes@.len(),
            same_frame(old(grid), grid),
            undo(grid.is_used@, changes@.take(k as int)) == undo(old(grid).is_used@, changes@),
        decreases k,
    {
        k = k - 1;
        let ghost before = grid.is_used@;
        proof {
            assert(changes@[k as int].p.valid());
            lemma_set_fits(grid, changes@[k as int].p, changes@[k as int].prev);
        }
        grid.set(&changes[k].p, changes[k].prev);
        proof {
            let t = changes@.take(k + 1);
            assert(t.drop_last() =~= changes@.take(k as int));
            assert(t.last() == changes@[k as int]);
        }
    }
    proof {
        assert(changes@.take(0) =~= Seq::<Change>::empty());
    }
}

/// Undoing the logged setting of a cell, with its previous state on top
/// of the log, gives back what undoing the rest of the log gives.
pub proof fn law_logged_set_undone(used: Seq<bool>, cs: Seq<Change>, p: Pos, v: bool)
    requires
        p.valid(),
        used.len() == cell_count(),
    ensures
        undo(used.update(p.idx(), v), cs.push(Change { p, prev: used[p.idx()] })) == undo(used, cs),
{
    lemma_idx_bounds(p);
    let cs2 = cs.push(Change { p, prev: used[p.idx()] });
    assert(cs2.drop_last() =~= cs);
    assert(used.update(p.idx(), v).update(p.idx(), used[p.idx()]) =~= used);
}

/// `plans[k + 1]` is `plans[k]` with a cheapest walk `walks[k]` from house
/// `order[k]` (on `plans[k]`, at the instance's cost) marked used.
pub open spec fn reconnects_in_turn(input: &Input, order: Seq<usize>, walks: Seq<Seq<Pos>>, plans: Seq<Grid>) -> bool {
    &&& plans.len() == walks.len() + 1
    &&& walks.len() <= order.len()
    &&& forall|k: int|
        0 <= k < walks.len() ==> cheapest_walk(
            &plans[k],
            input.c as int,
            input.house@[order[k] as int],
            input.source@,
            #[trigger] walks[k],
        ) && path_marked(&plans[k], &plans[k + 1], walks[k])
}

/// The order in which a round of hill climbing reconnects the houses left
/// without water in `g1`: their list, shuffled from the generator state
/// after drawing the dropped house from `seed`.
pub open spec fn reconnect_order(g1: &Grid, seed: u64) -> Seq<usize> {
    let listed = unconnected_prefix(g1, g1.house@.len() as int);
    shuffle_prefix(listed, xorshift(seed), listed.len())
}

/// The acceptance rule: the candidate plan is kept, and its score returned,
/// exactly when its score is below `current`; otherwise the old plan comes
/// back and `current` is returned.
pub open spec fn accepted(old_plan: &Grid, candidate: &Grid, new_plan: &Grid, current: int, r: int) -> bool {
    &&& candidate.total_score < current ==> new_plan.is_used@ == candidate.is_used@ && r == candidate.total_score
    &&& candidate.total_score >= current ==> new_plan.is_used@ == old_plan.is_used@ && r == current
}

/// What one round of hill climbing does to the plan `a` and the generator
/// state `sa`, giving `b` and `sb`: the route of the drawn house that the
/// depth-first search finds is cleared
/// (giving `g1`), the houses left without water are reconnected in the
/// drawn order by cheapest walks (giving `plans.last()`), and that candidate
/// is kept exactly when its score is below that of `a`.
pub open spec fn round_effect(input: &Input, a: &Grid, b: &Grid, sa: u64, sb: u64) -> bool {
    exists|route: Seq<Pos>, g1: Grid, walks: Seq<Seq<Pos>>, plans: Seq<Grid>|
        #![trigger route_cleared(a, &g1, route), reconnects_in_turn(input, reconnect_order(&g1, sa), walks, plans)]
        route_cleared(a, &g1, route) && a.is_route(route) && route[0] == input.house@[dropped_house(
            sa,
            input.house@.len(),
        )] && route == seq![route[0]] + dfs_from(a, route[0], no_parent(), start_seen(route[0])).unwrap() && sb == advance(xorshift(sa), unconnected_prefix(&g1, input.house@.len() as int).len())
            && reconnects_in_turn(input, reconnect_order(&g1, sa), walks, plans) && walks.len()
            == reconnect_order(&g1, sa).len() && plans[0] == g1 && accepted(
            a,
            &plans.last(),
            b,
            a.total_score as int,
            b.total_score as int,
        )
}

/// One round of hill climbing took `a` to `b` and the generator from `sa`
/// to `sb`, keeping every house connected and never raising the score.
pub open spec fn one_round(input: &Input, a: &Grid, b: &Grid, sa: u64, sb: u64) -> bool {
    &&& grid_for(b, input)
    &&& all_connected(b)
    &&& same_frame(a, b)
    &&& b.total_score <= a.total_score
    &&& round_effect(input, a, b, sa, sb)
}

/// Index of the house whose route a round of hill climbing drops, drawn
/// from generator state `seed` among `n` houses.
pub open spec fn dropped_house(seed: u64, n: nat) -> int {
    ((xorshift(seed) as usize) % (n as usize)) as int
}

/// One round of hill climbing: drop the route of a random house, reconnect
/// every house that lost water in random order, and keep the new plan only
/// when its score is lower.  Returns the score of the plan kept.  The
/// dropped house is the first draw of the generator, which then draws once
/// per house to reshuffle; an improved plan keeps every cell of the old one
/// outside the dropped route.
pub fn improve_route(input: &Input, grid: &mut Grid, rng: &mut Xorshift, current_score: i64) -> (r: i64)
    requires
        planning_input(input),
        input.house@.len() > 0,
        grid_for(old(grid), input),
        all_connected(old(grid)),
        current_score == old(grid).total_score,
    ensures
        grid_for(final(grid), input),
        all_connected(final(grid)),
        same_frame(old(grid), final(grid)),
        r == final(grid).total_score,
        r <= current_score,
        r == current_score ==> final(grid).is_used@ == old(grid).is_used@,
        round_effect(input, old(grid), final(grid), old(rng).s, final(rng).s),
{
    broadcast use vstd::seq_lib::to_multiset_contains;
    let ghost g0 = *grid;
    let ghost s0 = rng.s;
    let hi = gen_range(rng, 0, input.house.len());
    let h_pos = input.house[hi];
    proof {
        assert(grid.connected(grid.house@[hi as int]));
    }
    let found = grid.find_current_path_to_source(&h_pos);
    let (path_to_source, _) = found.unwrap();
    let mut changes: Vec<Change> = Vec::new();
    clear_path(grid, &path_to_source, &mut changes);
    let ghost g1 = *grid;
    let mut reconnect_houses = grid.find_unconnected_houses();
    let ghost listed = reconnect_houses@;
    proof {
        lemma_unconnected_prefix(grid, grid.house@.len() as int);
    }
    shuffle(rng, &mut reconnect_houses);
    let ghost mut walks: Seq<Seq<Pos>> = seq![];
    let ghost mut plans: Seq<Grid> = seq![g1];
    proof {
        assert(reconnect_houses@ == reconnect_order(&g1, s0));
    }
    proof {
        assert forall|mm: int| 0 <= mm < reconnect_houses@.len() implies (#[trigger] reconnect_houses@[mm])
            < input.house@.len() by {
            let x = reconnect_houses@[mm];
            assert(reconnect_houses@.contains(x));
            assert(reconnect_houses@.to_multiset().count(x) > 0);
            assert(listed.to_multiset().count(x) > 0);
            assert(listed.contains(x));
        }
        assert forall|j: int| 0 <= j < input.house@.len() implies #[trigger] grid.connected(
            input.house@[j],
        ) || exists|mm: int| 0 <= mm < reconnect_houses@.len() && reconnect_houses@[mm] == j by {
            if !grid.connected(input.house@[j]) {
                assert(grid.house@[j] == input.house@[j]);
                assert(listed.contains(j as usize));
                assert(listed.to_multiset().count(j as usize) > 0);
                assert(reconnect_houses@.to_multiset().count(j as usize) > 0);
                assert(reconnect_houses@.contains(j as usize));
            }
        }
    }
    let mut m: usize = 0;
    while m < reconnect_houses.len()
        invariant
            planning_input(input),
            grid_for(grid, input),
            same_frame(&g0, grid),
            used_le(g1.is_used@, grid.is_used@),
            rng.s == advance(xorshift(s0), unconnected_prefix(&g1, input.house@.len() as int).len()),
            changes_ok(changes@),
            undo(grid.is_used@, changes@) == g0.is_used@,
            m <= reconnect_houses@.len(),
            reconnect_houses@ == reconnect_order(&g1, s0),
            reconnects_in_turn(input, reconnect_houses@, walks, plans),
            walks.len() == m,
            plans[0] == g1,
            plans.last() == *grid,
            forall|mm: int| 0 <= mm < reconnect_houses@.len() ==> (#[trigger] reconnect_houses@[mm])
                < input.house@.len(),
            forall|j: int|
                0 <= j < input.house@.len() ==> #[trigger] grid.connected(input.house@[j]) || exists|
                    mm: int,
                | m <= mm < reconnect_houses@.len() && reconnect_houses@[mm] == j,
        decreases reconnect_houses@.len() - m,
    {
        let i = reconnect_houses[m];
        let (nearest_source_path, _) = grid.find_path_to_nearest_source(
            &input.house[i],
            INF,
            &input.source,
            input.c,
        );
        let ghost before = *grid;
        add_path(grid, &nearest_source_path, &mut changes);
        proof {
            let w0 = walks;
            let p0 = plans;
            walks = w0.push(nearest_source_path@);
            plans = p0.push(*grid);
            assert forall|k: int| 0 <= k < walks.len() implies cheapest_walk(
                &plans[k],
                input.c as int,
                input.house@[reconnect_houses@[k] as int],
                input.source@,
                #[trigger] walks[k],
            ) && path_marked(&plans[k], &plans[k + 1], walks[k]) by {
                if k < m {
                    assert(walks[k] == w0[k]);
                    assert(plans[k] == p0[k]);
                    assert(plans[k + 1] == p0[k + 1]);
                } else {
                    assert(plans[k] == before);
                }
            }
            lemma_path_connects(grid, nearest_source_path@);
            assert forall|j: int| 0 <= j < input.house@.len() implies #[trigger] grid.connected(
                input.house@[j],
            ) || exists|mm: int| m + 1 <= mm < reconnect_houses@.len() && reconnect_houses@[mm] == j by {
                if before.connected(input.house@[j]) {
                    lemma_connected_monotone(&before, grid, input.house@[j]);
                } else if j != i {
                    let mm = choose|mm: int|
                        m <= mm < reconnect_houses@.len() && reconnect_houses@[mm] == j;
                    assert(mm != m);
                }
            }
        }
        m = m + 1;
    }
    let new_score = grid.total_score;
    proof {
        assert(hi as int == dropped_house(s0, input.house@.len()));
        assert(route_cleared(&g0, &g1, path_to_source@));
        assert(reconnects_in_turn(input, reconnect_order(&g1, s0), walks, plans));
    }
    if new_score < current_score {
        proof {
            assert forall|j: int| 0 <= j < grid.house@.len() implies #[trigger] grid.connected(
                grid.house@[j],
            ) by {
                assert(grid.connected(input.house@[j]));
            }
        }
        new_score
    } else {
        rollback(grid, &changes);
        proof {
            assert forall|j: int| 0 <= j < grid.house@.len() implies #[trigger] grid.connected(
                grid.house@[j],
            ) by {
                assert(g0.connected(g0.house@[j]));
                lemma_connected_monotone(&g0, grid, g0.house@[j]);
            }
        }
        current_score
    }
}

/// Builds an initial plan with `generate_route`, then runs a hundred rounds
/// of `improve_route`: the plan after the rounds scores no more than the
/// initial one, each round does what `improve_route` does, and the
/// generator ends where the hundredth round left it.
pub fn optimize_route(input: &Input, grid: &mut Grid, rng: &mut Xorshift)
    requires
        planning_input(input),
        input.house@.len() > 0,
        grid_for(old(grid), input),
    ensures
        grid_for(final(grid), input),
        all_connected(final(grid)),
        final(grid).estimated_weight@ == old(grid).estimated_weight@,
        exists|walks: Seq<Seq<Pos>>, built: Seq<Grid>, rounds: Seq<Grid>, seeds: Seq<u64>|
            #![trigger connects_in_turn(input, walks, built), rounds_taken(input, rounds, seeds)]
            connects_in_turn(input, walks, built) && walks.len() == input.house@.len() && built[0]
                == *old(grid) && rounds_taken(input, rounds, seeds) && rounds.len() == 101 && rounds[0]
                == built.last() && seeds[0] == old(rng).s && rounds[100] == *final(grid) && seeds[100]
                == final(rng).s && final(grid).total_score <= built.last().total_score,
{
    let ghost g_in = *grid;
    generate_route(input, grid);
    let ghost init = *grid;
    let ghost (gw, gb) = choose|walks: Seq<Seq<Pos>>, plans: Seq<Grid>|
        #[trigger] connects_in_turn(input, walks, plans) && walks.len() == input.house@.len() && plans[0]
            == g_in && plans.last() == init;
    let ghost w0 = grid.estimated_weight@;
    let ghost mut rounds: Seq<Grid> = seq![*grid];
    let ghost mut seeds: Seq<u64> = seq![rng.s];
    let mut current_score = grid.total_score;
    let mut t: usize = 0;
    while t < 100
        invariant
            planning_input(input),
            input.house@.len() > 0,
            grid_for(grid, input),
            all_connected(grid),
            grid.estimated_weight@ == w0,
            current_score == grid.total_score,
            current_score <= init.total_score,
            rounds_taken(input, rounds, seeds),
            t <= 100,
            rounds.len() == t + 1,
            rounds[0] == init,
            seeds[0] == old(rng).s,
            rounds.last() == *grid,
            seeds.last() == rng.s,
            connects_in_turn(input, gw, gb),
            gw.len() == input.house@.len(),
            gb[0] == *old(grid),
            gb.last() == init,
        decreases 100 - t,
    {
        let ghost g_before = *grid;
        let ghost s_before = rng.s;
        current_score = improve_route(input, grid, rng, current_score);
        proof {
            let r0 = rounds;
            let s0 = seeds;
            rounds = r0.push(*grid);
            seeds = s0.push(rng.s);
            assert(one_round(input, &g_before, grid, s_before, rng.s));
            assert forall|k: int| 0 <= k < rounds.len() - 1 implies #[trigger] one_round(
                input,
                &rounds[k],
                &rounds[k + 1],
                seeds[k],
                seeds[k + 1],
            ) by {
                if k < t {
                    assert(rounds[k] == r0[k] && rounds[k + 1] == r0[k + 1]);
                    assert(seeds[k] == s0[k] && seeds[k + 1] == s0[k + 1]);
                }
            }
        }
        t = t + 1;
    }
    proof {
        assert(rounds[100] == *grid);
        assert(seeds[100] == rng.s);
        assert(connects_in_turn(input, gw, gb) && rounds_taken(input, rounds, seeds));
    }
}

/// `rounds[k + 1]` and `seeds[k + 1]` come from `rounds[k]` and `seeds[k]`
/// by one round of hill climbing.
pub open spec fn rounds_taken(input: &Input, rounds: Seq<Grid>, seeds: Seq<u64>) -> bool {
    &&& rounds.len() == seeds.len()
    &&& rounds.len() >= 1
    &&& forall|k: int|
        0 <= k < rounds.len() - 1 ==> #[trigger] one_round(input, &rounds[k], &rounds[k + 1], seeds[k], seeds[k + 1])
}

/// Number of whole hundreds strictly below `upper`, from 100 on.
pub open spec fn hundreds_below(upper: int) -> nat {
    if upper > 100 {
        ((upper - 1) / 100) as nat
    } else {
        0
    }
}

/// The hardness levels a cell is probed at on the way to `upper`:
/// Whether the next cell of a house's route is probed at level `upper`:
/// only while every cell so far broke and no lower level is already proven
/// for the house (`best`).
pub fn probes_cell(best: i64, upper: i64, ok: bool) -> (b: bool)
    ensures
        b == (ok && upper <= best),
{
    ok && !(best < upper)
}

/// The lowest level proven for a house after its route was probed at
/// `upper`: `upper` when every cell broke and it is lower than `best`.
pub fn level_after_probe(best: i64, upper: i64, ok: bool) -> (r: i64)
    ensures
        r == if ok && upper < best {
            upper
        } else {
            best
        },
{
    if ok && upper < best {
        upper
    } else {
        best
    }
}

/// The level proven for a house never rises.
pub proof fn law_level_never_rises(best: i64, upper: i64, ok: bool, r: i64)
    requires
        r == (if ok && upper < best {
            upper
        } else {
            best
        }),
    ensures
        r <= best,
        r == best || (ok && r == upper),
{
}

/// 100, 200, ... while below `upper`, then `upper` itself.
pub open spec fn probe_levels_of(upper: i64) -> Seq<i64> {
    Seq::new(hundreds_below(upper as int), |i: int| (100 * (i + 1)) as i64).push(upper)
}

/// The hardness levels a cell is probed at on the way to `upper`.
pub fn probe_levels(upper: i64) -> (r: Vec<i64>)
    requires
        upper <= 9_223_372_036_854_775_800,
    ensures
        r@ == probe_levels_of(upper),
{
    let mut r: Vec<i64> = Vec::new();
    let mut h: i64 = 100;
    while h < upper
        invariant
            upper <= 9_223_372_036_854_775_800,
            h >= 100,
            h % 100 == 0,
            h <= 100 || h - 100 < upper,
            r@ == Seq::new((h / 100 - 1) as nat, |i: int| (100 * (i + 1)) as i64),
        decreases upper - h + 100,
    {
        r.push(h);
        proof {
            assert(r@ =~= Seq::new(((h + 100) / 100 - 1) as nat, |i: int| (100 * (i + 1)) as i64));
        }
        h = h + 100;
    }
    proof {
        assert(h / 100 - 1 == hundreds_below(upper as int));
    }
    r.push(upper);
    r
}

/// Largest damage the hardness estimates handle exactly.
pub const MAX_DAMAGE: i64 = 9_007_199_254_740_992;

/// Every recorded damage lies in `0 ..= MAX_DAMAGE`.
pub open spec fn damage_ok(state: &State) -> bool {
    &&& state.wf()
    &&& forall|i: int| 0 <= i < cell_count() ==> 0 <= #[trigger] state.damage@[i] <= MAX_DAMAGE
    &&& forall|i: int| 0 <= i < cell_count() ==> 0 <= #[trigger] state.damage_before_break@[i] <= MAX_DAMAGE
}

/// What the excavation of `p` tells about its hardness.
pub open spec fn investigated_hardness(state: &State, p: Pos, is_final: bool) -> Option<i64> {
    let d = state.damage.at(p);
    let before = state.damage_before_break.at(p);
    if !state.is_broken.at(p) {
        if d > 0 {
            if is_final {
                Some(1000)
            } else {
                Some(if d * 2 < S_MAX { (d * 2) as i64 } else { S_MAX })
            }
        } else {
            None
        }
    } else if before == 0 {
        Some((d / 2) as i64)
    } else {
        Some(((before + d) / 2) as i64)
    }
}

/// The hardness learned at `p`: for a broken cell the midpoint of the last
/// two damage levels (half the damage when it broke at the first blow); for
/// a cell that resisted, twice its damage capped at `S_MAX` (or 1000 for the
/// final estimate); nothing for an untouched cell.
pub fn fetch_investigated_hardness(state: &State, p: &Pos, is_final: bool) -> (r: Option<i64>)
    requires
        damage_ok(state),
        p.valid(),
    ensures
        r == investigated_hardness(state, *p, is_final),
{
    proof {
        lemma_idx_bounds(*p);
    }
    if !state.is_broken.get(p) {
        let d = state.damage.get(p);
        if d > 0 {
            if is_final {
                return Some(1000);
            }
            let twice = d * 2;
            return Some(if twice < S_MAX { twice } else { S_MAX });
        }
        return None;
    }
    let damage_before_break = state.damage_before_break.get(p);
    let damage = state.damage.get(p);
    let a = if damage_before_break == 0 {
        damage / 2
    } else {
        (damage_before_break + damage) / 2
    };
    Some(a)
}

/// The power that brings the damage of `p` up to `hardness` (capped at
/// `S_MAX`), or `None` when `p` is broken or already damaged that much.
pub fn power_to_reach_hardness(state: &State, p: &Pos, hardness: i64) -> (r: Option<i64>)
    requires
        state.wf(),
        p.valid(),
        0 <= state.damage.at(*p),
    ensures
        state.is_broken.at(*p) ==> r is None,
        !state.is_broken.at(*p) ==> {
            let target = if hardness < S_MAX { hardness as int } else { S_MAX as int };
            let power = target - state.damage.at(*p);
            &&& power > 0 ==> r == Some(power as i64)
            &&& power <= 0 ==> r is None
        },
{
    proof {
        lemma_idx_bounds(*p);
    }
    if state.is_broken.get(p) {
        return None;
    }
    let target = if hardness < S_MAX { hardness } else { S_MAX };
    let d = state.damage.get(p);
    if target <= d {
        return None;
    }
    Some(target - d)
}

/// `q` lies in the square of half-width `half` around `pos`.
pub open spec fn in_window(pos: Pos, half: int, q: Pos) -> bool {
    pos.y - half <= q.y <= pos.y + half && pos.x - half <= q.x <= pos.x + half
}

/// `a` comes before `b` in row-major order.
pub open spec fn row_major_lt(a: Pos, b: Pos) -> bool {
    a.y < b.y || (a.y == b.y && a.x < b.x)
}

/// An already damaged board cell near `pos`: the first, in row-major order,
/// of the square of half-width `interval / 2` around `pos`; `pos` itself
/// when there is none.
pub fn to_near_pos(pos: Pos, state: &State, interval: i64) -> (r: Pos)
    requires
        pos.valid(),
        state.wf(),
        interval > i64::MIN,
    ensures
        ({
            let half = if interval >= 0 { interval / 2 } else { -1 };
            ||| (r == pos && forall|q: Pos|
                q.valid() && in_window(pos, half, q) ==> #[trigger] state.damage.at(q) <= 0)
            ||| (r.valid() && in_window(pos, half, r) && state.damage.at(r) > 0 && forall|q: Pos|
                q.valid() && in_window(pos, half, q) && row_major_lt(q, r) ==> #[trigger] state.damage.at(
                    q,
                ) <= 0)
        }),
{
    if interval < 0 {
        return pos;
    }
    let half = interval / 2;
    let mut dy = -half;
    while dy <= half
        invariant
            pos.valid(),
            state.wf(),
            interval >= 0,
            half == interval / 2,
            0 <= half,
            -half <= dy <= half + 1,
            forall|q: Pos|
                q.valid() && in_window(pos, half as int, q) && q.y < pos.y + dy ==> #[trigger] state.damage.at(q)
                    <= 0,
        decreases half + 1 - dy,
    {
        let mut dx = -half;
        while dx <= half
            invariant
                pos.valid(),
                state.wf(),
                interval >= 0,
                half == interval / 2,
                0 <= half,
                -half <= dy <= half,
                -half <= dx <= half + 1,
                forall|q: Pos|
                    q.valid() && in_window(pos, half as int, q) && (q.y < pos.y + dy || (q.y == pos.y + dy
                        && q.x < pos.x + dx)) ==> #[trigger] state.damage.at(q) <= 0,
            decreases half + 1 - dx,
        {
            let p = Pos { y: pos.y + dy, x: pos.x + dx };
            if p.is_valid() {
                proof {
                    lemma_idx_bounds(p);
                }
                if state.damage.get(&p) > 0 {
                    return p;
                }
            }
            dx = dx + 1;
        }
        dy = dy + 1;
    }
    pos
}

/// The cell of the board with row-major index `i`.
pub open spec fn cell_at(i: int) -> Pos {
    Pos { y: (i / 200) as i64, x: (i % 200) as i64 }
}

/// Every index of the board names a cell of the board with that index.
proof fn lemma_cell_at(i: int)
    requires
        0 <= i < cell_count(),
    ensures
        cell_at(i).valid(),
        cell_at(i).idx() == i,
{
    assert(0 <= i / 200 < 200 && i == (i / 200) * 200 + i % 200 && 0 <= i % 200 < 200) by (nonlinear_arith)
        requires
            0 <= i < 40000,
    ;
}

/// Row-major list of the cells among the first `k` that the plan uses or
/// that hold a house or a source.
pub open spec fn destroy_prefix(grid: &Grid, input: &Input, k: int) -> Seq<Pos>
    decreases k,
{
    if k <= 0 {
        seq![]
    } else {
        let p = cell_at(k - 1);
        let prev = destroy_prefix(grid, input, k - 1);
        if grid.is_used.at(p) || input.house@.contains(p) || input.source@.contains(p) {
            prev.push(p)
        } else {
            prev
        }
    }
}

/// The cells a plan breaks: used by the plan, or holding a house or a source.
pub open spec fn to_break(grid: &Grid, input: &Input, p: Pos) -> bool {
    grid.is_used.at(p) || input.house@.contains(p) || input.source@.contains(p)
}

proof fn lemma_destroy_prefix(grid: &Grid, input: &Input, k: int)
    requires
        0 <= k <= cell_count(),
    ensures
        forall|i: int|
            0 <= i < destroy_prefix(grid, input, k).len() ==> (#[trigger] destroy_prefix(grid, input, k)[i]).valid()
                && destroy_prefix(grid, input, k)[i].idx() < k,
        forall|i: int, j: int|
            0 <= i < j < destroy_prefix(grid, input, k).len() ==> (#[trigger] destroy_prefix(grid, input, k)[i]).idx()
                < (#[trigger] destroy_prefix(grid, input, k)[j]).idx(),
        forall|p: Pos|
            p.valid() && p.idx() < k ==> (#[trigger] destroy_prefix(grid, input, k).contains(p) <==> to_break(
                grid,
                input,
                p,
            )),
    decreases k,
{
    if k > 0 {
        lemma_destroy_prefix(grid, input, k - 1);
        lemma_cell_at(k - 1);
        let q = cell_at(k - 1);
        let prev = destroy_prefix(grid, input, k - 1);
        let r = destroy_prefix(grid, input, k);
        assert forall|p: Pos| p.valid() && p.idx() < k implies (#[trigger] r.contains(p) <==> to_break(
            grid,
            input,
            p,
        )) by {
            if p.idx() == k - 1 {
                lemma_idx_injective(p, q);
                if !to_break(grid, input, p) {
                    if r.contains(p) {
                        let i = choose|i: int| 0 <= i < r.len() && r[i] == p;
                        assert(prev[i] == p);
                    }
                } else {
                    assert(r[r.len() - 1] == p);
                }
            } else {
                if r.contains(p) {
                    let i = choose|i: int| 0 <= i < r.len() && r[i] == p;
                    if i < prev.len() {
                        assert(prev[i] == p);
                    }
                }
                if prev.contains(p) {
                    let i = choose|i: int| 0 <= i < prev.len() && prev[i] == p;
                    assert(r[i] == p);
                }
            }
        }
        assert forall|i: int|
            0 <= i < r.len() implies (#[trigger] r[i]).valid() && r[i].idx() < k by {
            if i < prev.len() {
                assert(r[i] == prev[i]);
            }
        }
        assert forall|i: int, j: int| 0 <= i < j < r.len() implies (#[trigger] r[i]).idx() < (#[trigger] r[j]).idx() by {
            assert(r[i] == prev[i]);
            if j < prev.len() {
                assert(r[j] == prev[j]);
            }
        }
    }
}

/// The cells to break at the end are exactly the board cells the plan uses
/// or that hold a house or a source, each listed once, in row-major order.
pub proof fn law_cells_to_destroy(grid: &Grid, input: &Input)
    ensures
        forall|p: Pos|
            p.valid() ==> (#[trigger] destroy_prefix(grid, input, cell_count()).contains(p) <==> to_break(
                grid,
                input,
                p,
            )),
        forall|i: int|
            0 <= i < destroy_prefix(grid, input, cell_count()).len() ==> (#[trigger] destroy_prefix(
                grid,
                input,
                cell_count(),
            )[i]).valid(),
        forall|i: int, j: int|
            0 <= i < j < destroy_prefix(grid, input, cell_count()).len() ==> row_major_lt(
                #[trigger] destroy_prefix(grid, input, cell_count())[i],
                #[trigger] destroy_prefix(grid, input, cell_count())[j],
            ),
{
    lemma_destroy_prefix(grid, input, cell_count());
    let r = destroy_prefix(grid, input, cell_count());
    assert forall|p: Pos| p.valid() implies (#[trigger] r.contains(p) <==> to_break(grid, input, p)) by {
        lemma_idx_bounds(p);
    }
    assert forall|i: int, j: int| 0 <= i < j < r.len() implies row_major_lt(#[trigger] r[i], #[trigger] r[j]) by {
        let a = r[i];
        let b = r[j];
        assert(a.idx() < b.idx());
        if !(a.y < b.y) {
            if a.y > b.y {
                assert(a.y * 200 >= b.y * 200 + 200) by (nonlinear_arith)
                    requires
                        a.y > b.y,
                ;
            }
        }
    }
}

/// The cells to break open at the end, in row-major order: those the plan
/// uses and those holding a house or a source.
pub fn cells_to_destroy(input: &Input, grid: &Grid) -> (r: Vec<Pos>)
    requires
        grid.wf(),
    ensures
        r@ == destroy_prefix(grid, input, cell_count()),
{
    let mut r: Vec<Pos> = Vec::new();
    let mut y: i64 = 0;
    while y < 200
        invariant
            grid.wf(),
            0 <= y <= 200,
            r@ == destroy_prefix(grid, input, y * 200),
        decreases 200 - y,
    {
        let mut x: i64 = 0;
        while x < 200
            invariant
                grid.wf(),
                0 <= y < 200,
                0 <= x <= 200,
                r@ == destroy_prefix(grid, input, y * 200 + x),
            decreases 200 - x,
        {
            let p = Pos { y, x };
            proof {
                lemma_idx_bounds(p);
                assert(cell_at(y * 200 + x) == p);
            }
            if grid.is_used.get(&p) || crate::grid::contains_pos(&input.house, &p)
                || crate::grid::contains_pos(&input.source, &p) {
                r.push(p);
            }
            x = x + 1;
        }
        y = y + 1;
    }
    r
}

} // verus!
