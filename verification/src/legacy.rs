use vstd::prelude::*;
use crate::def::{Input, Pos, adjacent, manhattan};

verus! {

/// `a.dist(b)` can be computed without overflow.
pub open spec fn dist_fits(a: Pos, b: Pos) -> bool {
    &&& -i64::MAX <= b.y - a.y <= i64::MAX
    &&& -i64::MAX <= b.x - a.x <= i64::MAX
    &&& manhattan(a, b) <= i64::MAX
}

/// Index of the source nearest to `h` among the first `k`, the first one
/// on ties.
pub open spec fn nearest_among(source: Seq<Pos>, h: Pos, k: int) -> int
    decreases k,
{
    if k <= 1 {
        0
    } else {
        let b = nearest_among(source, h, k - 1);
        if manhattan(source[k - 1], h) < manhattan(source[b], h) {
            k - 1
        } else {
            b
        }
    }
}

/// One step from `p` toward `h`, along the column until the rows match,
/// then along the row.
pub open spec fn step_rows_first(p: Pos, h: Pos) -> Pos {
    if p.y < h.y {
        Pos { y: (p.y + 1) as i64, x: p.x }
    } else if p.y > h.y {
        Pos { y: (p.y - 1) as i64, x: p.x }
    } else if p.x < h.x {
        Pos { y: p.y, x: (p.x + 1) as i64 }
    } else if p.x > h.x {
        Pos { y: p.y, x: (p.x - 1) as i64 }
    } else {
        p
    }
}

/// The cells from `p` to `h`, both included, reaching the row of `h` first.
pub open spec fn rows_first_walk(p: Pos, h: Pos) -> Seq<Pos>
    decreases manhattan(p, h),
{
    if p == h {
        seq![h]
    } else {
        seq![p] + rows_first_walk(step_rows_first(p, h), h)
    }
}

/// The cells to open for the first `k` houses: for each house in turn, the
/// walk to it from its nearest source.
pub open spec fn greedy_prefix(houses: Seq<Pos>, source: Seq<Pos>, k: int) -> Seq<Pos>
    decreases k,
{
    if k <= 0 {
        seq![]
    } else {
        let h = houses[k - 1];
        greedy_prefix(houses, source, k - 1) + rows_first_walk(
            source[nearest_among(source, h, source.len() as int)],
            h,
        )
    }
}

proof fn lemma_nearest_among(source: Seq<Pos>, h: Pos, k: int)
    requires
        1 <= k <= source.len(),
    ensures
        0 <= nearest_among(source, h, k) < k,
        forall|j: int|
            0 <= j < k ==> manhattan(source[nearest_among(source, h, k)], h) <= manhattan(#[trigger] source[j], h),
        forall|j: int|
            0 <= j < nearest_among(source, h, k) ==> manhattan(source[nearest_among(source, h, k)], h) < manhattan(
                #[trigger] source[j],
                h,
            ),
    decreases k,
{
    if k > 1 {
        lemma_nearest_among(source, h, k - 1);
    }
}

/// The source a house is walked from is a nearest one by Manhattan
/// distance: no listed source is closer, and every source listed before it
/// is strictly farther (the first one on ties).
pub proof fn law_nearest_source(source: Seq<Pos>, h: Pos)
    requires
        source.len() > 0,
    ensures
        0 <= nearest_among(source, h, source.len() as int) < source.len(),
        forall|j: int|
            0 <= j < source.len() ==> manhattan(source[nearest_among(source, h, source.len() as int)], h)
                <= manhattan(#[trigger] source[j], h),
        forall|j: int|
            0 <= j < nearest_among(source, h, source.len() as int) ==> manhattan(
                source[nearest_among(source, h, source.len() as int)],
                h,
            ) < manhattan(#[trigger] source[j], h),
{
    lemma_nearest_among(source, h, source.len() as int);
}

/// A rows-first walk from `p` to `h` starts at `p`, ends at `h`, moves one
/// cell to a side-neighbour at each step and takes the Manhattan distance
/// in steps; it stays in the column of `p` until it reaches the row of `h`,
/// and stays in that row once there.
pub proof fn law_rows_first_walk(p: Pos, h: Pos)
    requires
        dist_fits(p, h),
    ensures
        rows_first_walk(p, h).len() == manhattan(p, h) + 1,
        rows_first_walk(p, h)[0] == p,
        rows_first_walk(p, h).last() == h,
        forall|i: int|
            0 <= i < rows_first_walk(p, h).len() - 1 ==> adjacent(
                #[trigger] rows_first_walk(p, h)[i],
                rows_first_walk(p, h)[i + 1],
            ),
        forall|i: int|
            0 <= i < rows_first_walk(p, h).len() && (#[trigger] rows_first_walk(p, h)[i]).y != h.y
                ==> rows_first_walk(p, h)[i].x == p.x,
        p.y == h.y ==> forall|i: int|
            0 <= i < rows_first_walk(p, h).len() ==> (#[trigger] rows_first_walk(p, h)[i]).y == h.y,
    decreases manhattan(p, h),
{
    if p != h {
        let q = step_rows_first(p, h);
        assert(manhattan(q, h) == manhattan(p, h) - 1);
        assert(adjacent(p, q));
        law_rows_first_walk(q, h);
        let w = rows_first_walk(p, h);
        let t = rows_first_walk(q, h);
        assert(w == seq![p] + t);
        assert forall|i: int| 0 <= i < w.len() - 1 implies adjacent(#[trigger] w[i], w[i + 1]) by {
            if i == 0 {
                assert(w[1] == t[0]);
            } else {
                assert(w[i] == t[i - 1] && w[i + 1] == t[i]);
            }
        }
        assert forall|i: int| 0 <= i < w.len() && (#[trigger] w[i]).y != h.y implies w[i].x == p.x by {
            if i > 0 {
                assert(w[i] == t[i - 1]);
                if p.y == h.y {
                    assert(q.y == h.y);
                }
            }
        }
        if p.y == h.y {
            assert forall|i: int| 0 <= i < w.len() implies (#[trigger] w[i]).y == h.y by {
                if i > 0 {
                    assert(w[i] == t[i - 1]);
                }
            }
        }
    }
}

/// The plan for the first `k` houses is the plan for the first `k - 1`
/// followed by the rows-first walk to house `k - 1` from a nearest source
/// (the first one listed on ties); for no house it is empty.
pub proof fn law_greedy_step(houses: Seq<Pos>, source: Seq<Pos>, k: int)
    requires
        1 <= k <= houses.len(),
        source.len() > 0,
    ensures
        greedy_prefix(houses, source, 0) == Seq::<Pos>::empty(),
        exists|b: int|
            0 <= b < source.len() && (forall|j: int|
                0 <= j < source.len() ==> manhattan(source[b], houses[k - 1]) <= manhattan(
                    #[trigger] source[j],
                    houses[k - 1],
                )) && (forall|j: int|
                0 <= j < b ==> manhattan(source[b], houses[k - 1]) < manhattan(#[trigger] source[j], houses[k - 1]))
                && #[trigger] greedy_prefix(houses, source, k) == greedy_prefix(houses, source, k - 1) + rows_first_walk(
                source[b],
                houses[k - 1],
            ),
{
    law_nearest_source(source, houses[k - 1]);
    let b = nearest_among(source, houses[k - 1], source.len() as int);
    assert(greedy_prefix(houses, source, k) == greedy_prefix(houses, source, k - 1) + rows_first_walk(
        source[b],
        houses[k - 1],
    ));
}

/// The cells that connect every house to its nearest source by a straight
/// walk, house by house.
pub fn greedy_cells(input: &Input) -> (cells: Vec<Pos>)
    requires
        input.house@.len() > 0 ==> input.source@.len() > 0,
        forall|i: int, j: int|
            0 <= i < input.source@.len() && 0 <= j < input.house@.len() ==> dist_fits(
                #[trigger] input.source@[i],
                #[trigger] input.house@[j],
            ),
    ensures
        cells@ == greedy_prefix(input.house@, input.source@, input.house@.len() as int),
{
    let mut cells: Vec<Pos> = Vec::new();
    let mut k: usize = 0;
    while k < input.house.len()
        invariant
            input.house@.len() > 0 ==> input.source@.len() > 0,
            forall|i: int, j: int|
                0 <= i < input.source@.len() && 0 <= j < input.house@.len() ==> dist_fits(
                    #[trigger] input.source@[i],
                    #[trigger] input.house@[j],
                ),
            k <= input.house@.len(),
            cells@ == greedy_prefix(input.house@, input.source@, k as int),
        decreases input.house@.len() - k,
    {
        let h = input.house[k];
        let mut best: usize = 0;
        let mut j: usize = 0;
        while j < input.source.len()
            invariant
                input.source@.len() > 0,
                forall|i: int| 0 <= i < input.source@.len() ==> dist_fits(#[trigger] input.source@[i], h),
                j <= input.source@.len(),
                best < input.source@.len(),
                best == nearest_among(input.source@, h, j as int),
            decreases input.source@.len() - j,
        {
            proof {
                assert(dist_fits(input.source@[j as int], h));
                assert(dist_fits(input.source@[best as int], h));
            }
            if input.source[j].dist(&h) < input.source[best].dist(&h) {
                best = j;
            }
            j = j + 1;
        }
        let s = input.source[best];
        let mut p = s;
        let ghost start = cells@;
        while p != h
            invariant
                start + rows_first_walk(s, h) == cells@ + rows_first_walk(p, h),
            decreases manhattan(p, h),
        {
            let ghost p0 = p;
            cells.push(p);
            if p.y < h.y {
                p.y = p.y + 1;
            } else if p.y > h.y {
                p.y = p.y - 1;
            } else if p.x < h.x {
                p.x = p.x + 1;
            } else if p.x > h.x {
                p.x = p.x - 1;
            }
            proof {
                assert(p == step_rows_first(p0, h));
                assert(rows_first_walk(p0, h) == seq![p0] + rows_first_walk(p, h));
                assert(cells@ + rows_first_walk(p, h) =~= cells@.drop_last() + (seq![p0] + rows_first_walk(p, h)));
            }
        }
        cells.push(p);
        proof {
            assert(rows_first_walk(p, h) == seq![h]);
            assert(cells@ =~= start + rows_first_walk(s, h));
        }
        k = k + 1;
    }
    cells
}

} // verus!
