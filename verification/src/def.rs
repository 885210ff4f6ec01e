use vstd::prelude::*;

verus! {

/// Sentinel for "unreached" distances.
pub const INF: i64 = 100_000_000_000_000;

/// Side length of the square board.
pub const N: usize = 200;

/// Largest hardness a cell can have.
pub const S_MAX: i64 = 5000;

/// The problem instance as handed over by the judge.
pub struct Input {
    pub n: usize,
    pub w: usize,
    pub k: usize,
    pub c: i64,
    pub source: Vec<Pos>,
    pub house: Vec<Pos>,
}

/// What the player has learned about the board so far.
pub struct State {
    pub is_broken: Vec2d<bool>,
    pub damage: Vec2d<i64>,
    pub damage_before_break: Vec2d<i64>,
    pub total_damage: i64,
}

/// A cell of the board, row `y` and column `x`.
#[derive(PartialEq, Eq, Structural, Clone, Copy, Debug, Hash, PartialOrd, Ord)]
pub struct Pos {
    pub y: i64,
    pub x: i64,
}

/// Number of cells of the board.
pub open spec fn cell_count() -> int {
    (N * N) as int
}

pub open spec fn abs_int(a: int) -> int {
    if a < 0 { -a } else { a }
}

/// Manhattan distance between two cells.
pub open spec fn manhattan(a: Pos, b: Pos) -> int {
    abs_int(b.y - a.y) + abs_int(b.x - a.x)
}

/// Two cells share a side.
pub open spec fn adjacent(a: Pos, b: Pos) -> bool {
    manhattan(a, b) == 1
}

impl Pos {
    /// The cell lies on the board.
    pub open spec fn valid(self) -> bool {
        0 <= self.x < 200 && 0 <= self.y < 200
    }

    /// Row-major index of a cell of the board.
    pub open spec fn idx(self) -> int {
        self.y * (N as int) + self.x
    }

    /// Manhattan distance to `to`.
    pub fn dist(&self, to: &Pos) -> (d: i64)
        requires
            -i64::MAX <= to.y - self.y <= i64::MAX,
            -i64::MAX <= to.x - self.x <= i64::MAX,
            manhattan(*self, *to) <= i64::MAX,
        ensures
            d == manhattan(*self, *to),
    {
        let dy = to.y - self.y;
        let dx = to.x - self.x;
        let ay = if dy < 0 { -dy } else { dy };
        let ax = if dx < 0 { -dx } else { dx };
        ay + ax
    }

    /// Whether the cell lies on the board.
    pub fn is_valid(&self) -> (b: bool)
        ensures
            b == self.valid(),
    {
        self.x >= 0 && self.y >= 0 && self.x < 200 && self.y < 200
    }

    /// Row-major index of the cell.
    pub fn to_idx(&self) -> (i: usize)
        requires
            self.valid(),
        ensures
            i == self.idx(),
            i < cell_count(),
    {
        proof {
            lemma_idx_bounds(*self);
        }
        self.y as usize * N + self.x as usize
    }
}

/// The cell at grid coordinates `(y, x)`, where a coordinate equal to `N`
/// (one past the board) is pulled back onto the last row or column.
pub fn pos_to_grid(y: i64, x: i64) -> (p: Pos)
    ensures
        p.y == if y == N { (N - 1) as i64 } else { y },
        p.x == if x == N { (N - 1) as i64 } else { x },
{
    let y = if y == N as i64 { N as i64 - 1 } else { y };
    let x = if x == N as i64 { N as i64 - 1 } else { x };
    Pos { y, x }
}

/// The index of a cell of the board lies in `0 .. N * N`.
pub proof fn lemma_idx_bounds(p: Pos)
    requires
        p.valid(),
    ensures
        0 <= p.idx() < cell_count(),
{
    assert(0 <= p.y * 200 <= 199 * 200) by (nonlinear_arith)
        requires
            0 <= p.y < 200,
    ;
}

/// Distinct cells of the board have distinct indices.
pub proof fn lemma_idx_injective(p: Pos, q: Pos)
    requires
        p.valid(),
        q.valid(),
        p.idx() == q.idx(),
    ensures
        p == q,
{
    if p.y < q.y {
        assert(p.y * 200 + 200 <= q.y * 200) by (nonlinear_arith)
            requires
                p.y < q.y,
        ;
    } else if q.y < p.y {
        assert(q.y * 200 + 200 <= p.y * 200) by (nonlinear_arith)
            requires
                q.y < p.y,
        ;
    }
}

/// A dense two-dimensional table addressed by cells.
#[derive(Debug, Clone)]
pub struct Vec2d<T> {
    vec: Vec<T>,
    n: usize,
    m: usize,
}

impl<T> View for Vec2d<T> {
    type V = Seq<T>;

    closed spec fn view(&self) -> Seq<T> {
        self.vec@
    }
}

impl<T> Vec2d<T> {
    /// Number of rows the table was made with.
    pub closed spec fn rows(&self) -> usize {
        self.n
    }

    /// Number of columns the table was made with.
    pub closed spec fn cols(&self) -> usize {
        self.m
    }

    /// The table has one entry for every cell of the board.
    pub open spec fn covers_board(&self) -> bool {
        self@.len() == cell_count()
    }

    /// The entry of cell `p`.
    pub open spec fn at(&self, p: Pos) -> T {
        self@[p.idx()]
    }
}

impl<T: Copy> Vec2d<T> {
    /// A table of `n * m` entries, all `init_value`.
    pub fn new(n: usize, m: usize, init_value: T) -> (r: Vec2d<T>)
        requires
            n * m <= usize::MAX,
        ensures
            r@ == Seq::new((n * m) as nat, |i: int| init_value),
            r.rows() == n,
            r.cols() == m,
    {
        let total = n * m;
        let mut vec: Vec<T> = Vec::with_capacity(total);
        let mut i: usize = 0;
        while i < total
            invariant
                i <= total,
                vec@ == Seq::new(i as nat, |j: int| init_value),
            decreases total - i,
        {
            vec.push(init_value);
            i = i + 1;
        }
        Vec2d { vec, n, m }
    }

    /// The entry of cell `pos`.
    pub fn get(&self, pos: &Pos) -> (v: T)
        requires
            pos.valid(),
            pos.idx() < self@.len(),
        ensures
            v == self.at(*pos),
    {
        self.vec[pos.to_idx()]
    }

    /// Overwrites the entry of cell `pos`.
    pub fn set(&mut self, pos: &Pos, val: T)
        requires
            pos.valid(),
            pos.idx() < old(self)@.len(),
        ensures
            final(self)@ == old(self)@.update(pos.idx(), val),
            final(self).rows() == old(self).rows(),
            final(self).cols() == old(self).cols(),
    {
        let i = pos.to_idx();
        self.vec.set(i, val);
    }
}

impl State {
    /// The state before any excavation: nothing broken, no damage.
    pub fn new(n: usize) -> (s: State)
        requires
            n * n <= usize::MAX,
        ensures
            s.is_broken@ == Seq::new((n * n) as nat, |i: int| false),
            s.damage@ == Seq::new((n * n) as nat, |i: int| 0i64),
            s.damage_before_break@ == Seq::new((n * n) as nat, |i: int| 0i64),
            s.total_damage == 0,
    {
        State {
            is_broken: Vec2d::new(n, n, false),
            damage: Vec2d::new(n, n, 0),
            damage_before_break: Vec2d::new(n, n, 0),
            total_damage: 0,
        }
    }

    /// The three tables cover the board.
    pub open spec fn wf(&self) -> bool {
        &&& self.is_broken.covers_board()
        &&& self.damage.covers_board()
        &&& self.damage_before_break.covers_board()
    }
}

/// Reading a cell after writing it gives the value written; the other
/// cells keep theirs.
pub proof fn law_get_after_set<T>(before: Seq<T>, after: Seq<T>, p: Pos, q: Pos, val: T)
    requires
        p.valid(),
        q.valid(),
        before.len() == cell_count(),
        after == before.update(p.idx(), val),
    ensures
        after[p.idx()] == val,
        q != p ==> after[q.idx()] == before[q.idx()],
{
    lemma_idx_bounds(p);
    lemma_idx_bounds(q);
    if q != p && q.idx() == p.idx() {
        lemma_idx_injective(q, p);
    }
}

} // verus!
