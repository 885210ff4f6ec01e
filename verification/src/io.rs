use vstd::prelude::*;
use crate::def::{Input, Pos};

verus! {

/// `char::is_whitespace`: the Unicode White_Space characters.
pub open spec fn is_ws(c: char) -> bool {
    let u = c as u32;
    ||| 9 <= u <= 13
    ||| u == 32
    ||| u == 0x85
    ||| u == 0xa0
    ||| u == 0x1680
    ||| 0x2000 <= u <= 0x200a
    ||| u == 0x2028
    ||| u == 0x2029
    ||| u == 0x202f
    ||| u == 0x205f
    ||| u == 0x3000
}

pub open spec fn trim_start(s: Seq<char>) -> Seq<char>
    decreases s.len(),
{
    if s.len() > 0 && is_ws(s[0]) {
        trim_start(s.drop_first())
    } else {
        s
    }
}

pub open spec fn trim_end(s: Seq<char>) -> Seq<char>
    decreases s.len(),
{
    if s.len() > 0 && is_ws(s.last()) {
        trim_end(s.drop_last())
    } else {
        s
    }
}

/// `str::trim`.
pub open spec fn trim(s: Seq<char>) -> Seq<char> {
    trim_end(trim_start(s))
}

/// Index of the first space, or the length when there is none.
pub open spec fn first_space(s: Seq<char>) -> int
    decreases s.len(),
{
    if s.len() == 0 {
        0
    } else if s[0] == ' ' {
        0
    } else {
        1 + first_space(s.drop_first())
    }
}

/// `str::split(" ")`: the pieces between single spaces.
pub open spec fn split(s: Seq<char>) -> Seq<Seq<char>>
    decreases s.len(),
{
    let i = first_space(s);
    if 0 <= i < s.len() {
        seq![s.take(i)] + split(s.skip(i + 1))
    } else {
        seq![s]
    }
}

pub open spec fn is_digit(c: char) -> bool {
    '0' <= c <= '9'
}

pub open spec fn all_digits(s: Seq<char>) -> bool {
    forall|i: int| 0 <= i < s.len() ==> is_digit(#[trigger] s[i])
}

/// Decimal value of a string of digits.
pub open spec fn digits_value(s: Seq<char>) -> nat
    decreases s.len(),
{
    if s.len() == 0 {
        0
    } else {
        digits_value(s.drop_last()) * 10 + ((s.last() as u32) - ('0' as u32)) as nat
    }
}

/// The digits after an optional leading `+`, or after `-` when allowed.
pub open spec fn unsigned_part(s: Seq<char>, allow_minus: bool) -> Seq<char> {
    if s.len() > 0 && (s[0] == '+' || (allow_minus && s[0] == '-')) {
        s.drop_first()
    } else {
        s
    }
}

/// `str::parse::<usize>`.
pub open spec fn parse_usize(s: Seq<char>) -> Option<usize> {
    let d = unsigned_part(s, false);
    if d.len() > 0 && all_digits(d) && digits_value(d) <= usize::MAX {
        Some(digits_value(d) as usize)
    } else {
        None
    }
}

/// `str::parse::<i64>`.
pub open spec fn parse_i64(s: Seq<char>) -> Option<i64> {
    let neg = s.len() > 0 && s[0] == '-';
    let d = unsigned_part(s, true);
    let v = digits_value(d) as int;
    if d.len() > 0 && all_digits(d) && (if neg {
        v <= 0x8000_0000_0000_0000
    } else {
        v <= i64::MAX
    }) {
        Some((if neg {
            -v
        } else {
            v
        }) as i64)
    } else {
        None
    }
}

/// The first line of the input: `n w k c`.
pub open spec fn parse_header(line: Seq<char>) -> Option<(usize, usize, usize, i64)> {
    let t = split(trim(line));
    if t.len() >= 4 && parse_usize(t[0]) is Some && parse_usize(t[1]) is Some && parse_usize(t[2]) is Some
        && parse_i64(t[3]) is Some {
        Some((parse_usize(t[0]).unwrap(), parse_usize(t[1]).unwrap(), parse_usize(t[2]).unwrap(),
            parse_i64(t[3]).unwrap()))
    } else {
        None
    }
}

/// A line `y x` naming a cell.
pub open spec fn parse_pos(line: Seq<char>) -> Option<Pos> {
    let t = split(trim(line));
    if t.len() >= 2 && parse_i64(t[0]) is Some && parse_i64(t[1]) is Some {
        Some(Pos { y: parse_i64(t[0]).unwrap(), x: parse_i64(t[1]).unwrap() })
    } else {
        None
    }
}

/// A reader of the judge's lines.
pub struct IO {
    lines: Vec<String>,
    next: usize,
}

fn is_ws_exec(c: char) -> (b: bool)
    ensures
        b == is_ws(c),
{
    let u = c as u32;
    (9 <= u && u <= 13) || u == 32 || u == 0x85 || u == 0xa0 || u == 0x1680 || (0x2000 <= u && u
        <= 0x200a) || u == 0x2028 || u == 0x2029 || u == 0x202f || u == 0x205f || u == 0x3000
}

/// The characters of `s`.
fn chars_of(s: &str) -> (r: Vec<char>)
    ensures
        r@ == s@,
{
    let n = s.unicode_len();
    let mut r: Vec<char> = Vec::new();
    let mut i: usize = 0;
    while i < n
        invariant
            n == s@.len(),
            i <= n,
            r@ == s@.take(i as int),
        decreases n - i,
    {
        r.push(s.get_char(i));
        proof {
            assert(s@.take(i + 1) =~= s@.take(i as int).push(s@[i as int]));
        }
        i = i + 1;
    }
    proof {
        assert(s@.take(n as int) =~= s@);
    }
    r
}

/// Bounds of `trim(s[lo..hi])` inside `s`.
fn trim_bounds(s: &Vec<char>, lo: usize, hi: usize) -> (r: (usize, usize))
    requires
        lo <= hi <= s@.len(),
    ensures
        lo <= r.0 <= r.1 <= hi,
        s@.subrange(r.0 as int, r.1 as int) == trim(s@.subrange(lo as int, hi as int)),
{
    let mut a = lo;
    while a < hi && is_ws_exec(s[a])
        invariant
            lo <= a <= hi <= s@.len(),
            trim_start(s@.subrange(lo as int, hi as int)) == trim_start(s@.subrange(a as int, hi as int)),
        decreases hi - a,
    {
        proof {
            assert(s@.subrange(a as int, hi as int).drop_first() =~= s@.subrange(a + 1, hi as int));
        }
        a = a + 1;
    }
    let mut b = hi;
    while b > a && is_ws_exec(s[b - 1])
        invariant
            lo <= a <= b <= hi <= s@.len(),
            trim_start(s@.subrange(lo as int, hi as int)) == s@.subrange(a as int, hi as int),
            trim(s@.subrange(lo as int, hi as int)) == trim_end(s@.subrange(a as int, b as int)),
        decreases b - a,
    {
        proof {
            assert(s@.subrange(a as int, b as int).drop_last() =~= s@.subrange(a as int, b - 1));
        }
        b = b - 1;
    }
    (a, b)
}

/// Index of the first space in `s[lo..hi]`, or `hi`.
fn find_space(s: &Vec<char>, lo: usize, hi: usize) -> (r: usize)
    requires
        lo <= hi <= s@.len(),
    ensures
        lo <= r <= hi,
        r - lo == first_space(s@.subrange(lo as int, hi as int)),
{
    let mut j = lo;
    while j < hi && s[j] != ' '
        invariant
            lo <= j <= hi <= s@.len(),
            first_space(s@.subrange(lo as int, hi as int)) == (j - lo) + first_space(
                s@.subrange(j as int, hi as int),
            ),
        decreases hi - j,
    {
        proof {
            assert(s@.subrange(j as int, hi as int).drop_first() =~= s@.subrange(j + 1, hi as int));
        }
        j = j + 1;
    }
    j
}

proof fn lemma_first_space_bounds(s: Seq<char>)
    ensures
        0 <= first_space(s) <= s.len(),
        first_space(s) < s.len() ==> s[first_space(s)] == ' ',
    decreases s.len(),
{
    if s.len() > 0 && s[0] != ' ' {
        lemma_first_space_bounds(s.drop_first());
    }
}

/// Ranges of the first `m` pieces of `split(s[lo..hi])`, or `None` when
/// there are fewer.
fn first_tokens(s: &Vec<char>, lo: usize, hi: usize, m: usize) -> (r: Option<Vec<(usize, usize)>>)
    requires
        lo <= hi <= s@.len(),
    ensures
        r is None <==> split(s@.subrange(lo as int, hi as int)).len() < m,
        r matches Some(v) ==> v@.len() == m && forall|j: int|
            0 <= j < m ==> {
                &&& v@[j].0 <= v@[j].1 <= s@.len()
                &&& s@.subrange(#[trigger] v@[j].0 as int, v@[j].1 as int) == split(
                    s@.subrange(lo as int, hi as int),
                )[j]
            },
{
    let ghost all = split(s@.subrange(lo as int, hi as int));
    let mut v: Vec<(usize, usize)> = Vec::new();
    let mut cur = lo;
    let mut more = true;
    while v.len() < m
        invariant
            lo <= cur <= hi <= s@.len(),
            v@.len() <= m,
            all == split(s@.subrange(lo as int, hi as int)),
            more ==> all.len() >= v@.len() && all.subrange(v@.len() as int, all.len() as int) == split(
                s@.subrange(cur as int, hi as int),
            ),
            !more ==> all.len() == v@.len(),
            forall|j: int|
                0 <= j < v@.len() ==> {
                    &&& #[trigger] v@[j].0 <= v@[j].1 <= s@.len()
                    &&& j < all.len()
                    &&& s@.subrange(v@[j].0 as int, v@[j].1 as int) == all[j]
                },
        decreases m - v@.len(),
    {
        if !more {
            return None;
        }
        let e = find_space(s, cur, hi);
        let ghost t = s@.subrange(cur as int, hi as int);
        let ghost k = v@.len() as int;
        proof {
            lemma_first_space_bounds(t);
            lemma_split_nonempty(t);
            assert(t.take(e - cur) =~= s@.subrange(cur as int, e as int));
            assert(all[k] == all.subrange(k, all.len() as int)[0]);
        }
        v.push((cur, e));
        if e < hi {
            proof {
                assert(t.skip(e - cur + 1) =~= s@.subrange(e + 1, hi as int));
                assert(split(t) == seq![t.take(e - cur)] + split(t.skip(e - cur + 1)));
                assert(all.subrange(k + 1, all.len() as int) =~= all.subrange(k, all.len() as int).subrange(
                    1,
                    all.len() - k,
                ));
                assert((seq![t.take(e - cur)] + split(t.skip(e - cur + 1))).subrange(
                    1,
                    all.len() - k,
                ) =~= split(t.skip(e - cur + 1)));
            }
            cur = e + 1;
        } else {
            proof {
                assert(split(t) == seq![t]);
                assert(t.take(e - cur) =~= t);
            }
            cur = hi;
            more = false;
        }
    }
    proof {
        if more {
            lemma_split_nonempty(s@.subrange(cur as int, hi as int));
        }
    }
    Some(v)
}

proof fn lemma_split_nonempty(s: Seq<char>)
    ensures
        split(s).len() >= 1,
    decreases s.len(),
{
    lemma_first_space_bounds(s);
    let i = first_space(s);
    if 0 <= i < s.len() {
        lemma_split_nonempty(s.skip(i + 1));
    }
}

/// A longer string of digits has at least the value of its prefix.
proof fn lemma_digits_prefix(t: Seq<char>, j: int)
    requires
        0 <= j <= t.len(),
    ensures
        digits_value(t.take(j)) <= digits_value(t),
    decreases t.len() - j,
{
    if j < t.len() {
        lemma_digits_prefix(t, j + 1);
        assert(t.take(j + 1).drop_last() =~= t.take(j));
    } else {
        assert(t.take(j) =~= t);
    }
}

/// The value of the digits `s[lo..hi]` when they are one or more digits
/// worth at most `limit`.
fn parse_digits(s: &Vec<char>, lo: usize, hi: usize, limit: u64) -> (r: Option<u64>)
    requires
        lo <= hi <= s@.len(),
    ensures
        ({
            let t = s@.subrange(lo as int, hi as int);
            r == if t.len() > 0 && all_digits(t) && digits_value(t) <= limit {
                Some(digits_value(t) as u64)
            } else {
                None::<u64>
            }
        }),
{
    let ghost t = s@.subrange(lo as int, hi as int);
    if lo == hi {
        return None;
    }
    let mut v: u64 = 0;
    let mut j = lo;
    while j < hi
        invariant
            lo <= j <= hi <= s@.len(),
            t == s@.subrange(lo as int, hi as int),
            all_digits(s@.subrange(lo as int, j as int)),
            v == digits_value(s@.subrange(lo as int, j as int)),
            v <= limit,
        decreases hi - j,
    {
        let c = s[j];
        proof {
            assert(t.take(j - lo) =~= s@.subrange(lo as int, j as int));
            assert(t.take(j - lo + 1) =~= s@.subrange(lo as int, j + 1));
            assert(s@.subrange(lo as int, j + 1).drop_last() =~= s@.subrange(lo as int, j as int));
            assert(t[j - lo] == c);
        }
        if !('0' <= c && c <= '9') {
            return None;
        }
        let d = ((c as u32) - ('0' as u32)) as u64;
        if v > limit / 10 {
            proof {
                assert(v * 10 > limit) by (nonlinear_arith)
                    requires
                        v > limit / 10,
                ;
                if all_digits(t) {
                    lemma_digits_prefix(t, j - lo + 1);
                }
            }
            return None;
        }
        let w = v * 10;
        if d > limit - w {
            proof {
                if all_digits(t) {
                    lemma_digits_prefix(t, j - lo + 1);
                }
            }
            return None;
        }
        v = w + d;
        proof {
            assert forall|i: int| 0 <= i < j + 1 - lo implies is_digit(
                #[trigger] s@.subrange(lo as int, j + 1)[i],
            ) by {
                if i < j - lo {
                    assert(s@.subrange(lo as int, j + 1)[i] == s@.subrange(lo as int, j as int)[i]);
                }
            }
        }
        j = j + 1;
    }
    Some(v)
}

fn parse_usize_exec(s: &Vec<char>, lo: usize, hi: usize) -> (r: Option<usize>)
    requires
        lo <= hi <= s@.len(),
    ensures
        r == parse_usize(s@.subrange(lo as int, hi as int)),
{
    let ghost t = s@.subrange(lo as int, hi as int);
    let mut a = lo;
    if lo < hi && s[lo] == '+' {
        a = lo + 1;
    }
    proof {
        assert(unsigned_part(t, false) =~= s@.subrange(a as int, hi as int));
    }
    match parse_digits(s, a, hi, usize::MAX as u64) {
        Some(v) => Some(v as usize),
        None => None,
    }
}

fn parse_i64_exec(s: &Vec<char>, lo: usize, hi: usize) -> (r: Option<i64>)
    requires
        lo <= hi <= s@.len(),
    ensures
        r == parse_i64(s@.subrange(lo as int, hi as int)),
{
    let ghost t = s@.subrange(lo as int, hi as int);
    let neg = lo < hi && s[lo] == '-';
    let mut a = lo;
    if lo < hi && (s[lo] == '+' || s[lo] == '-') {
        a = lo + 1;
    }
    proof {
        assert(unsigned_part(t, true) =~= s@.subrange(a as int, hi as int));
    }
    if neg {
        match parse_digits(s, a, hi, 0x8000_0000_0000_0000u64) {
            Some(v) => {
                if v == 0x8000_0000_0000_0000u64 {
                    Some(i64::MIN)
                } else {
                    Some(-(v as i64))
                }
            },
            None => None,
        }
    } else {
        match parse_digits(s, a, hi, i64::MAX as u64) {
            Some(v) => Some(v as i64),
            None => None,
        }
    }
}

/// The header `n w k c` read from line `line`.
fn parse_header_exec(line: &Vec<char>) -> (r: Option<(usize, usize, usize, i64)>)
    ensures
        r == parse_header(line@),
{
    let (a, b) = trim_bounds(line, 0, line.len());
    proof {
        assert(line@.subrange(0, line@.len() as int) =~= line@);
    }
    let toks = match first_tokens(line, a, b, 4) {
        Some(t) => t,
        None => {
            return None;
        },
    };
    let n = parse_usize_exec(line, toks[0].0, toks[0].1);
    let w = parse_usize_exec(line, toks[1].0, toks[1].1);
    let k = parse_usize_exec(line, toks[2].0, toks[2].1);
    let c = parse_i64_exec(line, toks[3].0, toks[3].1);
    match (n, w, k, c) {
        (Some(n), Some(w), Some(k), Some(c)) => Some((n, w, k, c)),
        _ => None,
    }
}

/// The cell `y x` read from a line.
fn parse_pos_exec(line: &Vec<char>) -> (r: Option<Pos>)
    ensures
        r == parse_pos(line@),
{
    let (a, b) = trim_bounds(line, 0, line.len());
    proof {
        assert(line@.subrange(0, line@.len() as int) =~= line@);
    }
    let toks = match first_tokens(line, a, b, 2) {
        Some(t) => t,
        None => {
            return None;
        },
    };
    let y = parse_i64_exec(line, toks[0].0, toks[0].1);
    let x = parse_i64_exec(line, toks[1].0, toks[1].1);
    match (y, x) {
        (Some(y), Some(x)) => Some(Pos { y, x }),
        _ => None,
    }
}

impl IO {
    /// Line `j` of the judge's output, empty past the end.
    pub closed spec fn line(&self, j: int) -> Seq<char> {
        if 0 <= j < self.lines@.len() {
            self.lines@[j]@
        } else {
            Seq::empty()
        }
    }

    /// Index of the next line to read.
    pub closed spec fn position(&self) -> int {
        self.next as int
    }

    /// A reader over the given lines, at the first one.
    pub fn new(lines: Vec<String>) -> (io: IO)
        ensures
            io.position() == 0,
            forall|j: int| #[trigger] io.line(j) == if 0 <= j < lines@.len() {
                lines@[j]@
            } else {
                Seq::<char>::empty()
            },
    {
        IO { lines, next: 0 }
    }

    fn line_chars(&self, j: usize) -> (r: Vec<char>)
        ensures
            r@ == self.line(j as int),
    {
        if j < self.lines.len() {
            chars_of(self.lines[j].as_str())
        } else {
            Vec::new()
        }
    }

    /// Reads the instance: the header `n w k c`, then `w` source cells and
    /// `k` house cells, one `y x` per line.  `None`, with nothing consumed,
    /// when a line is missing or malformed.
    pub fn read_input(&mut self) -> (r: Option<Input>)
        ensures
            ({
                let p = old(self).position();
                let h = parse_header(old(self).line(p));
                &&& r is Some <==> (h is Some && forall|i: int|
                    0 <= i < h.unwrap().1 + h.unwrap().2 ==> #[trigger] parse_pos(old(self).line(p + 1 + i)) is Some)
                &&& r matches Some(inp) ==> {
                    &&& inp.n == h.unwrap().0
                    &&& inp.w == h.unwrap().1
                    &&& inp.k == h.unwrap().2
                    &&& inp.c == h.unwrap().3
                    &&& inp.source@.len() == inp.w
                    &&& inp.house@.len() == inp.k
                    &&& forall|i: int| 0 <= i < inp.w ==> #[trigger] inp.source@[i] == parse_pos(old(self).line(p + 1 + i)).unwrap()
                    &&& forall|i: int| 0 <= i < inp.k ==> #[trigger] inp.house@[i] == parse_pos(old(self).line(p + 1 + inp.w + i)).unwrap()
                    &&& final(self).position() == p + 1 + inp.w + inp.k
                }
                &&& r is None ==> final(self).position() == p
                &&& forall|j: int| #[trigger] final(self).line(j) == old(self).line(j)
            }),
    {
        let ghost p = self.next as int;
        let head = self.line_chars(self.next);
        let (n, w, k, c) = match parse_header_exec(&head) {
            Some(h) => h,
            None => {
                return None;
            },
        };
        if self.next >= self.lines.len() {
            proof {
                assert(parse_header(Seq::<char>::empty()) is None) by {
                    assert(trim(Seq::<char>::empty()) =~= Seq::<char>::empty());
                    reveal_with_fuel(split, 2);
                    assert(split(Seq::<char>::empty()) == seq![Seq::<char>::empty()]);
                }
            }
            return None;
        }
        let mut cur = self.next + 1;
        let mut source: Vec<Pos> = Vec::new();
        let mut i: usize = 0;
        while i < w
            invariant
                self.lines@ == old(self).lines@,
                self.next == old(self).next,
                p == old(self).position(),
                parse_header(old(self).line(p)) == Some((n, w, k, c)),
                cur == p + 1 + i,
                i <= w,
                cur <= self.lines@.len(),
                source@.len() == i,
                forall|m: int| 0 <= m < i ==> #[trigger] parse_pos(self.line(p + 1 + m)) is Some && source@[m]
                    == parse_pos(self.line(p + 1 + m)).unwrap(),
            decreases w - i,
        {
            let line = self.line_chars(cur);
            match parse_pos_exec(&line) {
                Some(q) => {
                    source.push(q);
                },
                None => {
                    proof {
                        assert(parse_pos(self.line(p + 1 + i)) is None);
                    }
                    return None;
                },
            }
            if cur >= self.lines.len() {
                proof {
                    lemma_empty_line_not_pos();
                }
                return None;
            }
            cur = cur + 1;
            i = i + 1;
        }
        let mut house: Vec<Pos> = Vec::new();
        let mut i: usize = 0;
        while i < k
            invariant
                self.lines@ == old(self).lines@,
                self.next == old(self).next,
                p == old(self).position(),
                parse_header(old(self).line(p)) == Some((n, w, k, c)),
                forall|m: int| 0 <= m < w ==> #[trigger] parse_pos(self.line(p + 1 + m)) is Some && source@[m]
                    == parse_pos(self.line(p + 1 + m)).unwrap(),
                source@.len() == w,
                cur == p + 1 + w + i,
                i <= k,
                cur <= self.lines@.len(),
                house@.len() == i,
                forall|m: int| 0 <= m < i ==> #[trigger] parse_pos(self.line(p + 1 + w + m)) is Some && house@[m]
                    == parse_pos(self.line(p + 1 + w + m)).unwrap(),
            decreases k - i,
        {
            let line = self.line_chars(cur);
            match parse_pos_exec(&line) {
                Some(q) => {
                    house.push(q);
                },
                None => {
                    proof {
                        assert(parse_pos(self.line(p + 1 + (w + i))) is None);
                    }
                    return None;
                },
            }
            if cur >= self.lines.len() {
                proof {
                    lemma_empty_line_not_pos();
                }
                return None;
            }
            cur = cur + 1;
            i = i + 1;
        }
        self.next = cur;
        proof {
            assert forall|m: int| 0 <= m < w + k implies #[trigger] parse_pos(old(self).line(p + 1 + m))
                is Some by {
                if m >= w {
                    assert(parse_pos(self.line(p + 1 + w + (m - w))) is Some);
                }
            }
        }
        Some(Input { n, w, k, c, source, house })
    }

    /// Reads one line holding a single integer.  `None`, with nothing
    /// consumed, when it is missing or malformed.
    pub fn read_result(&mut self) -> (r: Option<i64>)
        ensures
            r == parse_i64(trim(old(self).line(old(self).position()))),
            r is Some ==> final(self).position() == old(self).position() + 1,
            r is None ==> final(self).position() == old(self).position(),
            forall|j: int| #[trigger] final(self).line(j) == old(self).line(j),
    {
        let line = self.line_chars(self.next);
        let (a, b) = trim_bounds(&line, 0, line.len());
        proof {
            assert(line@.subrange(0, line@.len() as int) =~= line@);
        }
        let r = parse_i64_exec(&line, a, b);
        if r.is_some() {
            if self.next >= self.lines.len() {
                proof {
                    assert(trim(Seq::<char>::empty()) =~= Seq::<char>::empty());
                    assert(line@ == Seq::<char>::empty());
                }
                return None;
            }
            self.next = self.next + 1;
        }
        r
    }
}

proof fn lemma_empty_line_not_pos()
    ensures
        parse_pos(Seq::<char>::empty()) is None,
{
    assert(trim(Seq::<char>::empty()) =~= Seq::<char>::empty());
    reveal_with_fuel(split, 2);
    assert(split(Seq::<char>::empty()) == seq![Seq::<char>::empty()]);
}

} // verus!
