use vstd::prelude::*;

verus! {

/// One step of the xorshift generator.
pub open spec fn xorshift(s: u64) -> u64 {
    let a = s ^ (s << 7u64);
    a ^ (a >> 9u64)
}

/// The generator state after `k` steps from `s`.
pub open spec fn advance(s: u64, k: nat) -> u64
    decreases k,
{
    if k == 0 {
        s
    } else {
        xorshift(advance(s, (k - 1) as nat))
    }
}

/// A xorshift pseudo-random generator.
pub struct Xorshift {
    pub s: u64,
}

impl Xorshift {
    /// The generator with its fixed starting seed.
    pub fn new() -> (r: Xorshift)
        ensures
            r.s == 88172645463325252u64,
    {
        Xorshift { s: 88172645463325252u64 }
    }
}

/// Advances the generator and returns its new state.
pub fn next(rng: &mut Xorshift) -> (r: usize)
    ensures
        final(rng).s == xorshift(old(rng).s),
        r == final(rng).s as usize,
{
    let a = rng.s ^ (rng.s << 7u64);
    rng.s = a ^ (a >> 9u64);
    rng.s as usize
}

/// A number in `low .. high` drawn from the generator.
pub fn gen_range(rng: &mut Xorshift, low: usize, high: usize) -> (r: usize)
    requires
        low < high,
    ensures
        final(rng).s == xorshift(old(rng).s),
        r == low + (xorshift(old(rng).s) as usize) % ((high - low) as usize),
        low <= r < high,
{
    (next(rng) % (high - low)) + low
}

/// Swaps entries `i` and `j` of `v` by calling `<[T]>::swap` (through
/// `Vec`'s deref to a slice).  Trusted, not proved: the contract claims that
/// entry `i` afterwards holds the old entry `j` and the other way round,
/// with every other entry and the length unchanged, as the standard
/// library documents; `swap` panics on an index out of bounds, which the
/// `requires` excludes.
#[verifier::external_body]
fn vec_swap<I>(v: &mut Vec<I>, i: usize, j: usize)
    requires
        i < old(v)@.len(),
        j < old(v)@.len(),
    ensures
        final(v)@ == old(v)@.update(i as int, old(v)@[j as int]).update(j as int, old(v)@[i as int]),
{
    v.swap(i, j);
}

/// `s` with entries `i` and `j` exchanged.
pub open spec fn swapped<I>(s: Seq<I>, i: int, j: int) -> Seq<I> {
    s.update(i, s[j]).update(j, s[i])
}

/// The first `k` steps of the shuffle of `s` from generator state `seed`:
/// step `i` exchanges entry `i` with an entry drawn from the whole range.
pub open spec fn shuffle_prefix<I>(s: Seq<I>, seed: u64, k: nat) -> Seq<I>
    decreases k,
{
    if k == 0 {
        s
    } else {
        let t = shuffle_prefix(s, seed, (k - 1) as nat);
        let j = (advance(seed, k) as usize) % (s.len() as usize);
        swapped(t, k - 1, j as int)
    }
}

/// Exchanging two entries keeps the multiset of entries.
pub(crate) proof fn lemma_swap_multiset<I>(s: Seq<I>, i: int, j: int)
    requires
        0 <= i < s.len(),
        0 <= j < s.len(),
    ensures
        swapped(s, i, j).to_multiset() =~= s.to_multiset(),
        swapped(s, i, j).len() == s.len(),
{
    broadcast use vstd::multiset::group_multiset_properties;
    broadcast use vstd::seq_lib::to_multiset_update;
    broadcast use vstd::seq_lib::to_multiset_contains;
    let t = s.update(i, s[j]);
    let m = s.to_multiset();
    assert(swapped(s, i, j) == t.update(j, s[i]));
    assert(t.update(j, s[i]).to_multiset() == t.to_multiset().insert(s[i]).remove(t[j]));
    assert(t.to_multiset() == m.insert(s[j]).remove(s[i]));
    assert(m.count(s[i]) > 0) by {
        assert(s.contains(s[i]));
    }
    if i == j {
        assert(t.update(j, s[i]) =~= s);
    } else {
        assert(t[j] == s[j]);
        assert(m.insert(s[j]).remove(s[i]).insert(s[i]).remove(s[j]) =~= m);
    }
}

/// Shuffles `vec` in place with the generator.
pub fn shuffle<I>(rng: &mut Xorshift, vec: &mut Vec<I>)
    ensures
        final(vec)@ == shuffle_prefix(old(vec)@, old(rng).s, old(vec)@.len()),
        final(vec)@.to_multiset() == old(vec)@.to_multiset(),
        final(vec)@.len() == old(vec)@.len(),
        final(rng).s == advance(old(rng).s, old(vec)@.len()),
{
    let ghost v0 = vec@;
    let ghost s0 = rng.s;
    let mut i: usize = 0;
    while i < vec.len()
        invariant
            i <= vec@.len(),
            vec@.len() == v0.len(),
            vec@ == shuffle_prefix(v0, s0, i as nat),
            vec@.to_multiset() == v0.to_multiset(),
            rng.s == advance(s0, i as nat),
        decreases vec@.len() - i,
    {
        let len = vec.len();
        let j = gen_range(rng, 0, len);
        proof {
            lemma_swap_multiset(vec@, i as int, j as int);
        }
        vec_swap(vec, i, j);
        i = i + 1;
    }
}


} // verus!
