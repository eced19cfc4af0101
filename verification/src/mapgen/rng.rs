//! The xorshift32 generator that drives every random choice of map generation.

use vstd::prelude::*;

verus! {

/// One xorshift32 step.
pub open spec fn xorshift(s: u32) -> u32 {
    let a = s ^ (s << 13u32);
    let b = a ^ (a >> 17u32);
    b ^ (b << 5u32)
}

/// Fisher–Yates from position `i` down to 1: each step draws the next state
/// `d` and swaps position `i` with position `d % (i + 1)`. Gives the
/// shuffled sequence and the final state.
pub open spec fn shuffled<T>(s: Seq<T>, st: u32, i: int) -> (Seq<T>, u32)
    decreases i,
{
    if i < 1 || i >= s.len() {
        (s, st)
    } else {
        let d = xorshift(st);
        let j = (d as int) % (i + 1);
        shuffled(s.update(i, s[j]).update(j, s[i]), d, i - 1)
    }
}

/// Deterministic xorshift32 PRNG; a zero seed is replaced by 1.
pub struct Rng {
    pub state: u32,
}

impl Rng {
    pub fn new(seed: u32) -> (r: Rng)
        ensures
            r.state == if seed == 0 {
                1u32
            } else {
                seed
            },
    {
        Rng { state: if seed == 0 { 1 } else { seed } }
    }

    /// Advance the state and return it.
    pub fn next(&mut self) -> (v: u32)
        ensures
            v == xorshift(old(self).state),
            final(self).state == v,
    {
        let s = self.state;
        let a = s ^ (s << 13);
        let b = a ^ (a >> 17);
        let c = b ^ (b << 5);
        self.state = c;
        c
    }

    /// One draw that succeeds when its low 24 bits fall below `threshold`:
    /// probability `threshold / 2^24`.
    pub fn chance(&mut self, threshold: u32) -> (b: bool)
        ensures
            b == ((xorshift(old(self).state) & 0x00FF_FFFFu32) < threshold),
            final(self).state == xorshift(old(self).state),
    {
        (self.next() & 0x00FF_FFFF) < threshold
    }

    /// Shuffle a slice in place (Fisher–Yates from the back).
    pub fn shuffle<T: Copy>(&mut self, v: &mut Vec<T>)
        ensures
            final(v)@ == shuffled(old(v)@, old(self).state, old(v)@.len() - 1).0,
            final(self).state == shuffled(old(v)@, old(self).state, old(v)@.len() - 1).1,
            final(v)@.len() == old(v)@.len(),
            final(v)@.to_multiset() =~= old(v)@.to_multiset(),
    {
        let n = v.len();
        if n < 2 {
            return;
        }
        let mut i: usize = n - 1;
        while i >= 1
            invariant
                v@.len() == n,
                i < n,
                v@.to_multiset() =~= old(v)@.to_multiset(),
                shuffled(v@, self.state, i as int) == shuffled(old(v)@, old(self).state, n - 1),
            decreases i,
        {
            let j = (self.next() as usize) % (i + 1);
            let ghost s = v@;
            let vi = v[i];
            let vj = v[j];
            v.set(i, vj);
            v.set(j, vi);
            proof {
                lemma_swap_keeps_multiset(s, i as int, j as int);
                assert(v@ =~= s.update(i as int, s[j as int]).update(j as int, s[i as int]));
            }
            i = i - 1;
        }
    }
}

proof fn lemma_update_keeps_multiset<T>(s: Seq<T>, i: int, v: T)
    requires
        0 <= i < s.len(),
    ensures
        s.update(i, v).to_multiset() =~= s.to_multiset().remove(s[i]).insert(v),
{
    broadcast use vstd::seq_lib::group_to_multiset_ensures;
    let t = s.update(i, v);
    assert(t.remove(i) =~= s.remove(i));
    assert(t.to_multiset() =~= t.remove(i).to_multiset().insert(v)) by {
        assert(t.remove(i).to_multiset() =~= t.to_multiset().remove(t[i]));
        assert(t.to_multiset().count(v) > 0) by {
            assert(t.contains(v)) by {
                assert(t[i] == v);
            }
        }
    }
    assert(s.remove(i).to_multiset() =~= s.to_multiset().remove(s[i]));
}

/// Exchanging two positions keeps the multiset of elements.
pub proof fn lemma_swap_keeps_multiset<T>(s: Seq<T>, i: int, j: int)
    requires
        0 <= i < s.len(),
        0 <= j < s.len(),
    ensures
        s.update(i, s[j]).update(j, s[i]).to_multiset() =~= s.to_multiset(),
{
    broadcast use vstd::seq_lib::group_to_multiset_ensures;
    lemma_update_keeps_multiset(s, i, s[j]);
    let t = s.update(i, s[j]);
    lemma_update_keeps_multiset(t, j, s[i]);
    if i == j {
        assert(s.update(i, s[j]).update(j, s[i]) =~= s);
    }
}

} // verus!
