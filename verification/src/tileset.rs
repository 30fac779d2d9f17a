//! Sets of tiles held as strictly increasing lists.
//!
//! Iteration order over tiles must be identical everywhere, so every set of
//! tiles in the simulation is a list sorted ascending with no repeats.

use crate::ids::TileId;
use vstd::prelude::*;

verus! {

/// Ascending with no repeats.
pub open spec fn strictly_increasing(s: Seq<TileId>) -> bool {
    forall|i: int, j: int| 0 <= i < j < s.len() ==> s[i].0 < s[j].0
}

pub open spec fn has_tile(s: Seq<TileId>, t: int) -> bool {
    exists|i: int| 0 <= i < s.len() && s[i].0 == t
}

/// Whether a list holds tile `t`. Linear scan.
pub fn contains_tile(v: &Vec<TileId>, t: TileId) -> (b: bool)
    ensures
        b == v@.contains(t),
        b == has_tile(v@, t.0 as int),
{
    let mut i: usize = 0;
    while i < v.len()
        invariant
            i <= v@.len(),
            forall|j: int| 0 <= j < i ==> v@[j] != t,
        decreases v@.len() - i,
    {
        if v[i].0 == t.0 {
            assert(v@[i as int] == t);
            return true;
        }
        i = i + 1;
    }
    assert forall|j: int| 0 <= j < v@.len() implies v@[j].0 != t.0 by {
        if v@[j].0 == t.0 {
            assert(v@[j] == t);
        }
    }
    false
}

/// Insert `t` into an ascending list, keeping it ascending; no effect when it
/// is already there.
pub fn insert_tile(v: &mut Vec<TileId>, t: TileId)
    requires
        strictly_increasing(old(v)@),
    ensures
        strictly_increasing(final(v)@),
        forall|x: TileId| final(v)@.contains(x) <==> (old(v)@.contains(x) || x == t),
        final(v)@.len() <= old(v)@.len() + 1,
{
    let mut p: usize = 0;
    while p < v.len() && v[p].0 < t.0
        invariant
            p <= v@.len(),
            forall|j: int| 0 <= j < p ==> v@[j].0 < t.0,
        decreases v@.len() - p,
    {
        p = p + 1;
    }
    if p < v.len() && v[p].0 == t.0 {
        assert(v@[p as int] == t);
        return;
    }
    let ghost before = v@;
    v.insert(p, t);
    assert forall|x: TileId| v@.contains(x) implies (before.contains(x) || x == t) by {
        let k = choose|k: int| 0 <= k < v@.len() && v@[k] == x;
        if k < p {
            assert(before[k] == x);
        } else if k > p {
            assert(before[k - 1] == x);
        }
    }
    assert forall|x: TileId| (before.contains(x) || x == t) implies v@.contains(x) by {
        if x == t {
            assert(v@[p as int] == t);
        } else {
            let k = choose|k: int| 0 <= k < before.len() && before[k] == x;
            if k < p {
                assert(v@[k] == x);
            } else {
                assert(v@[k + 1] == x);
            }
        }
    }
}

/// Sort a tile list ascending and drop repeats.
pub fn normalize_tiles(v: &Vec<TileId>) -> (out: Vec<TileId>)
    ensures
        strictly_increasing(out@),
        forall|x: TileId| out@.contains(x) <==> v@.contains(x),
        out@.len() <= v@.len(),
{
    let mut out: Vec<TileId> = Vec::new();
    let mut i: usize = 0;
    while i < v.len()
        invariant
            i <= v@.len(),
            strictly_increasing(out@),
            forall|x: TileId| out@.contains(x) <==> v@.take(i as int).contains(x),
            out@.len() <= i,
        decreases v@.len() - i,
    {
        let ghost before = out@;
        insert_tile(&mut out, v[i]);
        proof {
            assert forall|x: TileId| v@.take(i + 1).contains(x) <==> (v@.take(i as int).contains(x)
                || x == v@[i as int]) by {
                let s1 = v@.take(i + 1);
                let s0 = v@.take(i as int);
                if s1.contains(x) {
                    let k = choose|k: int| 0 <= k < s1.len() && s1[k] == x;
                    if k < i {
                        assert(v@.take(i as int)[k] == x);
                    }
                }
                if v@.take(i as int).contains(x) {
                    let k = choose|k: int| 0 <= k < s0.len() && s0[k] == x;
                    assert(v@.take(i + 1)[k] == x);
                }
                if x == v@[i as int] {
                    assert(v@.take(i + 1)[i as int] == x);
                }
            }
            assert forall|x: TileId| out@.contains(x) <==> v@.take(i + 1).contains(x) by {
                assert(out@.contains(x) <==> (before.contains(x) || x == v@[i as int]));
                assert(before.contains(x) <==> v@.take(i as int).contains(x));
            }
        }
        i = i + 1;
    }
    assert(v@.take(i as int) =~= v@);
    out
}


/// One more element of a prefix either joins its filtered image or not.
pub proof fn lemma_filter_take<A>(s: Seq<A>, p: spec_fn(A) -> bool, i: int)
    requires
        0 <= i < s.len(),
    ensures
        s.take(i + 1).filter(p) == (if p(s[i]) {
            s.take(i).filter(p).push(s[i])
        } else {
            s.take(i).filter(p)
        }),
{
    reveal(Seq::filter);
    assert(s.take(i + 1).drop_last() =~= s.take(i));
}

pub proof fn lemma_take_all<A>(s: Seq<A>)
    ensures
        s.take(s.len() as int) == s,
{
    assert(s.take(s.len() as int) =~= s);
}

/// An ascending list holds its position or more at every position.
pub proof fn lemma_increasing_index(s: Seq<TileId>, i: int)
    requires
        strictly_increasing(s),
        0 <= i < s.len(),
    ensures
        s[i].0 >= i,
    decreases i,
{
    if i > 0 {
        lemma_increasing_index(s, i - 1);
    }
}

/// An ascending list of tiles below `bound` has at most `bound` entries.
pub proof fn lemma_increasing_bound(s: Seq<TileId>, bound: int)
    requires
        strictly_increasing(s),
        bound >= 0,
        forall|k: int| 0 <= k < s.len() ==> (#[trigger] s[k]).0 < bound,
    ensures
        s.len() <= bound,
{
    if s.len() > 0 {
        lemma_increasing_index(s, s.len() - 1);
        assert(s[s.len() - 1].0 < bound);
    }
}

} // verus!
