//! Helpers for vectors of chunk positions used as sets: membership tests,
//! distinctness, and the lemmas that keep them provable across mutation.

use vstd::prelude::*;
use crate::chunk::ChunkPos;

verus! {

/// No position occurs twice.
pub open spec fn distinct_pos(s: Seq<ChunkPos>) -> bool {
    forall|i: int, j: int| 0 <= i < j < s.len() ==> s[i] != s[j]
}

/// Membership scan over a vector of positions.
pub fn contains_pos(v: &Vec<ChunkPos>, p: ChunkPos) -> (r: bool)
    ensures
        r == v@.contains(p),
{
    let mut i: usize = 0;
    let n = v.len();
    while i < n
        invariant
            n == v@.len(),
            i <= n,
            forall|j: int| 0 <= j < i ==> v@[j] != p,
        decreases n - i,
    {
        if v[i].px == p.px && v[i].py == p.py && v[i].pz == p.pz {
            return true;
        }
        i = i + 1;
    }
    false
}

/// Pushing an element extends the membership of a sequence by that element.
pub proof fn lemma_contains_push(s: Seq<ChunkPos>, e: ChunkPos, q: ChunkPos)
    ensures
        s.push(e).contains(q) <==> (s.contains(q) || q == e),
{
    if s.push(e).contains(q) {
        let j = choose|j: int| 0 <= j < s.push(e).len() && s.push(e)[j] == q;
        if j < s.len() {
            assert(s[j] == q);
        }
    }
    if s.contains(q) {
        let j = choose|j: int| 0 <= j < s.len() && s[j] == q;
        assert(s.push(e)[j] == q);
    }
    if q == e {
        assert(s.push(e)[s.len() as int] == q);
    }
}

/// Removing index `i` from a distinct sequence removes exactly that element.
pub proof fn lemma_distinct_remove(s: Seq<ChunkPos>, i: int, q: ChunkPos)
    requires
        distinct_pos(s),
        0 <= i < s.len(),
    ensures
        distinct_pos(s.remove(i)),
        s.remove(i).contains(q) <==> (s.contains(q) && q != s[i]),
{
    let t = s.remove(i);
    assert forall|a: int, b: int| 0 <= a < b < t.len() implies t[a] != t[b] by {
        let a2 = if a < i { a } else { a + 1 };
        let b2 = if b < i { b } else { b + 1 };
        assert(t[a] == s[a2]);
        assert(t[b] == s[b2]);
    }
    if t.contains(q) {
        let j = choose|j: int| 0 <= j < t.len() && t[j] == q;
        let j2 = if j < i { j } else { j + 1 };
        assert(t[j] == s[j2]);
        assert(s.contains(q));
        assert(s[j2] != s[i]);
    }
    if s.contains(q) && q != s[i] {
        let j = choose|j: int| 0 <= j < s.len() && s[j] == q;
        if j < i {
            assert(t[j] == q);
        } else {
            assert(j > i);
            assert(t[j - 1] == q);
        }
        assert(t.contains(q));
    }
}

/// Remove `p` from a distinct vector of positions that holds it.
pub fn remove_pos(v: &mut Vec<ChunkPos>, p: ChunkPos)
    requires
        distinct_pos(old(v)@),
        old(v)@.contains(p),
    ensures
        distinct_pos(final(v)@),
        forall|q: ChunkPos| final(v)@.contains(q) <==> (old(v)@.contains(q) && q != p),
{
    let mut i: usize = 0;
    let n = v.len();
    while i < n
        invariant
            v@ == old(v)@,
            distinct_pos(v@),
            n == v@.len(),
            i <= n,
            forall|j: int| 0 <= j < i ==> v@[j] != p,
        decreases n - i,
    {
        if v[i].px == p.px && v[i].py == p.py && v[i].pz == p.pz {
            let ghost before = v@;
            let ghost gi = i as int;
            v.remove(i);
            proof {
                assert(before[gi] == p);
                assert forall|q: ChunkPos|
                    v@.contains(q) <==> (before.contains(q) && q != p) by {
                    lemma_distinct_remove(before, gi, q);
                }
                lemma_distinct_remove(before, gi, p);
            }
            return ;
        }
        i = i + 1;
    }
    proof {
        let w = choose|w: int| 0 <= w < old(v)@.len() && old(v)@[w] == p;
        assert(false);
    }
}

} // verus!
