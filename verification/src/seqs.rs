//! Small sequence helpers shared by the graph-like structures of the crate.
use vstd::prelude::*;

verus! {

/// No element occurs twice.
pub open spec fn no_dup<T>(s: Seq<T>) -> bool {
    forall|i: int, j: int| 0 <= i < s.len() && 0 <= j < s.len() && i != j ==> s[i] != s[j]
}

/// Every element is below `bound`.
pub open spec fn all_below(s: Seq<usize>, bound: nat) -> bool {
    forall|i: int| 0 <= i < s.len() ==> (#[trigger] s[i]) < bound
}

/// `s` with every occurrence of `x` dropped.
pub open spec fn without(s: Seq<usize>, x: usize) -> Seq<usize>
    decreases s.len(),
{
    if s.len() == 0 {
        Seq::empty()
    } else {
        let w = without(s.drop_last(), x);
        if s.last() == x {
            w
        } else {
            w.push(s.last())
        }
    }
}

/// Whether `x` occurs in `v`.
pub fn contains_usize(v: &Vec<usize>, x: usize) -> (r: bool)
    ensures
        r == v@.contains(x),
{
    let mut i: usize = 0;
    while i < v.len()
        invariant
            i <= v.len(),
            forall|k: int| 0 <= k < i ==> v@[k] != x,
        decreases v.len() - i,
    {
        if v[i] == x {
            return true;
        }
        i += 1;
    }
    false
}

/// A copy of `v` without any occurrence of `x`, order kept.
pub fn remove_usize(v: &Vec<usize>, x: usize) -> (r: Vec<usize>)
    ensures
        r@ == without(v@, x),
        forall|y: usize| r@.contains(y) <==> (v@.contains(y) && y != x),
        no_dup(v@) ==> no_dup(r@),
{
    let mut out: Vec<usize> = Vec::new();
    let mut i: usize = 0;
    while i < v.len()
        invariant
            i <= v.len(),
            out@ == without(v@.subrange(0, i as int), x),
        decreases v.len() - i,
    {
        proof {
            assert(v@.subrange(0, i + 1).drop_last() == v@.subrange(0, i as int));
        }
        if v[i] != x {
            out.push(v[i]);
        }
        i += 1;
    }
    proof {
        assert(v@.subrange(0, v@.len() as int) == v@);
        lemma_without_props(v@, x);
    }
    out
}

/// Membership in a sequence split at its last element.
pub proof fn lemma_contains_last<T>(s: Seq<T>, y: T)
    requires
        s.len() > 0,
    ensures
        s.contains(y) <==> (s.drop_last().contains(y) || s.last() == y),
{
    let s0 = s.drop_last();
    if s.contains(y) {
        let k = choose|k: int| 0 <= k < s.len() && s[k] == y;
        if k < s0.len() {
            assert(s0[k] == y);
        }
    }
    if s0.contains(y) {
        let k = choose|k: int| 0 <= k < s0.len() && s0[k] == y;
        assert(s[k] == y);
    }
    if s.last() == y {
        assert(s[s.len() - 1] == y);
    }
}

/// Membership in a pushed sequence.
pub proof fn lemma_contains_push<T>(s: Seq<T>, a: T, y: T)
    ensures
        s.push(a).contains(y) <==> (s.contains(y) || a == y),
{
    lemma_contains_last(s.push(a), y);
    assert(s.push(a).drop_last() == s);
}

/// Membership and distinctness facts about `without`.
pub proof fn lemma_without_props(s: Seq<usize>, x: usize)
    ensures
        forall|y: usize| without(s, x).contains(y) <==> (s.contains(y) && y != x),
        no_dup(s) ==> no_dup(without(s, x)),
        without(s, x).len() <= s.len(),
    decreases s.len(),
{
    if s.len() > 0 {
        let s0 = s.drop_last();
        let w0 = without(s0, x);
        lemma_without_props(s0, x);
        assert(without(s, x) == (if s.last() == x { w0 } else { w0.push(s.last()) }));
        assert forall|y: usize| without(s, x).contains(y) <==> (s.contains(y) && y != x) by {
            lemma_contains_last(s, y);
            assert(w0.contains(y) <==> (s0.contains(y) && y != x));
            if s.last() != x {
                lemma_contains_push(w0, s.last(), y);
            }
        }
        if no_dup(s) {
            assert(no_dup(s0));
            if s.last() != x {
                lemma_contains_last(s, s.last());
                if s0.contains(s.last()) {
                    let k = choose|k: int| 0 <= k < s0.len() && s0[k] == s.last();
                    assert(s[k] == s[s.len() - 1]);
                }
                assert(!w0.contains(s.last()));
                let w = w0.push(s.last());
                assert forall|i: int, j: int| 0 <= i < w.len() && 0 <= j < w.len() && i != j implies w[i] != w[j] by {
                    if i < w0.len() && j < w0.len() {
                    } else if i == w0.len() {
                        assert(w0.contains(w0[j]));
                    } else {
                        assert(w0.contains(w0[i]));
                    }
                }
            }
        }
    }
}

} // verus!
