//! Sequence helpers shared by the graph and grid modules.

use vstd::prelude::*;

verus! {

/// `s` with every element equal to `x` dropped, order kept.
pub open spec fn without<T>(s: Seq<T>, x: T) -> Seq<T>
    decreases s.len(),
{
    if s.len() == 0 {
        s
    } else if s.last() == x {
        without(s.drop_last(), x)
    } else {
        without(s.drop_last(), x).push(s.last())
    }
}

pub proof fn lemma_without_contains<T>(s: Seq<T>, x: T, y: T)
    ensures
        without(s, x).contains(y) <==> (s.contains(y) && y != x),
    decreases s.len(),
{
    if s.len() > 0 {
        lemma_without_contains(s.drop_last(), x, y);
        let p = s.drop_last();
        if p.contains(y) {
            let i = choose|i: int| 0 <= i < p.len() && p[i] == y;
            assert(s[i] == y);
        }
        if s.contains(y) && y != s.last() {
            let i = choose|i: int| 0 <= i < s.len() && s[i] == y;
            assert(i < s.len() - 1);
            assert(p[i] == y);
        }
        if without(s, x).contains(y) && s.last() != x && y == s.last() {
            assert(s[s.len() - 1] == y);
        }
        if without(p, x).contains(y) && s.last() != x {
            let w = without(p, x);
            let i = choose|i: int| 0 <= i < w.len() && w[i] == y;
            assert(w.push(s.last())[i] == y);
        }
        if s.last() != x && s.last() == y {
            let w = without(p, x);
            assert(w.push(s.last())[w.len() as int] == y);
        }
    }
}

/// Dropping an element that does not occur changes nothing.
pub proof fn lemma_without_absent<T>(s: Seq<T>, x: T)
    requires
        !s.contains(x),
    ensures
        without(s, x) == s,
    decreases s.len(),
{
    if s.len() > 0 {
        assert(!s.drop_last().contains(x)) by {
            if s.drop_last().contains(x) {
                let i = choose|i: int| 0 <= i < s.drop_last().len() && s.drop_last()[i] == x;
                assert(s[i] == x);
            }
        }
        lemma_without_absent(s.drop_last(), x);
        assert(s.last() != x) by {
            assert(s[s.len() - 1] == s.last());
        }
        assert(s.drop_last().push(s.last()) =~= s);
    }
}

} // verus!