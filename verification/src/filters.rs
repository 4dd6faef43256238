//! Two facts about filtered sequences that the loops of this library
//! lean on.

use vstd::prelude::*;

verus! {

/// What a filter keeps of one more element.
pub proof fn lemma_filter_step<A>(s: Seq<A>, pred: spec_fn(A) -> bool, i: int)
    requires
        0 <= i < s.len(),
    ensures
        s.take(i + 1).filter(pred) == if pred(s[i]) {
            s.take(i).filter(pred).push(s[i])
        } else {
            s.take(i).filter(pred)
        },
{
    reveal(Seq::filter);
    assert(s.take(i + 1).drop_last() =~= s.take(i));
}

/// A filter keeps exactly the elements that meet its condition.
pub proof fn lemma_filter_members<A>(s: Seq<A>, pred: spec_fn(A) -> bool)
    ensures
        forall|x: A| s.filter(pred).contains(x) <==> s.contains(x) && pred(x),
    decreases s.len(),
{
    reveal(Seq::filter);
    if s.len() > 0 {
        let t = s.drop_last();
        lemma_filter_members(t, pred);
        let f = s.filter(pred);
        let g = t.filter(pred);
        assert(f == if pred(s.last()) {
            g.push(s.last())
        } else {
            g
        });
        assert forall|x: A| f.contains(x) implies s.contains(x) && pred(x) by {
            let i = choose|i: int| 0 <= i < f.len() && f[i] == x;
            if pred(s.last()) && i == g.len() {
                assert(s[s.len() - 1] == x);
            } else {
                assert(g[i] == x);
                assert(g.contains(x));
                assert(t.contains(x));
                let j = choose|j: int| 0 <= j < t.len() && t[j] == x;
                assert(s[j] == x);
            }
        }
        assert forall|x: A| s.contains(x) && pred(x) implies f.contains(x) by {
            let j = choose|j: int| 0 <= j < s.len() && s[j] == x;
            if j == s.len() - 1 {
                assert(f[g.len() as int] == x);
            } else {
                assert(t[j] == x);
                assert(t.contains(x));
                assert(g.contains(x));
                let i = choose|i: int| 0 <= i < g.len() && g[i] == x;
                assert(f[i] == x);
            }
        }
    } else {
        assert(s.filter(pred) =~= s);
    }
}

} // verus!
