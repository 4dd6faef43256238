//! Arrangements: the ways to pick `k` of `n` places, one after another and
//! none twice. The search over hidden deals and the list of declarations
//! both walk through them.

use itertools::Itertools;
use vstd::prelude::*;

verus! {

/// `a` picks `k` of the places `0 .. n`, none twice.
pub open spec fn is_arrangement(a: Seq<usize>, n: nat, k: nat) -> bool {
    &&& a.len() == k
    &&& forall|i: int| 0 <= i < a.len() ==> (#[trigger] a[i]) < n
    &&& forall|i: int, j: int| 0 <= i < j < a.len() ==> a[i] != a[j]
}

/// `l` lists every arrangement of `k` out of `n` places, each once, and
/// nothing else.
pub open spec fn lists_arrangements(l: Seq<Seq<usize>>, n: nat, k: nat) -> bool {
    &&& forall|i: int| 0 <= i < l.len() ==> is_arrangement(#[trigger] l[i], n, k)
    &&& forall|a: Seq<usize>| is_arrangement(a, n, k) ==> l.contains(a)
    &&& l.no_duplicates()
}

/// The arrangements of `k` out of `n` places, in the order in which
/// `itertools` walks through them.
pub uninterp spec fn arrangements(n: nat, k: nat) -> Seq<Seq<usize>>;

/// Calls `Itertools::permutations` on the range `0 .. n` and gathers what it
/// yields. Trusted: that the outcome depends on `n` and `k` alone, and that
/// it lists every way to pick `k` of the `n` places in some order, each way
/// exactly once and each as a vector of length `k`.
#[verifier::external_body]
pub(crate) fn index_permutations(n: usize, k: usize) -> (r: Vec<Vec<usize>>)
    ensures
        r.deep_view() == arrangements(n as nat, k as nat),
        lists_arrangements(r.deep_view(), n as nat, k as nat),
{
    (0..n).permutations(k).collect()
}

/// Of no places at all there is at most one arrangement.
pub proof fn lemma_one_arrangement_of_nothing(l: Seq<Seq<usize>>, k: nat)
    requires
        lists_arrangements(l, 0, k),
    ensures
        l.len() <= 1,
{
    if l.len() >= 2 {
        assert(is_arrangement(l[0], 0, k));
        assert(is_arrangement(l[1], 0, k));
        if k > 0 {
            assert(l[0][0] < 0);
        }
        assert(l[0] =~= l[1]);
    }
}

} // verus!
