//! Sets of cards, kept as vectors in increasing order of card number.

use crate::defs::Card;
use vstd::prelude::*;

verus! {

/// Every card of `s` comes before the next in the order of card numbers.
pub open spec fn increasing(s: Seq<Card>) -> bool {
    forall|i: int, j: int| 0 <= i < j < s.len() ==> s[i].0 < s[j].0
}

/// Every card of `s` has a number below `cards_num`.
pub open spec fn in_deck(s: Seq<Card>, cards_num: nat) -> bool {
    forall|i: int| 0 <= i < s.len() ==> (#[trigger] s[i]).0 < cards_num
}

/// `s` with `c` put in: behind the last card that does not come after it,
/// or nowhere if that card is `c` itself.
pub open spec fn insert_sorted(s: Seq<Card>, c: Card) -> Seq<Card>
    decreases s.len(),
{
    if s.len() == 0 {
        seq![c]
    } else if s.last().0 < c.0 {
        s.push(c)
    } else if s.last().0 == c.0 {
        s
    } else {
        insert_sorted(s.drop_last(), c).push(s.last())
    }
}

/// The cards of `s` put one by one into an empty set.
pub open spec fn sorted_of(s: Seq<Card>) -> Seq<Card>
    decreases s.len(),
{
    if s.len() == 0 {
        Seq::empty()
    } else {
        insert_sorted(sorted_of(s.drop_last()), s.last())
    }
}

/// Where `insert_sorted` puts a card, given the place `k` at which the cards
/// after it begin.
pub proof fn lemma_insert_sorted_at(s: Seq<Card>, c: Card, k: int)
    requires
        0 <= k <= s.len(),
        forall|i: int| k <= i < s.len() ==> s[i].0 > c.0,
        k > 0 ==> s[k - 1].0 <= c.0,
    ensures
        insert_sorted(s, c) == if k > 0 && s[k - 1].0 == c.0 {
            s
        } else {
            s.insert(k, c)
        },
    decreases s.len() - k,
{
    if s.len() == 0 {
        assert(s.insert(0, c) =~= seq![c]);
    } else if k == s.len() {
        if s.last().0 < c.0 {
            assert(s.insert(k, c) =~= s.push(c));
        }
    } else {
        let t = s.drop_last();
        lemma_insert_sorted_at(t, c, k);
        if k > 0 && s[k - 1].0 == c.0 {
            assert(t.push(s.last()) =~= s);
        } else {
            assert(t.insert(k, c).push(s.last()) =~= s.insert(k, c));
        }
    }
}

/// Putting a card behind an increasing run that ends below it appends it.
pub proof fn lemma_sorted_of_increasing(s: Seq<Card>)
    requires
        increasing(s),
    ensures
        sorted_of(s) == s,
    decreases s.len(),
{
    if s.len() > 0 {
        let t = s.drop_last();
        lemma_sorted_of_increasing(t);
        if t.len() > 0 {
            assert(t.last() == s[s.len() - 2]);
        }
        assert(t.push(s.last()) =~= s);
    }
}

/// Is `c` among `v`?
pub fn has_card(v: &Vec<Card>, c: Card) -> (r: bool)
    ensures
        r == v@.contains(c),
{
    let mut i: usize = 0;
    while i < v.len()
        invariant
            i <= v.len(),
            forall|j: int| 0 <= j < i ==> v@[j] != c,
        decreases v.len() - i,
    {
        if v[i].0 == c.0 {
            return true;
        }
        i += 1;
    }
    false
}

/// Do `a` and `b` hold the same cards, in whatever order and however often?
pub fn same_cards(a: &Vec<Card>, b: &Vec<Card>) -> (r: bool)
    ensures
        r == (a@.to_set() == b@.to_set()),
{
    let mut i: usize = 0;
    while i < a.len()
        invariant
            i <= a.len(),
            forall|j: int| 0 <= j < i ==> b@.contains(a@[j]),
        decreases a.len() - i,
    {
        if !has_card(b, a[i]) {
            proof {
                assert(a@.to_set().contains(a@[i as int]));
                assert(!b@.to_set().contains(a@[i as int]));
            }
            return false;
        }
        i += 1;
    }
    let mut k: usize = 0;
    while k < b.len()
        invariant
            k <= b.len(),
            forall|j: int| 0 <= j < a.len() ==> b@.contains(a@[j]),
            forall|j: int| 0 <= j < k ==> a@.contains(b@[j]),
        decreases b.len() - k,
    {
        if !has_card(a, b[k]) {
            proof {
                assert(b@.to_set().contains(b@[k as int]));
                assert(!a@.to_set().contains(b@[k as int]));
            }
            return false;
        }
        k += 1;
    }
    proof {
        assert(a@.to_set() =~= b@.to_set()) by {
            assert forall|c: Card| a@.to_set().contains(c) <==> b@.to_set().contains(c) by {
                if a@.contains(c) {
                    let j = choose|j: int| 0 <= j < a@.len() && a@[j] == c;
                    assert(b@.contains(a@[j]));
                }
                if b@.contains(c) {
                    let j = choose|j: int| 0 <= j < b@.len() && b@[j] == c;
                    assert(a@.contains(b@[j]));
                }
            }
        }
    }
    true
}

/// A copy of `v`.
pub fn copy_cards(v: &Vec<Card>) -> (r: Vec<Card>)
    ensures
        r@ == v@,
{
    let mut out: Vec<Card> = Vec::new();
    let mut i: usize = 0;
    while i < v.len()
        invariant
            i <= v.len(),
            out@ == v@.take(i as int),
        decreases v.len() - i,
    {
        out.push(v[i]);
        proof {
            assert(out@ =~= v@.take(i as int + 1));
        }
        i += 1;
    }
    proof {
        assert(v@.take(v.len() as int) =~= v@);
    }
    out
}

/// Puts `c` into the set `v`, as `insert_sorted` says.
pub fn insert_card(v: &mut Vec<Card>, c: Card)
    ensures
        final(v)@ == insert_sorted(old(v)@, c),
        final(v)@.len() <= old(v)@.len() + 1,
        forall|i: int| 0 <= i < final(v)@.len() ==> (#[trigger] final(v)@[i]) == c || old(v)@.contains(final(v)@[i]),
{
    let mut k: usize = v.len();
    while k > 0 && v[k - 1].0 > c.0
        invariant
            k <= v.len(),
            *v == *old(v),
            forall|i: int| k <= i < v.len() ==> v@[i].0 > c.0,
        decreases k,
    {
        k -= 1;
    }
    proof {
        lemma_insert_sorted_at(v@, c, k as int);
    }
    if k > 0 && v[k - 1].0 == c.0 {
    } else {
        v.insert(k, c);
        proof {
            let s = old(v)@;
            assert forall|i: int| 0 <= i < v@.len() implies (#[trigger] v@[i]) == c || s.contains(v@[i]) by {
                if i < k {
                    assert(v@[i] == s[i]);
                } else if i > k {
                    assert(v@[i] == s[i - 1]);
                }
            }
        }
    }
}

/// Do `a` and `b` list the same cards in the same order?
pub fn equal_cards(a: &Vec<Card>, b: &Vec<Card>) -> (r: bool)
    ensures
        r == (a@ == b@),
{
    if a.len() != b.len() {
        return false;
    }
    let mut i: usize = 0;
    while i < a.len()
        invariant
            i <= a.len(),
            a.len() == b.len(),
            forall|j: int| 0 <= j < i ==> a@[j] == b@[j],
        decreases a.len() - i,
    {
        if a[i].0 != b[i].0 {
            return false;
        }
        i += 1;
    }
    proof {
        assert(a@ =~= b@);
    }
    true
}

/// Is `v` in increasing order?
pub fn is_increasing(v: &Vec<Card>) -> (r: bool)
    ensures
        r == increasing(v@),
{
    let mut i: usize = 1;
    while i < v.len()
        invariant
            1 <= i,
            forall|a: int, b: int| 0 <= a < b < i && b < v.len() ==> v@[a].0 < v@[b].0,
        decreases v.len() - i,
    {
        if v[i - 1].0 >= v[i].0 {
            return false;
        }
        proof {
            assert forall|a: int, b: int| 0 <= a < b < i + 1 && b < v.len() implies v@[a].0
                < v@[b].0 by {
                if b == i && a < i - 1 {
                    assert(v@[a].0 < v@[i - 1].0);
                }
            }
        }
        i += 1;
    }
    true
}

/// Putting a card into an increasing run leaves it increasing, adds the
/// card and nothing else.
pub proof fn lemma_insert_sorted_set(s: Seq<Card>, c: Card)
    requires
        increasing(s),
    ensures
        increasing(insert_sorted(s, c)),
        forall|x: Card| #[trigger] insert_sorted(s, c).contains(x) ==> (x == c || s.contains(x)),
        forall|x: Card| #[trigger] s.contains(x) ==> insert_sorted(s, c).contains(x),
        insert_sorted(s, c).contains(c),
        insert_sorted(s, c).len() == if s.contains(c) {
            s.len()
        } else {
            s.len() + 1
        },
    decreases s.len(),
{
    let r = insert_sorted(s, c);
    if s.len() == 0 {
        assert(r[0] == c);
    } else if s.last().0 < c.0 {
        assert(r[s.len() as int] == c);
        assert forall|x: Card| #[trigger] r.contains(x) implies (x == c || s.contains(x)) by {
            let i = choose|i: int| 0 <= i < r.len() && r[i] == x;
            if i < s.len() {
                assert(s[i] == x);
            }
        }
        assert forall|x: Card| #[trigger] s.contains(x) implies r.contains(x) by {
            let i = choose|i: int| 0 <= i < s.len() && s[i] == x;
            assert(r[i] == x);
        }
        if s.contains(c) {
            let i = choose|i: int| 0 <= i < s.len() && s[i] == c;
            assert(s[i].0 <= s[s.len() - 1].0);
        }
    } else if s.last().0 == c.0 {
        assert(s[s.len() - 1] == c);
    } else {
        let t = s.drop_last();
        let ins = insert_sorted(t, c);
        lemma_insert_sorted_set(t, c);
        assert forall|i: int| 0 <= i < ins.len() implies ins[i].0 < s.last().0 by {
            assert(ins.contains(ins[i]));
            if ins[i] != c {
                let k = choose|k: int| 0 <= k < t.len() && t[k] == ins[i];
                assert(s[k].0 < s[s.len() - 1].0);
            }
        }
        assert forall|x: Card| #[trigger] r.contains(x) implies (x == c || s.contains(x)) by {
            let i = choose|i: int| 0 <= i < r.len() && r[i] == x;
            if i < ins.len() {
                assert(ins[i] == x);
                assert(ins.contains(x));
                if x != c {
                    let k = choose|k: int| 0 <= k < t.len() && t[k] == x;
                    assert(s[k] == x);
                }
            } else {
                assert(s[s.len() - 1] == x);
            }
        }
        assert(r.contains(c)) by {
            assert(ins.contains(c));
            let i = choose|i: int| 0 <= i < ins.len() && ins[i] == c;
            assert(r[i] == c);
        }
        assert forall|x: Card| #[trigger] s.contains(x) implies r.contains(x) by {
            {
                let k = choose|k: int| 0 <= k < s.len() && s[k] == x;
                if k == s.len() - 1 {
                    assert(r[ins.len() as int] == x);
                } else {
                    assert(t[k] == x);
                    assert(t.contains(x));
                    assert(ins.contains(x));
                    let i = choose|i: int| 0 <= i < ins.len() && ins[i] == x;
                    assert(r[i] == x);
                }
            }
        }
        if s.contains(c) {
            let k = choose|k: int| 0 <= k < s.len() && s[k] == c;
            assert(t[k] == c);
        }
        if t.contains(c) {
            let k = choose|k: int| 0 <= k < t.len() && t[k] == c;
            assert(s[k] == c);
        }
    }
}

/// Have `a` and `b` no card in common?
pub open spec fn no_common(a: Seq<Card>, b: Seq<Card>) -> bool {
    forall|i: int, j: int| 0 <= i < a.len() && 0 <= j < b.len() ==> a[i] != b[j]
}

/// Have `a` and `b` no card in common?
pub fn no_common_card(a: &Vec<Card>, b: &Vec<Card>) -> (r: bool)
    ensures
        r == no_common(a@, b@),
{
    let mut i: usize = 0;
    while i < a.len()
        invariant
            i <= a.len(),
            forall|k: int, j: int| 0 <= k < i && 0 <= j < b@.len() ==> a@[k] != b@[j],
        decreases a.len() - i,
    {
        if has_card(b, a[i]) {
            proof {
                let j = choose|j: int| 0 <= j < b@.len() && b@[j] == a@[i as int];
                assert(a@[i as int] == b@[j]);
            }
            return false;
        }
        i += 1;
    }
    true
}

/// Has every card of `v` a number below `cards_num`?
pub fn all_in_deck(v: &Vec<Card>, cards_num: usize) -> (r: bool)
    ensures
        r == in_deck(v@, cards_num as nat),
{
    let mut i: usize = 0;
    while i < v.len()
        invariant
            i <= v.len(),
            forall|k: int| 0 <= k < i ==> (#[trigger] v@[k]).0 < cards_num,
        decreases v.len() - i,
    {
        if v[i].0 >= cards_num {
            return false;
        }
        i += 1;
    }
    true
}

/// Is `x` one of the cards of `perm` from place `lo` up to place `hi`?
pub open spec fn within(perm: Seq<Card>, lo: int, hi: int, x: Card) -> bool {
    exists|t: int| lo <= t < hi && 0 <= t < perm.len() && perm[t] == x
}

/// No card of `perm` is there twice.
pub open spec fn distinct(perm: Seq<Card>) -> bool {
    forall|i: int, j: int| 0 <= i < j < perm.len() ==> perm[i] != perm[j]
}

/// The set of the `len` cards of `perm` from place `start` on.
pub fn take_sorted(perm: &Vec<Card>, start: usize, len: usize) -> (r: Vec<Card>)
    requires
        start + len <= perm@.len(),
        distinct(perm@),
    ensures
        increasing(r@),
        r@.len() == len,
        forall|x: Card| #[trigger] r@.contains(x) ==> within(perm@, start as int, start + len, x),
        forall|x: Card| #[trigger] within(perm@, start as int, start + len, x) ==> r@.contains(x),
{
    let mut out: Vec<Card> = Vec::new();
    let mut j: usize = 0;
    let n = perm.len();
    while j < len
        invariant
            j <= len,
            n == perm@.len(),
            start + len <= n,
            distinct(perm@),
            increasing(out@),
            out@.len() == j,
            forall|x: Card| #[trigger] out@.contains(x) ==> within(perm@, start as int, start + j, x),
            forall|x: Card| #[trigger] within(perm@, start as int, start + j, x) ==> out@.contains(x),
        decreases len - j,
    {
        let c = perm[start + j];
        let ghost before = out@;
        proof {
            lemma_insert_sorted_set(before, c);
            if before.contains(c) {
                assert(within(perm@, start as int, start + j, c));
                let t = choose|t: int|
                    start <= t < start + j && 0 <= t < perm@.len() && perm@[t] == c;
                assert(perm@[t] != perm@[start + j]);
            }
        }
        insert_card(&mut out, c);
        proof {
            assert forall|x: Card| #[trigger]
                within(perm@, start as int, start + j + 1, x) implies out@.contains(x) by {
                let t = choose|t: int|
                    start <= t < start + j + 1 && 0 <= t < perm@.len() && perm@[t] == x;
                if t < start + j {
                    assert(within(perm@, start as int, start + j, x));
                    assert(before.contains(x));
                }
            }
            assert forall|x: Card| #[trigger] out@.contains(x) implies within(
                perm@,
                start as int,
                start + j + 1,
                x,
            ) by {
                if x == c {
                    assert(start <= start + j < start + j + 1 && perm@[start + j] == x);
                } else {
                    assert(before.contains(x));
                    assert(within(perm@, start as int, start + j, x));
                    let t = choose|t: int|
                        start <= t < start + j && 0 <= t < perm@.len() && perm@[t] == x;
                    assert(start <= t < start + j + 1 && perm@[t] == x);
                }
            }
        }
        j += 1;
    }
    out
}

/// The set made of the cards of `s` is in increasing order, holds the
/// cards of `s` and no other, and is as long as `s` if no card is twice
/// in `s`.
pub proof fn lemma_sorted_of_set(s: Seq<Card>)
    ensures
        increasing(sorted_of(s)),
        forall|x: Card| #[trigger] sorted_of(s).contains(x) ==> s.contains(x),
        forall|x: Card| #[trigger] s.contains(x) ==> sorted_of(s).contains(x),
        distinct(s) ==> sorted_of(s).len() == s.len(),
    decreases s.len(),
{
    if s.len() > 0 {
        let t = s.drop_last();
        let c = s.last();
        lemma_sorted_of_set(t);
        lemma_insert_sorted_set(sorted_of(t), c);
        let r = sorted_of(s);
        assert forall|x: Card| #[trigger] r.contains(x) implies s.contains(x) by {
            if x == c {
                assert(s[s.len() - 1] == x);
            } else {
                assert(sorted_of(t).contains(x));
                assert(t.contains(x));
                let i = choose|i: int| 0 <= i < t.len() && t[i] == x;
                assert(s[i] == x);
            }
        }
        assert forall|x: Card| #[trigger] s.contains(x) implies r.contains(x) by {
            let i = choose|i: int| 0 <= i < s.len() && s[i] == x;
            if i < s.len() - 1 {
                assert(t[i] == x);
                assert(t.contains(x));
                assert(sorted_of(t).contains(x));
            }
        }
        if distinct(s) {
            assert(distinct(t)) by {
                assert forall|i: int, j: int| 0 <= i < j < t.len() implies t[i] != t[j] by {
                    assert(s[i] != s[j]);
                }
            }
            if sorted_of(t).contains(c) {
                assert(t.contains(c));
                let i = choose|i: int| 0 <= i < t.len() && t[i] == c;
                assert(s[i] != s[s.len() - 1]);
            }
        }
    }
}

/// The place of `x` in `perm`.
pub open spec fn place(perm: Seq<Card>, x: Card) -> int {
    choose|t: int| 0 <= t < perm.len() && perm[t] == x
}

/// A card that lies between two places of a deck without repeats has its
/// one place there.
pub proof fn lemma_place(perm: Seq<Card>, lo: int, hi: int, x: Card)
    requires
        distinct(perm),
        within(perm, lo, hi, x),
    ensures
        lo <= place(perm, x) < hi,
        0 <= place(perm, x) < perm.len(),
        perm[place(perm, x)] == x,
{
    let t = choose|t: int| lo <= t < hi && 0 <= t < perm.len() && perm[t] == x;
    let u = place(perm, x);
    if t < u {
        assert(perm[t] != perm[u]);
    } else if u < t {
        assert(perm[u] != perm[t]);
    }
}

} // verus!
