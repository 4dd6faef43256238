//! Why a belief never loses the truth: the deal that is really on the table
//! is one of the deals that the player on turn reckons with.

use crate::abstract_game::Player;
use crate::arrange::{is_arrangement, lists_arrangements};
use crate::cards::{
    distinct, in_deck, increasing, lemma_sorted_of_increasing, lemma_sorted_of_set, no_common,
    sorted_of,
};
use crate::defs::{
    answer_spec, apart, deal_valid, holding_valid, legal_move, lemma_deal_valid_by_pairs,
    moves_of_player_spec, seen_by, Card, ConfigView, MoveAnsView, MoveView, PlCardView, Seen,
};
use crate::filters::{lemma_filter_members, lemma_filter_step};
use crate::utils::{
    candidate, consistent, deck, head_like, hidden_cards, lemma_slot_start_grows, picked, running,
    sight_valid, slot_len, slot_start, states_from,
};
use vstd::prelude::*;

verus! {

/// The cards of player `p` that `actor` does not see: the head of `actor`
/// itself, the hand of anyone else.
pub open spec fn slot_of(deal: Seq<PlCardView>, actor: Player, p: int) -> Seq<Card> {
    if p == actor.0 {
        deal[p].head
    } else {
        deal[p].hand
    }
}

/// The cards that `actor` does not see, of the players before `p`, one
/// player after another.
pub open spec fn laid(deal: Seq<PlCardView>, actor: Player, p: nat) -> Seq<Card>
    decreases p,
{
    if p == 0 {
        Seq::empty()
    } else {
        laid(deal, actor, (p - 1) as nat) + slot_of(deal, actor, p - 1)
    }
}

/// Place `t` of `laid` is place `j` of player `q`.
pub open spec fn at_slot(cfg: ConfigView, actor: Player, t: int, q: int, j: int) -> bool {
    &&& 0 <= q
    &&& 0 <= j < slot_len(cfg, actor, q as nat)
    &&& t == slot_start(cfg, actor, q as nat) + j
}

/// Place `t` of `laid` belongs to a player before `p`.
pub open spec fn placed(cfg: ConfigView, actor: Player, p: int, t: int) -> bool {
    exists|q: int, j: int| q < p && #[trigger] at_slot(cfg, actor, t, q, j)
}

/// `laid` holds the cards of each player where `slot_start` says, and
/// nothing else.
pub proof fn lemma_laid(cfg: ConfigView, deal: Seq<PlCardView>, actor: Player, p: nat)
    requires
        deal_valid(cfg, deal),
        p <= cfg.player_num,
    ensures
        laid(deal, actor, p).len() == slot_start(cfg, actor, p),
        forall|q: int, j: int|
            0 <= q < p && 0 <= j < slot_len(cfg, actor, q as nat) ==> laid(
                deal,
                actor,
                p,
            )[slot_start(cfg, actor, q as nat) + j] == #[trigger] slot_of(deal, actor, q)[j],
        forall|t: int|
            0 <= t < laid(deal, actor, p).len() ==> #[trigger] placed(cfg, actor, p as int, t),
    decreases p,
{
    if p > 0 {
        let before = laid(deal, actor, (p - 1) as nat);
        let mine = slot_of(deal, actor, p - 1);
        lemma_laid(cfg, deal, actor, (p - 1) as nat);
        assert(deal[p - 1].hand.len() == cfg.hand_num);
        assert(mine.len() == slot_len(cfg, actor, (p - 1) as nat));
        assert forall|q: int, j: int|
            0 <= q < p && 0 <= j < slot_len(cfg, actor, q as nat) implies laid(
            deal,
            actor,
            p,
        )[slot_start(cfg, actor, q as nat) + j] == #[trigger] slot_of(deal, actor, q)[j] by {
            if q < p - 1 {
                crate::utils::lemma_slot_start_grows(cfg, actor, (q + 1) as nat, (p - 1) as nat);
                assert(slot_start(cfg, actor, (q + 1) as nat) == slot_start(cfg, actor, q as nat)
                    + slot_len(cfg, actor, q as nat));
                assert(before[slot_start(cfg, actor, q as nat) + j] == slot_of(deal, actor, q)[j]);
            }
        }
        assert forall|t: int| 0 <= t < laid(deal, actor, p).len() implies #[trigger] placed(
            cfg,
            actor,
            p as int,
            t,
        ) by {
            if t < before.len() {
                assert(placed(cfg, actor, p - 1, t));
                let (q, j) = choose|q: int, j: int|
                    q < p - 1 && #[trigger] at_slot(cfg, actor, t, q, j);
                assert(q < p && at_slot(cfg, actor, t, q, j));
            } else {
                assert(at_slot(cfg, actor, t, p - 1, t - before.len()));
            }
        }
    }
}

/// The card of a legal deal at a place that `actor` does not see is out of
/// the sight of `actor`.
pub proof fn lemma_slot_card_hidden(
    cfg: ConfigView,
    deal: Seq<PlCardView>,
    actor: Player,
    q: int,
    j: int,
)
    requires
        deal_valid(cfg, deal),
        actor.0 < cfg.player_num,
        0 <= q < cfg.player_num,
        0 <= j < slot_len(cfg, actor, q as nat),
    ensures
        hidden_cards(cfg, seen_by(deal, actor)).contains(slot_of(deal, actor, q)[j]),
{
    let seen = seen_by(deal, actor);
    let c = slot_of(deal, actor, q)[j];
    assert(deal[q].hand.len() == cfg.hand_num);
    assert(c.0 < cfg.cards_num()) by {
        if q == actor.0 {
            assert(deal[q].head[j] == c);
        } else {
            assert(deal[q].hand[j] == c);
        }
    }
    assert(deck(cfg)[c.0 as int] == c);
    assert(!seen.contains(c)) by {
        if seen.hand.contains(c) {
            let i = choose|i: int| 0 <= i < seen.hand.len() && seen.hand[i] == c;
            if q == actor.0 {
                assert(deal[actor.0 as int].hand[i] != deal[q].head[j]);
            } else {
                assert(deal[actor.0 as int].hand[i] != deal[q].hand[j]);
            }
        }
        if exists|p: int|
            0 <= p < seen.other.len() && (#[trigger] seen.other[p]).is_some()
                && seen.other[p].unwrap().contains(c) {
            let p = choose|p: int|
                0 <= p < seen.other.len() && (#[trigger] seen.other[p]).is_some()
                    && seen.other[p].unwrap().contains(c);
            let head = seen.other[p].unwrap();
            let i = choose|i: int| 0 <= i < head.len() && head[i] == c;
            assert(head == deal[p].head);
            if q == actor.0 {
                assert(deal[p].head[i] != deal[q].head[j]);
            } else {
                assert(deal[q].hand[j] != deal[p].head[i]);
            }
        }
    }
    lemma_filter_members(deck(cfg), |c: Card| !seen.contains(c));
}

/// Where `c` lies among `hidden`.
pub open spec fn place_of(hidden: Seq<Card>, c: Card) -> int {
    choose|i: int| 0 <= i < hidden.len() && hidden[i] == c
}

/// The arrangement of the hidden cards that lays them as `deal` has them.
pub open spec fn arrangement_of(
    cfg: ConfigView,
    deal: Seq<PlCardView>,
    actor: Player,
) -> Seq<usize> {
    let hidden = hidden_cards(cfg, seen_by(deal, actor));
    laid(deal, actor, cfg.player_num).map_values(|c: Card| place_of(hidden, c) as usize)
}

/// A legal deal is the candidate of its own arrangement, and that is an
/// arrangement of the cards hidden from `actor`.
pub proof fn lemma_deal_is_candidate(cfg: ConfigView, deal: Seq<PlCardView>, actor: Player)
    requires
        cfg.cards_num() <= usize::MAX,
        deal_valid(cfg, deal),
        actor.0 < cfg.player_num,
    ensures
        is_arrangement(
            arrangement_of(cfg, deal, actor),
            hidden_cards(cfg, seen_by(deal, actor)).len(),
            slot_start(cfg, actor, cfg.player_num),
        ),
        candidate(
            cfg,
            seen_by(deal, actor),
            actor,
            hidden_cards(cfg, seen_by(deal, actor)),
            arrangement_of(cfg, deal, actor),
        ) == deal,
{
    let n = cfg.player_num;
    let seen = seen_by(deal, actor);
    let hidden = hidden_cards(cfg, seen);
    let all = laid(deal, actor, n);
    let a = arrangement_of(cfg, deal, actor);
    lemma_laid(cfg, deal, actor, n);
    deck(cfg).lemma_filter_len(|c: Card| !seen.contains(c));
    assert forall|t: int| 0 <= t < all.len() implies hidden.contains(#[trigger] all[t]) by {
        assert(placed(cfg, actor, n as int, t));
        let (q, j) = choose|q: int, j: int| q < n && #[trigger] at_slot(cfg, actor, t, q, j);
        assert(all[slot_start(cfg, actor, q as nat) + j] == slot_of(deal, actor, q)[j]);
        lemma_slot_card_hidden(cfg, deal, actor, q, j);
    }
    assert forall|t: int| 0 <= t < a.len() implies 0 <= place_of(hidden, all[t]) < hidden.len()
        && hidden[place_of(hidden, all[t])] == all[t] && (#[trigger] a[t]) == place_of(
        hidden,
        all[t],
    ) by {
        assert(hidden.contains(all[t]));
    }
    assert forall|t: int, u: int| 0 <= t < u < a.len() implies a[t] != a[u] by {
        assert(placed(cfg, actor, n as int, t));
        assert(placed(cfg, actor, n as int, u));
        let (q, j) = choose|q: int, j: int| q < n && #[trigger] at_slot(cfg, actor, t, q, j);
        let (r, k) = choose|r: int, k: int| r < n && #[trigger] at_slot(cfg, actor, u, r, k);
        assert(all[slot_start(cfg, actor, q as nat) + j] == slot_of(deal, actor, q)[j]);
        assert(all[slot_start(cfg, actor, r as nat) + k] == slot_of(deal, actor, r)[k]);
        assert(deal[q].hand.len() == cfg.hand_num);
        assert(deal[r].hand.len() == cfg.hand_num);
        assert(q != r || j != k);
        if q == actor.0 {
            if r == actor.0 {
                assert(deal[q].head[j] != deal[r].head[k]);
            } else {
                assert(deal[r].hand[k] != deal[q].head[j]);
            }
        } else {
            if r == actor.0 {
                assert(deal[q].hand[j] != deal[r].head[k]);
            } else {
                assert(deal[q].hand[j] != deal[r].hand[k]);
            }
        }
        assert(all[t] != all[u]);
        assert(hidden[a[t] as int] == all[t]);
        assert(hidden[a[u] as int] == all[u]);
    }
    let built = candidate(cfg, seen, actor, hidden, a);
    assert forall|p: int| 0 <= p < n implies built[p] == deal[p] by {
        let start = slot_start(cfg, actor, p as nat) as int;
        let len = slot_len(cfg, actor, p as nat) as int;
        let mine = slot_of(deal, actor, p);
        assert(deal[p].hand.len() == cfg.hand_num);
        crate::utils::lemma_slot_start_grows(cfg, actor, (p + 1) as nat, n);
        assert(slot_start(cfg, actor, (p + 1) as nat) == start + len);
        assert forall|j: int| 0 <= j < len implies picked(hidden, a, start, len)[j] == mine[j] by {
            assert(all[start + j] == slot_of(deal, actor, p)[j]);
            assert(hidden[a[start + j] as int] == all[start + j]);
        }
        assert(picked(hidden, a, start, len) =~= mine);
        assert(increasing(mine));
        lemma_sorted_of_increasing(mine);
        if p != actor.0 {
            assert(seen.other[p] == Some(deal[p].head));
        }
    }
    assert(built =~= deal);
}

/// A legal deal that agrees with the history is among the deals that its
/// own sight and a full list of arrangements give.
pub proof fn lemma_belief_holds_deal(
    cfg: ConfigView,
    history: Seq<MoveAnsView>,
    deal: Seq<PlCardView>,
    arrs: Seq<Seq<usize>>,
)
    requires
        cfg.cards_num() <= usize::MAX,
        cfg.player_num > 0,
        deal_valid(cfg, deal),
        consistent(cfg, deal, history),
        lists_arrangements(
            arrs,
            hidden_cards(cfg, seen_by(deal, cfg.player_turn(history.len()))).len(),
            slot_start(cfg, cfg.player_turn(history.len()), cfg.player_num),
        ),
    ensures
        states_from(cfg, history, seen_by(deal, cfg.player_turn(history.len())), arrs).contains(
            deal,
        ),
{
    let actor = cfg.player_turn(history.len());
    let seen = seen_by(deal, actor);
    let hidden = hidden_cards(cfg, seen);
    let a = arrangement_of(cfg, deal, actor);
    lemma_deal_is_candidate(cfg, deal, actor);
    assert(arrs.contains(a));
    let i = choose|i: int| 0 <= i < arrs.len() && arrs[i] == a;
    let src = arrs.map_values(|a: Seq<usize>| candidate(cfg, seen, actor, hidden, a));
    assert(src[i] == deal);
    assert(src.contains(deal));
    lemma_filter_members(src, |d: Seq<PlCardView>| consistent(cfg, d, history));
}

/// The hidden cards among the first `i` cards of the deck.
pub open spec fn hidden_upto(cfg: ConfigView, seen: Seen, i: nat) -> Seq<Card> {
    deck(cfg).take(i as int).filter(|c: Card| !seen.contains(c))
}

/// The hidden cards among the first `i` cards of the deck come in
/// increasing order.
pub proof fn lemma_hidden_prefix(cfg: ConfigView, seen: Seen, i: nat)
    requires
        i <= cfg.cards_num() <= usize::MAX,
    ensures
        increasing(hidden_upto(cfg, seen, i)),
        forall|k: int|
            0 <= k < hidden_upto(cfg, seen, i).len() ==> (#[trigger] hidden_upto(
                cfg,
                seen,
                i,
            )[k]).0 < i,
    decreases i,
{
    let pred = |c: Card| !seen.contains(c);
    if i == 0 {
        reveal(Seq::filter);
        assert(deck(cfg).take(0).filter(pred) =~= Seq::<Card>::empty());
    } else {
        lemma_hidden_prefix(cfg, seen, (i - 1) as nat);
        lemma_filter_step(deck(cfg), pred, i - 1);
        let before = hidden_upto(cfg, seen, (i - 1) as nat);
        let now = hidden_upto(cfg, seen, i);
        assert forall|k: int| 0 <= k < now.len() implies (#[trigger] now[k]).0 < i by {
            if k < before.len() {
                assert(before[k].0 < i - 1);
            }
        }
        assert forall|j: int, k: int| 0 <= j < k < now.len() implies now[j].0 < now[k].0 by {
            assert(before[j].0 < i - 1);
        }
    }
}

/// The hidden cards are cards of the deck, none of them twice.
pub proof fn lemma_hidden_cards(cfg: ConfigView, seen: Seen)
    requires
        cfg.cards_num() <= usize::MAX,
    ensures
        distinct(hidden_cards(cfg, seen)),
        in_deck(hidden_cards(cfg, seen), cfg.cards_num()),
{
    lemma_hidden_prefix(cfg, seen, cfg.cards_num());
    assert(deck(cfg).take(cfg.cards_num() as int) =~= deck(cfg));
    let h = hidden_upto(cfg, seen, cfg.cards_num());
    assert(h == hidden_cards(cfg, seen));
    assert forall|k: int| 0 <= k < h.len() implies (#[trigger] h[k]).0 < cfg.cards_num() by {}
}

/// In the deal that an arrangement of the hidden cards gives, the head of
/// `actor` is what a head must be.
pub proof fn lemma_candidate_head(
    cfg: ConfigView,
    seen: Seen,
    actor: Player,
    hidden: Seq<Card>,
    a: Seq<usize>,
)
    requires
        actor.0 < cfg.player_num,
        distinct(hidden),
        in_deck(hidden, cfg.cards_num()),
        is_arrangement(a, hidden.len(), slot_start(cfg, actor, cfg.player_num)),
    ensures
        head_like(cfg, candidate(cfg, seen, actor, hidden, a)[actor.0 as int].head),
{
    let start = slot_start(cfg, actor, actor.0 as nat) as int;
    let picks = picked(hidden, a, start, cfg.head_num as int);
    let head = candidate(cfg, seen, actor, hidden, a)[actor.0 as int].head;
    assert(head == sorted_of(picks));
    lemma_slot_start_grows(cfg, actor, (actor.0 + 1) as nat, cfg.player_num);
    assert(slot_start(cfg, actor, (actor.0 + 1) as nat) == start + cfg.head_num);
    assert forall|i: int, j: int| 0 <= i < j < picks.len() implies picks[i] != picks[j] by {
        let x = a[start + i] as int;
        let y = a[start + j] as int;
        assert(x != y);
        if x < y {
            assert(hidden[x] != hidden[y]);
        } else {
            assert(hidden[y] != hidden[x]);
        }
    }
    lemma_sorted_of_set(picks);
    assert forall|k: int| 0 <= k < head.len() implies (#[trigger] head[k]).0 < cfg.cards_num() by {
        assert(head.contains(head[k]));
        assert(picks.contains(head[k]));
        let t = choose|t: int| 0 <= t < picks.len() && picks[t] == head[k];
        assert(hidden[a[start + t] as int].0 < cfg.cards_num());
    }
}

/// A move that `player` has made is the move of an entry at one of the
/// player's turns.
pub proof fn lemma_moves_of_player(
    history: Seq<MoveAnsView>,
    player_num: nat,
    player: Player,
    m: MoveView,
)
    requires
        moves_of_player_spec(history, player_num, player).contains(m),
    ensures
        exists|i: int|
            0 <= i < history.len() && i >= player.0 && (i - player.0) % (player_num as int) == 0
                && (#[trigger] history[i]).move_of_this() == m,
    decreases history.len(),
{
    if history.len() > 0 {
        let rest = moves_of_player_spec(history.drop_last(), player_num, player);
        let all = moves_of_player_spec(history, player_num, player);
        let last = history.len() - 1;
        let k = choose|k: int| 0 <= k < all.len() && all[k] == m;
        if k < rest.len() {
            assert(rest[k] == m);
            assert(rest.contains(m));
            lemma_moves_of_player(history.drop_last(), player_num, player, m);
            let i = choose|i: int|
                0 <= i < history.drop_last().len() && i >= player.0 && (i - player.0) % (
                player_num as int) == 0 && (#[trigger] history.drop_last()[i]).move_of_this() == m;
            assert(history[i].move_of_this() == m);
        } else {
            assert(history[last].move_of_this() == m);
        }
    }
}

/// While a game runs, the head that a deal agreeing with the history gives
/// the player on turn is a declaration that this player has not made.
pub proof fn lemma_head_not_declared(
    cfg: ConfigView,
    history: Seq<MoveAnsView>,
    deal: Seq<PlCardView>,
)
    requires
        cfg.player_num > 0,
        cfg.player_num <= usize::MAX,
        consistent(cfg, deal, history),
        running(cfg, history),
    ensures
        !moves_of_player_spec(
            history,
            cfg.player_num,
            cfg.player_turn(history.len()),
        ).contains(
            MoveView::Declare {
                declare: deal[cfg.player_turn(history.len()).0 as int].head,
            },
        ),
{
    let actor = cfg.player_turn(history.len());
    let n = cfg.player_num as int;
    let m = MoveView::Declare { declare: deal[actor.0 as int].head };
    if moves_of_player_spec(history, cfg.player_num, actor).contains(m) {
        lemma_moves_of_player(history, cfg.player_num, actor, m);
        let i = choose|i: int|
            0 <= i < history.len() && i >= actor.0 && (i - actor.0) % n == 0 && (
            #[trigger] history[i]).move_of_this() == m;
        let q = (i - actor.0) / n;
        vstd::arithmetic::div_mod::lemma_fundamental_div_mod(i - actor.0, n);
        assert(i == n * q + actor.0);
        vstd::arithmetic::div_mod::lemma_mod_bound(history.len() as int, n);
        assert(q * n == n * q) by (nonlinear_arith);
        vstd::arithmetic::div_mod::lemma_fundamental_div_mod_converse(i, n, q, actor.0 as int);
        assert(history[i].actor() == cfg.player_turn(i as nat));
        assert(history[i].actor() == actor);
        assert(history[i] == answer_spec(cfg, deal, m, actor));
        assert(history[i].is_right_declare());
    }
}

/// While a game runs, the head that a deal of the belief gives the player
/// on turn is a legal declaration.
pub proof fn lemma_sure_head_is_legal(
    cfg: ConfigView,
    history: Seq<MoveAnsView>,
    deal: Seq<PlCardView>,
)
    requires
        cfg.player_num > 0,
        cfg.player_num <= usize::MAX,
        consistent(cfg, deal, history),
        running(cfg, history),
        head_like(cfg, deal[cfg.player_turn(history.len()).0 as int].head),
    ensures
        legal_move(
            cfg,
            history,
            MoveView::Declare { declare: deal[cfg.player_turn(history.len()).0 as int].head },
        ),
{
    lemma_head_not_declared(cfg, history, deal);
}

/// Is `x` one of the hidden cards that `a` puts in the places from `lo` up
/// to `hi`?
pub open spec fn taken(hidden: Seq<Card>, a: Seq<usize>, lo: int, hi: int, x: Card) -> bool {
    exists|t: int| lo <= t < hi && 0 <= t < a.len() && hidden[a[t] as int] == x
}

/// The hidden cards that the arrangement `a` gives player `p`, as a set.
pub open spec fn got(cfg: ConfigView, actor: Player, hidden: Seq<Card>, a: Seq<usize>, p: int) -> Seq<
    Card,
> {
    sorted_of(
        picked(
            hidden,
            a,
            slot_start(cfg, actor, p as nat) as int,
            slot_len(cfg, actor, p as nat) as int,
        ),
    )
}

/// What an arrangement of the hidden cards gives a player is a set of the
/// right size, of hidden cards, taken from the player's own places.
pub proof fn lemma_got(
    cfg: ConfigView,
    seen: Seen,
    actor: Player,
    a: Seq<usize>,
    p: int,
)
    requires
        cfg.cards_num() <= usize::MAX,
        0 <= p < cfg.player_num,
        is_arrangement(
            a,
            hidden_cards(cfg, seen).len(),
            slot_start(cfg, actor, cfg.player_num),
        ),
    ensures
        increasing(got(cfg, actor, hidden_cards(cfg, seen), a, p)),
        got(cfg, actor, hidden_cards(cfg, seen), a, p).len() == slot_len(cfg, actor, p as nat),
        in_deck(got(cfg, actor, hidden_cards(cfg, seen), a, p), cfg.cards_num()),
        forall|x: Card| #[trigger]
            got(cfg, actor, hidden_cards(cfg, seen), a, p).contains(x) ==> !seen.contains(x)
                && taken(
                hidden_cards(cfg, seen),
                a,
                slot_start(cfg, actor, p as nat) as int,
                slot_start(cfg, actor, (p + 1) as nat) as int,
                x,
            ),
{
    let hidden = hidden_cards(cfg, seen);
    let start = slot_start(cfg, actor, p as nat) as int;
    let len = slot_len(cfg, actor, p as nat) as int;
    let picks = picked(hidden, a, start, len);
    let g = got(cfg, actor, hidden, a, p);
    lemma_hidden_cards(cfg, seen);
    lemma_filter_members(deck(cfg), |c: Card| !seen.contains(c));
    lemma_slot_start_grows(cfg, actor, (p + 1) as nat, cfg.player_num);
    assert(slot_start(cfg, actor, (p + 1) as nat) == start + len);
    assert forall|i: int, j: int| 0 <= i < j < picks.len() implies picks[i] != picks[j] by {
        let x = a[start + i] as int;
        let y = a[start + j] as int;
        assert(x != y);
        if x < y {
            assert(hidden[x] != hidden[y]);
        } else {
            assert(hidden[y] != hidden[x]);
        }
    }
    lemma_sorted_of_set(picks);
    assert forall|x: Card| #[trigger] g.contains(x) implies !seen.contains(x) && taken(
        hidden,
        a,
        start,
        start + len,
        x,
    ) by {
        assert(picks.contains(x));
        let t = choose|t: int| 0 <= t < picks.len() && picks[t] == x;
        assert(hidden[a[start + t] as int] == x);
        assert(hidden.contains(x));
    }
    assert forall|k: int| 0 <= k < g.len() implies (#[trigger] g[k]).0 < cfg.cards_num() by {
        assert(g.contains(g[k]));
        assert(picks.contains(g[k]));
        let t = choose|t: int| 0 <= t < picks.len() && picks[t] == g[k];
        assert(hidden[a[start + t] as int].0 < cfg.cards_num());
    }
}

/// What an arrangement gives two players has no card in common.
pub proof fn lemma_got_apart(
    cfg: ConfigView,
    seen: Seen,
    actor: Player,
    a: Seq<usize>,
    p: int,
    q: int,
)
    requires
        cfg.cards_num() <= usize::MAX,
        0 <= p < q < cfg.player_num,
        is_arrangement(
            a,
            hidden_cards(cfg, seen).len(),
            slot_start(cfg, actor, cfg.player_num),
        ),
    ensures
        no_common(
            got(cfg, actor, hidden_cards(cfg, seen), a, p),
            got(cfg, actor, hidden_cards(cfg, seen), a, q),
        ),
{
    let hidden = hidden_cards(cfg, seen);
    let g = got(cfg, actor, hidden, a, p);
    let h = got(cfg, actor, hidden, a, q);
    lemma_got(cfg, seen, actor, a, p);
    lemma_got(cfg, seen, actor, a, q);
    lemma_hidden_cards(cfg, seen);
    lemma_slot_start_grows(cfg, actor, (p + 1) as nat, q as nat);
    lemma_slot_start_grows(cfg, actor, (q + 1) as nat, cfg.player_num);
    assert forall|i: int, j: int| 0 <= i < g.len() && 0 <= j < h.len() implies g[i] != h[j] by {
        assert(g.contains(g[i]));
        assert(h.contains(h[j]));
        let t = choose|t: int|
            slot_start(cfg, actor, p as nat) <= t < slot_start(cfg, actor, (p + 1) as nat) && 0
                <= t < a.len() && hidden[a[t] as int] == g[i];
        let u = choose|u: int|
            slot_start(cfg, actor, q as nat) <= u < slot_start(cfg, actor, (q + 1) as nat) && 0
                <= u < a.len() && hidden[a[u] as int] == h[j];
        assert(t < u);
        assert(a[t] != a[u]);
        let x = a[t] as int;
        let y = a[u] as int;
        if x < y {
            assert(hidden[x] != hidden[y]);
        } else {
            assert(hidden[y] != hidden[x]);
        }
    }
}

/// A card in sight is none of the cards that an arrangement gives out.
pub proof fn lemma_seen_apart_from_got(
    cfg: ConfigView,
    seen: Seen,
    actor: Player,
    a: Seq<usize>,
    p: int,
    cards: Seq<Card>,
)
    requires
        cfg.cards_num() <= usize::MAX,
        0 <= p < cfg.player_num,
        is_arrangement(
            a,
            hidden_cards(cfg, seen).len(),
            slot_start(cfg, actor, cfg.player_num),
        ),
        forall|i: int| 0 <= i < cards.len() ==> seen.contains(#[trigger] cards[i]),
    ensures
        no_common(cards, got(cfg, actor, hidden_cards(cfg, seen), a, p)),
        no_common(got(cfg, actor, hidden_cards(cfg, seen), a, p), cards),
{
    let g = got(cfg, actor, hidden_cards(cfg, seen), a, p);
    lemma_got(cfg, seen, actor, a, p);
    assert forall|i: int, j: int| 0 <= i < cards.len() && 0 <= j < g.len() implies cards[i]
        != g[j] by {
        assert(g.contains(g[j]));
        assert(seen.contains(cards[i]));
    }
    assert forall|j: int, i: int| 0 <= j < g.len() && 0 <= i < cards.len() implies g[j]
        != cards[i] by {
        assert(g.contains(g[j]));
        assert(seen.contains(cards[i]));
    }
}

/// The deal that an arrangement of the hidden cards gives is a legal deal,
/// and the player for whom it was made sees of it what they see.
pub proof fn lemma_candidate_is_deal(cfg: ConfigView, seen: Seen, actor: Player, a: Seq<usize>)
    requires
        cfg.cards_num() <= usize::MAX,
        actor.0 < cfg.player_num,
        sight_valid(cfg, seen, actor),
        is_arrangement(
            a,
            hidden_cards(cfg, seen).len(),
            slot_start(cfg, actor, cfg.player_num),
        ),
    ensures
        deal_valid(cfg, candidate(cfg, seen, actor, hidden_cards(cfg, seen), a)),
        seen_by(candidate(cfg, seen, actor, hidden_cards(cfg, seen), a), actor) == seen,
{
    let hidden = hidden_cards(cfg, seen);
    let deal = candidate(cfg, seen, actor, hidden, a);
    let me = actor.0 as int;
    assert forall|i: int| 0 <= i < seen.hand.len() implies seen.contains(
        #[trigger] seen.hand[i],
    ) by {
        assert(seen.hand.contains(seen.hand[i]));
    }
    assert forall|p: int, i: int|
        0 <= p < cfg.player_num && p != me && 0 <= i < seen.other[p].unwrap().len()
        implies seen.contains(#[trigger] seen.other[p].unwrap()[i]) by {
        assert(seen.other[p].is_some());
        assert(seen.other[p].unwrap().contains(seen.other[p].unwrap()[i]));
    }
    assert forall|p: int| 0 <= p < deal.len() implies holding_valid(cfg, #[trigger] deal[p]) by {
        lemma_got(cfg, seen, actor, a, p);
        let g = got(cfg, actor, hidden, a, p);
        if p == me {
            assert(deal[p].head == g);
            lemma_seen_apart_from_got(cfg, seen, actor, a, p, seen.hand);
        } else {
            assert(deal[p].hand == g);
            assert(seen.other[p].is_some());
            lemma_seen_apart_from_got(cfg, seen, actor, a, p, seen.other[p].unwrap());
        }
    }
    assert forall|p: int, q: int| 0 <= p < q < deal.len() implies apart(
        #[trigger] deal[p],
        #[trigger] deal[q],
    ) by {
        let g = got(cfg, actor, hidden, a, p);
        let h = got(cfg, actor, hidden, a, q);
        lemma_got_apart(cfg, seen, actor, a, p, q);
        if p == me {
            assert(deal[p].head == g && deal[q].hand == h);
            assert(seen.other[q].is_some());
            lemma_seen_apart_from_got(cfg, seen, actor, a, q, seen.hand);
            lemma_seen_apart_from_got(cfg, seen, actor, a, p, seen.other[q].unwrap());
        } else if q == me {
            assert(deal[p].hand == g && deal[q].head == h);
            assert(seen.other[p].is_some());
            lemma_seen_apart_from_got(cfg, seen, actor, a, p, seen.hand);
            lemma_seen_apart_from_got(cfg, seen, actor, a, q, seen.other[p].unwrap());
            assert(no_common(seen.other[p].unwrap(), seen.hand)) by {
                assert(no_common(seen.hand, seen.other[p].unwrap()));
                assert forall|i: int, j: int|
                    0 <= i < seen.other[p].unwrap().len() && 0 <= j
                        < seen.hand.len() implies seen.other[p].unwrap()[i] != seen.hand[j] by {
                    assert(seen.hand[j] != seen.other[p].unwrap()[i]);
                }
            }
        } else {
            assert(deal[p].hand == g && deal[q].hand == h);
            assert(seen.other[p].is_some() && seen.other[q].is_some());
            lemma_seen_apart_from_got(cfg, seen, actor, a, p, seen.other[q].unwrap());
            lemma_seen_apart_from_got(cfg, seen, actor, a, q, seen.other[p].unwrap());
        }
    }
    lemma_deal_valid_by_pairs(cfg, deal);
    assert(seen_by(deal, actor).other =~= seen.other);
}

/// What a player sees of a legal deal is a sight as the rules want it.
pub proof fn lemma_sight_of_deal(cfg: ConfigView, deal: Seq<PlCardView>, actor: Player)
    requires
        deal_valid(cfg, deal),
        actor.0 < cfg.player_num,
    ensures
        sight_valid(cfg, seen_by(deal, actor), actor),
{
    let seen = seen_by(deal, actor);
    crate::defs::lemma_seen_by_shaped(cfg, deal, actor);
    lemma_deal_valid_by_pairs(cfg, deal);
    let me = actor.0 as int;
    assert(holding_valid(cfg, deal[me]));
    assert forall|p: int| 0 <= p < seen.other.len() && p != me implies {
        &&& (#[trigger] seen.other[p]).unwrap().len() == cfg.head_num
        &&& increasing(seen.other[p].unwrap())
        &&& no_common(seen.hand, seen.other[p].unwrap())
    } by {
        assert(holding_valid(cfg, deal[p]));
        if p < me {
            assert(apart(deal[p], deal[me]));
            assert forall|i: int, j: int|
                0 <= i < seen.hand.len() && 0 <= j < deal[p].head.len() implies seen.hand[i]
                != deal[p].head[j] by {
                assert(deal[p].head[j] != deal[me].hand[i]);
            }
        } else {
            assert(apart(deal[me], deal[p]));
        }
    }
    assert forall|p: int, q: int|
        0 <= p < q < seen.other.len() && p != me && q != me implies no_common(
        (#[trigger] seen.other[p]).unwrap(),
        (#[trigger] seen.other[q]).unwrap(),
    ) by {
        assert(apart(deal[p], deal[q]));
    }
}

/// Made from a full list of arrangements, the belief of a player whose
/// sight is as the rules want it holds the legal deals of which the player
/// would see the same and which agree with the history, and nothing else.
pub proof fn lemma_belief_is_exact(
    cfg: ConfigView,
    history: Seq<MoveAnsView>,
    seen: Seen,
    arrs: Seq<Seq<usize>>,
    deal: Seq<PlCardView>,
)
    requires
        cfg.cards_num() <= usize::MAX,
        cfg.player_num > 0,
        sight_valid(cfg, seen, cfg.player_turn(history.len())),
        lists_arrangements(
            arrs,
            hidden_cards(cfg, seen).len(),
            slot_start(cfg, cfg.player_turn(history.len()), cfg.player_num),
        ),
    ensures
        states_from(cfg, history, seen, arrs).contains(deal) <==> (deal_valid(cfg, deal)
            && seen_by(deal, cfg.player_turn(history.len())) == seen && consistent(
            cfg,
            deal,
            history,
        )),
{
    let actor = cfg.player_turn(history.len());
    let hidden = hidden_cards(cfg, seen);
    let src = arrs.map_values(|a: Seq<usize>| candidate(cfg, seen, actor, hidden, a));
    lemma_filter_members(src, |d: Seq<PlCardView>| consistent(cfg, d, history));
    vstd::arithmetic::div_mod::lemma_mod_bound(history.len() as int, cfg.player_num as int);
    if states_from(cfg, history, seen, arrs).contains(deal) {
        assert(src.contains(deal));
        let i = choose|i: int| 0 <= i < src.len() && src[i] == deal;
        assert(is_arrangement(arrs[i], hidden.len(), slot_start(cfg, actor, cfg.player_num)));
        lemma_candidate_is_deal(cfg, seen, actor, arrs[i]);
    }
    if deal_valid(cfg, deal) && seen_by(deal, actor) == seen && consistent(cfg, deal, history) {
        lemma_belief_holds_deal(cfg, history, deal, arrs);
    }
}

} // verus!
