//! What a player can know: the deals that agree with what they see and with
//! the public history, and whether those deals leave their head in doubt.

use crate::abstract_game::Player;
use crate::arrange::{
    arrangements, index_permutations, is_arrangement, lemma_one_arrangement_of_nothing,
};
use crate::belief::lemma_belief_holds_deal;
use crate::cards::{
    all_in_deck, copy_cards, equal_cards, has_card, in_deck, insert_card, sorted_of,
};
use crate::chance::random_below;
use crate::defs::{
    all_query, all_query_spec, answer, answer_spec, deal_shaped, deal_valid, history_view,
    keep_allowed, legal_move, move_allowed, moves_of, moves_of_player_spec, moves_view, seen_by,
    sort_labels, Card, ConfigView, Distr, GameConfig, GameView, Info, InfoView, Move, MoveAns,
    MoveAnsView, MoveView, PlCard, PlCardView, Seen, Sort, View,
};
use crate::filters::{lemma_filter_members, lemma_filter_step};
use rand::rngs::SmallRng;
use vstd::prelude::*;
use vstd::view::View as _;

verus! {

/// The deals of a list, as plain values.
pub open spec fn deals_view(v: Seq<Distr>) -> Seq<Seq<PlCardView>> {
    v.map_values(|d: Distr| d@)
}

/// The cards of the deck, in the order of their numbers.
pub open spec fn deck(cfg: ConfigView) -> Seq<Card> {
    Seq::new(cfg.cards_num(), |i: int| Card(i as usize))
}

/// The cards of the deck that are not in sight, in the order of their
/// numbers.
pub open spec fn hidden_cards(cfg: ConfigView, seen: Seen) -> Seq<Card> {
    deck(cfg).filter(|c: Card| !seen.contains(c))
}

/// How many hidden cards lie with player `p`, as `actor` sees it: the cards
/// on the head of `actor`, and the cards in the hand of anyone else.
pub open spec fn slot_len(cfg: ConfigView, actor: Player, p: nat) -> nat {
    if p == actor.0 {
        cfg.head_num
    } else {
        cfg.hand_num
    }
}

/// How many hidden cards lie with the players before `p`.
pub open spec fn slot_start(cfg: ConfigView, actor: Player, p: nat) -> nat
    decreases p,
{
    if p == 0 {
        0
    } else {
        slot_start(cfg, actor, (p - 1) as nat) + slot_len(cfg, actor, (p - 1) as nat)
    }
}

/// The players before `p` hold no more hidden cards than those before `q`.
pub proof fn lemma_slot_start_grows(cfg: ConfigView, actor: Player, p: nat, q: nat)
    requires
        p <= q,
    ensures
        slot_start(cfg, actor, p) <= slot_start(cfg, actor, q),
    decreases q,
{
    if p < q {
        lemma_slot_start_grows(cfg, actor, p, (q - 1) as nat);
    }
}

/// The hidden cards of all players are no more than the deck provides for.
pub proof fn lemma_slot_start_bound(cfg: ConfigView, actor: Player, p: nat)
    ensures
        slot_start(cfg, actor, p) <= (cfg.head_num + cfg.hand_num) * p,
    decreases p,
{
    if p > 0 {
        lemma_slot_start_bound(cfg, actor, (p - 1) as nat);
        assert((cfg.head_num + cfg.hand_num) * p == (cfg.head_num + cfg.hand_num) * (p - 1) + (
        cfg.head_num + cfg.hand_num)) by (nonlinear_arith);
    } else {
        assert((cfg.head_num + cfg.hand_num) * 0 == 0) by (nonlinear_arith);
    }
}

/// The hidden cards that the arrangement `a` puts in the `len` places from
/// `start` on.
pub open spec fn picked(hidden: Seq<Card>, a: Seq<usize>, start: int, len: int) -> Seq<Card> {
    Seq::new(len as nat, |j: int| hidden[a[start + j] as int])
}

/// The deal that `actor` must reckon with if the hidden cards lie as `a`
/// arranges them: what is in sight stays, and the hidden cards go, player
/// by player, on the head of `actor` and into the hands of the others.
pub open spec fn candidate(
    cfg: ConfigView,
    seen: Seen,
    actor: Player,
    hidden: Seq<Card>,
    a: Seq<usize>,
) -> Seq<PlCardView> {
    Seq::new(
        cfg.player_num,
        |p: int|
            {
                let got = sorted_of(
                    picked(
                        hidden,
                        a,
                        slot_start(cfg, actor, p as nat) as int,
                        slot_len(cfg, actor, p as nat) as int,
                    ),
                );
                if p == actor.0 {
                    PlCardView { hand: seen.hand, head: got }
                } else {
                    PlCardView { hand: got, head: seen.other[p].unwrap() }
                }
            },
    )
}

/// Every entry of `history` holds the answer that the rules give on `deal`.
pub open spec fn consistent(
    cfg: ConfigView,
    deal: Seq<PlCardView>,
    history: Seq<MoveAnsView>,
) -> bool {
    forall|i: int|
        0 <= i < history.len() ==> (#[trigger] history[i]) == answer_spec(
            cfg,
            deal,
            history[i].move_of_this(),
            history[i].actor(),
        )
}

/// The history of a game that is not over: every entry was made by the
/// player who was on turn, and no declaration was right.
pub open spec fn running(cfg: ConfigView, history: Seq<MoveAnsView>) -> bool {
    forall|i: int|
        0 <= i < history.len() ==> (#[trigger] history[i]).actor() == cfg.player_turn(i as nat)
            && !history[i].is_right_declare()
}

/// As many cards as lie on a head, in increasing order and out of the deck:
/// what a head is and what a declaration must be.
pub open spec fn head_like(cfg: ConfigView, cards: Seq<Card>) -> bool {
    &&& cards.len() == cfg.head_num
    &&& crate::cards::increasing(cards)
    &&& in_deck(cards, cfg.cards_num())
}

/// Every entry of `history` names seated players only.
pub open spec fn seated(cfg: ConfigView, history: Seq<MoveAnsView>) -> bool {
    forall|i: int| 0 <= i < history.len() ==> (#[trigger] history[i]).seated(cfg)
}

/// `seen` is the sight of `actor`: the head of every other player is in it.
pub open spec fn sight_of(cfg: ConfigView, seen: Seen, actor: Player) -> bool {
    &&& seen.shaped(cfg)
    &&& forall|p: int| 0 <= p < seen.other.len() && p != actor.0 ==> (#[trigger] seen.other[p]).is_some()
}

/// `seen` is what `actor` sees of some legal deal: a hand and the heads of
/// the others, each of the right size and in increasing order, and no card
/// in two places.
pub open spec fn sight_valid(cfg: ConfigView, seen: Seen, actor: Player) -> bool {
    &&& sight_of(cfg, seen, actor)
    &&& actor.0 < seen.other.len()
    &&& seen.other[actor.0 as int].is_none()
    &&& seen.hand.len() == cfg.hand_num
    &&& crate::cards::increasing(seen.hand)
    &&& forall|p: int|
        0 <= p < seen.other.len() && p != actor.0 ==> {
            &&& (#[trigger] seen.other[p]).unwrap().len() == cfg.head_num
            &&& crate::cards::increasing(seen.other[p].unwrap())
            &&& crate::cards::no_common(seen.hand, seen.other[p].unwrap())
        }
    &&& forall|p: int, q: int|
        0 <= p < q < seen.other.len() && p != actor.0 && q != actor.0 ==> crate::cards::no_common(
            (#[trigger] seen.other[p]).unwrap(),
            (#[trigger] seen.other[q]).unwrap(),
        )
}

/// The deals that the arrangements `arrs` of the hidden cards give and that
/// agree with `history`, in the order of `arrs`.
pub open spec fn states_from(
    cfg: ConfigView,
    history: Seq<MoveAnsView>,
    seen: Seen,
    arrs: Seq<Seq<usize>>,
) -> Seq<Seq<PlCardView>> {
    let actor = cfg.player_turn(history.len());
    let hidden = hidden_cards(cfg, seen);
    arrs.map_values(|a: Seq<usize>| candidate(cfg, seen, actor, hidden, a)).filter(
        |d: Seq<PlCardView>| consistent(cfg, d, history),
    )
}

/// The belief of the player on turn: every deal that agrees with what they
/// see and with the public history, one for each way to lay the hidden
/// cards into the places that they cannot see.
pub open spec fn possible_states_spec(
    cfg: ConfigView,
    history: Seq<MoveAnsView>,
    seen: Seen,
) -> Seq<Seq<PlCardView>> {
    let actor = cfg.player_turn(history.len());
    states_from(
        cfg,
        history,
        seen,
        arrangements(hidden_cards(cfg, seen).len(), slot_start(cfg, actor, cfg.player_num)),
    )
}

/// Is `c` in sight?
pub fn view_has_card(view: &View, c: Card) -> (r: bool)
    ensures
        r == view@.contains(c),
{
    if has_card(&view.hand, c) {
        return true;
    }
    let mut p: usize = 0;
    while p < view.other.len()
        invariant
            p <= view.other.len(),
            forall|q: int|
                0 <= q < p ==> !((#[trigger] view@.other[q]).is_some()
                    && view@.other[q].unwrap().contains(c)),
        decreases view.other.len() - p,
    {
        match &view.other[p] {
            Some(head) => {
                if has_card(head, c) {
                    proof {
                        assert(view@.other[p as int] == Some(head@));
                    }
                    return true;
                }
            },
            None => {},
        }
        proof {
            assert(view@.other[p as int] == crate::defs::head_view(view.other@[p as int]));
        }
        p += 1;
    }
    false
}

/// The cards of the deck that are not in sight, in the order of their
/// numbers.
pub fn hidden_from(config: &GameConfig, view: &View) -> (r: Vec<Card>)
    ensures
        r@ == hidden_cards(config@, view@),
{
    let all = config.all_cards();
    let ghost pred = |c: Card| !view@.contains(c);
    let mut out: Vec<Card> = Vec::new();
    let mut i: usize = 0;
    proof {
        reveal(Seq::filter);
        assert(all@.take(0).filter(pred) =~= Seq::<Card>::empty());
    }
    while i < all.len()
        invariant
            i <= all.len(),
            pred == |c: Card| !view@.contains(c),
            out@ == all@.take(i as int).filter(pred),
        decreases all.len() - i,
    {
        proof {
            lemma_filter_step(all@, pred, i as int);
        }
        if !view_has_card(view, all[i]) {
            out.push(all[i]);
        }
        i += 1;
    }
    proof {
        assert(all@.take(all.len() as int) =~= all@);
    }
    out
}

/// The set of the hidden cards that `a` puts in the `len` places from
/// `start` on.
pub fn collect_picked(hidden: &Vec<Card>, a: &Vec<usize>, start: usize, len: usize) -> (r: Vec<
    Card,
>)
    requires
        start + len <= a@.len(),
        forall|i: int| 0 <= i < a@.len() ==> (#[trigger] a@[i]) < hidden@.len(),
    ensures
        r@ == sorted_of(picked(hidden@, a@, start as int, len as int)),
        r@.len() <= len,
        forall|i: int| 0 <= i < r@.len() ==> hidden@.contains(#[trigger] r@[i]),
{
    let ghost all = picked(hidden@, a@, start as int, len as int);
    let mut out: Vec<Card> = Vec::new();
    let mut j: usize = 0;
    let n = a.len();
    while j < len
        invariant
            j <= len,
            n == a@.len(),
            start + len <= a@.len(),
            forall|i: int| 0 <= i < a@.len() ==> (#[trigger] a@[i]) < hidden@.len(),
            all == picked(hidden@, a@, start as int, len as int),
            out@ == sorted_of(all.take(j as int)),
            out@.len() <= j,
            forall|i: int| 0 <= i < out@.len() ==> hidden@.contains(#[trigger] out@[i]),
        decreases len - j,
    {
        let c = hidden[a[start + j]];
        proof {
            assert(all.take(j as int + 1).drop_last() =~= all.take(j as int));
            assert(all.take(j as int + 1).last() == c);
        }
        let ghost before = out@;
        insert_card(&mut out, c);
        proof {
            assert forall|i: int| 0 <= i < out@.len() implies hidden@.contains(
                #[trigger] out@[i],
            ) by {
                if out@[i] != c {
                    assert(before.contains(out@[i]));
                    let k = choose|k: int| 0 <= k < before.len() && before[k] == out@[i];
                    assert(hidden@.contains(before[k]));
                } else {
                    assert(hidden@[a@[start + j] as int] == c);
                }
            }
        }
        j += 1;
    }
    proof {
        assert(all.take(len as int) =~= all);
    }
    out
}

/// How many hidden cards lie with all the players together.
pub fn slots_total(config: &GameConfig, actor: Player) -> (r: usize)
    requires
        config@.wf(),
    ensures
        r == slot_start(config@, actor, config@.player_num),
{
    let ghost cfg = config@;
    let n = config.player_num();
    let deck_size = config.cards_num();
    let mut total: usize = 0;
    let mut p: usize = 0;
    while p < n
        invariant
            p <= n,
            cfg == config@,
            cfg.wf(),
            n == cfg.player_num,
            deck_size == cfg.cards_num(),
            total == slot_start(cfg, actor, p as nat),
        decreases n - p,
    {
        proof {
            lemma_slot_start_bound(cfg, actor, (p + 1) as nat);
            assert((cfg.head_num + cfg.hand_num) * (p + 1) <= (cfg.head_num + cfg.hand_num)
                * cfg.player_num) by (nonlinear_arith)
                requires
                    p + 1 <= cfg.player_num,
            ;
        }
        if p == actor.0 {
            total += config.head_num();
        } else {
            total += config.hand_num();
        }
        p += 1;
    }
    total
}

/// The deal of `candidate` for the arrangement `a` of the hidden cards.
pub fn build_candidate(
    config: &GameConfig,
    view: &View,
    actor: Player,
    hidden: &Vec<Card>,
    a: &Vec<usize>,
) -> (r: Distr)
    requires
        sight_of(config@, view@, actor),
        in_deck(hidden@, config@.cards_num()),
        a@.len() == slot_start(config@, actor, config@.player_num),
        forall|i: int| 0 <= i < a@.len() ==> (#[trigger] a@[i]) < hidden@.len(),
    ensures
        r@ == candidate(config@, view@, actor, hidden@, a@),
        deal_shaped(config@, r@),
{
    let ghost cfg = config@;
    let ghost want = candidate(cfg, view@, actor, hidden@, a@);
    let n = config.player_num();
    let mut state: Vec<PlCard> = Vec::new();
    let mut next: usize = 0;
    let mut p: usize = 0;
    let total = a.len();
    while p < n
        invariant
            p <= n,
            total == a@.len(),
            cfg == config@,
            n == cfg.player_num,
            sight_of(cfg, view@, actor),
            in_deck(hidden@, cfg.cards_num()),
            a@.len() == slot_start(cfg, actor, cfg.player_num),
            forall|i: int| 0 <= i < a@.len() ==> (#[trigger] a@[i]) < hidden@.len(),
            want == candidate(cfg, view@, actor, hidden@, a@),
            next == slot_start(cfg, actor, p as nat),
            state@.len() == p,
            forall|q: int| 0 <= q < p ==> (#[trigger] state@[q])@ == want[q],
            forall|q: int|
                0 <= q < p ==> {
                    &&& (#[trigger] state@[q])@.hand.len() <= cfg.hand_num
                    &&& state@[q]@.head.len() <= cfg.head_num
                    &&& in_deck(state@[q]@.hand, cfg.cards_num())
                    &&& in_deck(state@[q]@.head, cfg.cards_num())
                },
        decreases n - p,
    {
        proof {
            lemma_slot_start_grows(cfg, actor, (p + 1) as nat, cfg.player_num);
            assert(slot_start(cfg, actor, (p + 1) as nat) == next + slot_len(cfg, actor, p as nat));
            assert(view@.other[p as int] == crate::defs::head_view(view.other@[p as int]));
        }
        let len = if p == actor.0 {
            config.head_num()
        } else {
            config.hand_num()
        };
        let got = collect_picked(hidden, a, next, len);
        proof {
            assert forall|i: int| 0 <= i < got@.len() implies (#[trigger] got@[i]).0
                < cfg.cards_num() by {
                let k = choose|k: int| 0 <= k < hidden@.len() && hidden@[k] == got@[i];
                assert(hidden@[k].0 < cfg.cards_num());
            }
        }
        let holding = if p == actor.0 {
            PlCard { hand: copy_cards(&view.hand), head: got }
        } else {
            match &view.other[p] {
                Some(head) => PlCard { hand: got, head: copy_cards(head) },
                None => {
                    proof {
                        assert(false);
                    }
                    PlCard { hand: got, head: Vec::new() }
                },
            }
        };
        state.push(holding);
        next += len;
        p += 1;
    }
    let r = Distr::new(state);
    proof {
        assert(r@ =~= want);
    }
    r
}

/// Does every entry of `history` hold the answer that the rules give on
/// `distr`?
pub fn is_consistent(config: &GameConfig, distr: &Distr, history: &Vec<MoveAns>) -> (r: bool)
    requires
        config@.wf(),
        deal_shaped(config@, distr@),
        seated(config@, history_view(history@)),
    ensures
        r == consistent(config@, distr@, history_view(history@)),
{
    let ghost h = history_view(history@);
    let mut i: usize = 0;
    while i < history.len()
        invariant
            i <= history.len(),
            h == history_view(history@),
            config@.wf(),
            deal_shaped(config@, distr@),
            seated(config@, h),
            forall|j: int|
                0 <= j < i ==> (#[trigger] h[j]) == answer_spec(
                    config@,
                    distr@,
                    h[j].move_of_this(),
                    h[j].actor(),
                ),
        decreases history.len() - i,
    {
        let qa = &history[i];
        proof {
            assert(h[i as int] == qa@);
            assert(h[i as int].seated(config@));
        }
        let who = qa.actor();
        let m = qa.move_of_this();
        let a = answer(config, distr, m, who);
        if *qa != a {
            return false;
        }
        i += 1;
    }
    true
}

/// The deals that the arrangements `arrs` of the hidden cards give and that
/// agree with the history, in the order of `arrs`.
pub fn states_from_arrangements(
    config: &GameConfig,
    query_answer: &Vec<MoveAns>,
    view: &View,
    arrs: &Vec<Vec<usize>>,
) -> (r: Vec<Distr>)
    requires
        config@.wf(),
        config@.player_num > 0,
        sight_of(config@, view@, config@.player_turn(query_answer@.len())),
        seated(config@, history_view(query_answer@)),
        forall|i: int|
            0 <= i < arrs@.len() ==> (#[trigger] arrs@[i])@.len() == slot_start(
                config@,
                config@.player_turn(query_answer@.len()),
                config@.player_num,
            ),
        forall|i: int, j: int|
            0 <= i < arrs@.len() && 0 <= j < arrs@[i]@.len() ==> (#[trigger] arrs@[i]@[j])
                < hidden_cards(config@, view@).len(),
    ensures
        deals_view(r@) == states_from(
            config@,
            history_view(query_answer@),
            view@,
            arrs.deep_view(),
        ),
        forall|i: int| 0 <= i < r@.len() ==> deal_shaped(config@, (#[trigger] r@[i])@),
{
    let ghost cfg = config@;
    let ghost h = history_view(query_answer@);
    let player = config.player_turn(query_answer.len());
    let hidden = hidden_from(config, view);
    let ghost build = |a: Seq<usize>| candidate(cfg, view@, player, hidden@, a);
    let ghost keep = |d: Seq<PlCardView>| consistent(cfg, d, h);
    let ghost src = arrs.deep_view().map_values(build);
    proof {
        assert(h.len() == query_answer@.len());
        lemma_filter_members(deck(cfg), |c: Card| !view@.contains(c));
        assert forall|i: int| 0 <= i < hidden@.len() implies (#[trigger] hidden@[i]).0
            < cfg.cards_num() by {
            assert(hidden@.contains(hidden@[i]));
            assert(deck(cfg).contains(hidden@[i]));
        }
        reveal(Seq::filter);
        assert(src.take(0).filter(keep) =~= Seq::<Seq<PlCardView>>::empty());
    }
    let mut out: Vec<Distr> = Vec::new();
    let mut i: usize = 0;
    proof {
        assert(deals_view(out@) =~= Seq::<Seq<PlCardView>>::empty());
    }
    while i < arrs.len()
        invariant
            i <= arrs.len(),
            cfg == config@,
            cfg.wf(),
            h == history_view(query_answer@),
            seated(cfg, h),
            sight_of(cfg, view@, player),
            in_deck(hidden@, cfg.cards_num()),
            hidden@ == hidden_cards(cfg, view@),
            forall|i: int|
                0 <= i < arrs@.len() ==> (#[trigger] arrs@[i])@.len() == slot_start(
                    cfg,
                    player,
                    cfg.player_num,
                ),
            forall|i: int, j: int|
                0 <= i < arrs@.len() && 0 <= j < arrs@[i]@.len() ==> (#[trigger] arrs@[i]@[j])
                    < hidden@.len(),
            build == |a: Seq<usize>| candidate(cfg, view@, player, hidden@, a),
            keep == |d: Seq<PlCardView>| consistent(cfg, d, h),
            src == arrs.deep_view().map_values(build),
            deals_view(out@) == src.take(i as int).filter(keep),
            forall|k: int| 0 <= k < out@.len() ==> deal_shaped(cfg, (#[trigger] out@[k])@),
        decreases arrs.len() - i,
    {
        let a = &arrs[i];
        proof {
            lemma_filter_step(src, keep, i as int);
            assert(arrs.deep_view()[i as int] =~= a@);
            assert(src[i as int] == candidate(cfg, view@, player, hidden@, a@));
            assert forall|j: int| 0 <= j < a@.len() implies (#[trigger] a@[j]) < hidden@.len() by {
                assert(arrs@[i as int]@[j] < hidden@.len());
            }
        }
        let distr = build_candidate(config, view, player, &hidden, a);
        if is_consistent(config, &distr, query_answer) {
            let ghost before = deals_view(out@);
            out.push(distr);
            proof {
                assert(deals_view(out@) =~= before.push(src[i as int]));
            }
        }
        i += 1;
    }
    proof {
        assert(src.take(arrs.len() as int) =~= src);
    }
    out
}

/// The belief of the player on turn: every deal that agrees with what they
/// see and with the public history. The work grows with the factorial of
/// the number of hidden cards.
pub fn possible_states(config: &GameConfig, query_answer: &Vec<MoveAns>, view: &View) -> (r: Vec<
    Distr,
>)
    requires
        config@.wf(),
        config@.player_num > 0,
        sight_of(config@, view@, config@.player_turn(query_answer@.len())),
        seated(config@, history_view(query_answer@)),
    ensures
        deals_view(r@) == possible_states_spec(config@, history_view(query_answer@), view@),
        forall|i: int| 0 <= i < r@.len() ==> deal_shaped(config@, (#[trigger] r@[i])@),
        forall|i: int|
            0 <= i < r@.len() ==> consistent(
                config@,
                (#[trigger] r@[i])@,
                history_view(query_answer@),
            ),
        forall|deal: Seq<PlCardView>|
            deal_valid(config@, deal) && seen_by(deal, config@.player_turn(query_answer@.len()))
                == view@ && consistent(config@, deal, history_view(query_answer@))
                ==> #[trigger] deals_view(r@).contains(deal),
        hidden_cards(config@, view@).len() == 0 ==> r@.len() <= 1,
        forall|i: int|
            0 <= i < r@.len() ==> head_like(
                config@,
                (#[trigger] r@[i])@[config@.player_turn(query_answer@.len()).0 as int].head,
            ),
        sight_valid(config@, view@, config@.player_turn(query_answer@.len())) ==> forall|i: int|
            0 <= i < r@.len() ==> deal_valid(config@, (#[trigger] r@[i])@) && seen_by(
                r@[i]@,
                config@.player_turn(query_answer@.len()),
            ) == view@,
{
    let player = config.player_turn(query_answer.len());
    let hidden = hidden_from(config, view);
    let k = slots_total(config, player);
    let deck_size = config.cards_num();
    let arrs = index_permutations(hidden.len(), k);
    proof {
        assert(history_view(query_answer@).len() == query_answer@.len());
        assert forall|i: int| 0 <= i < arrs@.len() implies (#[trigger] arrs@[i])@.len() == k by {
            assert(arrs.deep_view()[i] =~= arrs@[i]@);
            assert(is_arrangement(arrs.deep_view()[i], hidden@.len(), k as nat));
        }
        assert forall|i: int, j: int|
            0 <= i < arrs@.len() && 0 <= j < arrs@[i]@.len() implies (#[trigger] arrs@[i]@[j])
            < hidden@.len() by {
            assert(arrs.deep_view()[i] =~= arrs@[i]@);
            assert(is_arrangement(arrs.deep_view()[i], hidden@.len(), k as nat));
            assert(arrs.deep_view()[i][j] < hidden@.len());
        }
    }
    let r = states_from_arrangements(config, query_answer, view, &arrs);
    proof {
        let cfg = config@;
        let h = history_view(query_answer@);
        let src = arrs.deep_view().map_values(
            |a: Seq<usize>| candidate(cfg, view@, player, hidden@, a),
        );
        lemma_filter_members(src, |d: Seq<PlCardView>| consistent(cfg, d, h));
        assert forall|i: int| 0 <= i < r@.len() implies consistent(cfg, (#[trigger] r@[i])@, h) by {
            assert(deals_view(r@)[i] == r@[i]@);
            assert(deals_view(r@).contains(r@[i]@));
        }
        assert forall|deal: Seq<PlCardView>|
            deal_valid(cfg, deal) && seen_by(deal, player) == view@ && consistent(
                cfg,
                deal,
                h,
            ) implies #[trigger] deals_view(r@).contains(deal) by {
            lemma_belief_holds_deal(cfg, h, deal, arrs.deep_view());
        }
        if sight_valid(cfg, view@, player) {
            assert forall|i: int| 0 <= i < r@.len() implies deal_valid(cfg, (#[trigger] r@[i])@)
                && seen_by(r@[i]@, player) == view@ by {
                assert(deals_view(r@)[i] == r@[i]@);
                assert(deals_view(r@).contains(r@[i]@));
                crate::belief::lemma_belief_is_exact(cfg, h, view@, arrs.deep_view(), r@[i]@);
            }
        }
        crate::belief::lemma_hidden_cards(cfg, view@);
        assert forall|i: int| 0 <= i < r@.len() implies head_like(
            cfg,
            (#[trigger] r@[i])@[player.0 as int].head,
        ) by {
            assert(deals_view(r@)[i] == r@[i]@);
            assert(deals_view(r@).contains(r@[i]@));
            assert(src.contains(r@[i]@));
            let j = choose|j: int| 0 <= j < src.len() && src[j] == r@[i]@;
            assert(is_arrangement(arrs.deep_view()[j], hidden@.len(), k as nat));
            crate::belief::lemma_candidate_head(cfg, view@, player, hidden@, arrs.deep_view()[j]);
        }
        if hidden@.len() == 0 {
            lemma_one_arrangement_of_nothing(arrs.deep_view(), k as nat);
            src.lemma_filter_len(|d: Seq<PlCardView>| consistent(cfg, d, h));
            assert(deals_view(r@).len() == r@.len());
        }
    }
    r
}

/// What must hold of what a player is told before they reason from it: the
/// rules are well-formed and seat a player, the sight is that of the player
/// on turn, and the history names seated players only.
pub open spec fn info_ready(info: InfoView) -> bool {
    &&& info.config.wf()
    &&& info.config.player_num > 0
    &&& sight_of(info.config, info.view, info.config.player_turn(info.query_answer.len()))
    &&& seated(info.config, info.query_answer)
}

/// What a game tells the player on turn is fit to reason from.
pub proof fn lemma_game_info_ready(g: GameView)
    requires
        g.wf(),
    ensures
        info_ready(g.info()),
        consistent(g.config, g.distr, g.query_answer),
        g.winner().is_none() ==> running(g.config, g.query_answer),
{
    if g.winner().is_none() {
        assert forall|i: int| 0 <= i < g.query_answer.len() implies (
        #[trigger] g.query_answer[i]).actor() == g.config.player_turn(i as nat)
            && !g.query_answer[i].is_right_declare() by {
            assert(crate::defs::entry_true(g.config, g.distr, i, g.query_answer[i]));
        }
    }
    let actor = g.player_turn();
    crate::defs::lemma_seen_by_shaped(g.config, g.distr, actor);
    assert forall|i: int| 0 <= i < g.query_answer.len() implies (#[trigger] g.query_answer[i])
        == answer_spec(
        g.config,
        g.distr,
        g.query_answer[i].move_of_this(),
        g.query_answer[i].actor(),
    ) && g.query_answer[i].seated(g.config) by {
        assert(crate::defs::entry_true(g.config, g.distr, i, g.query_answer[i]));
    }
}

/// A move or none, as plain values.
pub open spec fn option_move_view(m: Option<Move>) -> Option<MoveView> {
    match m {
        Some(m) => Some(m@),
        None => None,
    }
}

/// In every deal of `states`, `player` has the same head.
pub open spec fn heads_agree(states: Seq<Seq<PlCardView>>, player: Player) -> bool {
    forall|i: int|
        0 <= i < states.len() ==> (#[trigger] states[i])[player.0 as int].head
            == states[0][player.0 as int].head
}

/// The declaration that is right in every deal of `states`, if there is
/// one: the head of `player`, where all the deals agree on it.
pub open spec fn answerable_spec(states: Seq<Seq<PlCardView>>, player: Player) -> Option<MoveView> {
    if states.len() > 0 && heads_agree(states, player) {
        Some(MoveView::Declare { declare: states[0][player.0 as int].head })
    } else {
        None
    }
}

/// The declaration that is right in every deal of `states`, if they agree
/// on the head of `player`.
pub fn answerable_among(states: &Vec<Distr>, player: Player) -> (r: Option<Move>)
    requires
        states@.len() > 0,
        forall|i: int| 0 <= i < states@.len() ==> player.0 < (#[trigger] states@[i])@.len(),
    ensures
        option_move_view(r) == answerable_spec(deals_view(states@), player),
{
    let ghost deals = deals_view(states@);
    let head = states[0].players_head(player);
    let mut i: usize = 1;
    proof {
        assert(deals[0] == states@[0]@);
    }
    while i < states.len()
        invariant
            1 <= i <= states.len(),
            deals == deals_view(states@),
            head@ == deals[0][player.0 as int].head,
            forall|k: int| 0 <= k < states@.len() ==> player.0 < (#[trigger] states@[k])@.len(),
            forall|k: int|
                0 <= k < i ==> (#[trigger] deals[k])[player.0 as int].head == head@,
        decreases states.len() - i,
    {
        proof {
            assert(deals[i as int] == states@[i as int]@);
        }
        let other_head = states[i].players_head(player);
        if !equal_cards(other_head, head) {
            return None;
        }
        i += 1;
    }
    Some(Move::Declare { declare: copy_cards(head) })
}

/// The declaration that the player on turn can be sure of, if there is
/// one. There is none while the deals that agree with sight and history
/// differ on the player's head, and none if no deal agrees with them.
pub fn answerable(config: &GameConfig, query_answer: &Vec<MoveAns>, view: &View) -> (r: Option<
    Move,
>)
    requires
        config@.wf(),
        config@.player_num > 0,
        sight_of(config@, view@, config@.player_turn(query_answer@.len())),
        seated(config@, history_view(query_answer@)),
    ensures
        option_move_view(r) == answerable_spec(
            possible_states_spec(config@, history_view(query_answer@), view@),
            config@.player_turn(query_answer@.len()),
        ),
        r matches Some(m) ==> m@ is Declare && head_like(config@, m@->declare),
        r matches Some(m) ==> (running(config@, history_view(query_answer@)) ==> legal_move(
            config@,
            history_view(query_answer@),
            m@,
        )),
{
    let player = config.player_turn(query_answer.len());
    let n = config.player_num();
    let states = possible_states(config, query_answer, view);
    if states.len() == 0 {
        proof {
            assert(deals_view(states@).len() == 0);
        }
        return None;
    }
    proof {
        assert forall|i: int| 0 <= i < states@.len() implies player.0 < (
        #[trigger] states@[i])@.len() by {
            assert(deal_shaped(config@, states@[i]@));
        }
    }
    let r = answerable_among(&states, player);
    proof {
        let h = history_view(query_answer@);
        assert(h.len() == query_answer@.len());
        if r.is_some() {
            assert(deals_view(states@)[0] == states@[0]@);
            assert(head_like(config@, states@[0]@[player.0 as int].head));
            assert(consistent(config@, states@[0]@, h));
            if running(config@, h) {
                crate::belief::lemma_sure_head_is_legal(config@, h, states@[0]@);
            }
        }
    }
    r
}

/// The declaration that the player who is told `info` can be sure of, if
/// there is one.
pub fn answerable_info(info: &Info) -> (r: Option<Move>)
    requires
        info_ready(info@),
    ensures
        option_move_view(r) == answerable_spec(
            possible_states_spec(info@.config, info@.query_answer, info@.view),
            info@.config.player_turn(info@.query_answer.len()),
        ),
        r matches Some(m) ==> m@ is Declare && head_like(info@.config, m@->declare),
        r matches Some(m) ==> (running(info@.config, info@.query_answer) ==> legal_move(
            info@.config,
            info@.query_answer,
            m@,
        )),
{
    proof {
        assert(info@.query_answer.len() == info.query_answer@.len());
    }
    answerable(&info.config, &info.query_answer, &info.view)
}

/// The queries that `player` may still make, in the order of `all_query`.
pub fn movable_query_ref(config: &GameConfig, query_answer: &Vec<MoveAns>, player: Player) -> (r:
    Vec<Move>)
    requires
        config@.player_num > 0,
    ensures
        moves_view(r@) == all_query_spec(config@).filter(
            |m: MoveView|
                move_allowed(
                    moves_of_player_spec(
                        history_view(query_answer@),
                        config@.player_num,
                        player,
                    ),
                    player,
                    m,
                ),
        ),
{
    let past_moves = moves_of(query_answer, config.player_num(), player);
    keep_allowed(all_query(config), &past_moves, player)
}

/// The element of `v` at place `i`.
pub fn pick<T>(v: Vec<T>, i: usize) -> (r: T)
    requires
        i < v@.len(),
    ensures
        r == v@[i as int],
{
    let mut v = v;
    v.swap_remove(i)
}

/// One element of `v`, drawn at random.
pub fn random_vec<T>(rng: &mut SmallRng, v: Vec<T>) -> (r: T)
    requires
        v@.len() > 0,
    ensures
        v@.contains(r),
{
    let i = random_below(rng, v.len());
    pick(v, i)
}

/// The sort with the label `name`.
pub fn sort_named(name: &str) -> (r: Sort)
    ensures
        r@ == name@,
{
    Sort(name.to_owned())
}

/// The labels that the ready-made rules use differ from one another.
pub proof fn lemma_labels_differ()
    ensures
        "A"@[0] == 'A' && "A"@.len() == 1,
        "B"@[0] == 'B' && "B"@.len() == 1,
        "C"@[0] == 'C' && "C"@.len() == 1,
        "X"@[0] == 'X' && "X"@.len() == 1,
        "Y"@[0] == 'Y' && "Y"@.len() == 1,
        "Z"@[0] == 'Z' && "Z"@.len() == 1,
        "W"@[0] == 'W' && "W"@.len() == 1,
{
    reveal_strlit("A");
    reveal_strlit("B");
    reveal_strlit("C");
    reveal_strlit("X");
    reveal_strlit("Y");
    reveal_strlit("Z");
    reveal_strlit("W");
}

/// The sorts of the small rules: two letters, three marks.
pub open spec fn small_sorts() -> Seq<Seq<char>> {
    seq!["A"@, "B"@, "X"@, "Y"@, "Z"@]
}

/// The cards of the small rules: one for each pair of a letter and a mark.
pub open spec fn small_cards() -> Seq<Seq<Seq<char>>> {
    seq![
        seq!["A"@, "X"@],
        seq!["A"@, "Y"@],
        seq!["A"@, "Z"@],
        seq!["B"@, "X"@],
        seq!["B"@, "Y"@],
        seq!["B"@, "Z"@],
    ]
}

/// The sorts of the larger rules: three letters, four marks, in the order
/// of the alphabet.
pub open spec fn medium_sorts() -> Seq<Seq<char>> {
    seq!["A"@, "B"@, "C"@, "W"@, "X"@, "Y"@, "Z"@]
}

/// The cards of the larger rules: one for each pair of a letter and a mark.
pub open spec fn medium_cards() -> Seq<Seq<Seq<char>>> {
    seq![
        seq!["A"@, "X"@],
        seq!["B"@, "X"@],
        seq!["C"@, "X"@],
        seq!["A"@, "Y"@],
        seq!["B"@, "Y"@],
        seq!["C"@, "Y"@],
        seq!["A"@, "Z"@],
        seq!["B"@, "Z"@],
        seq!["C"@, "Z"@],
        seq!["A"@, "W"@],
        seq!["B"@, "W"@],
        seq!["C"@, "W"@],
    ]
}

/// The card that bears the two sorts `a` and `b`.
fn card_of(a: &str, b: &str) -> (r: Vec<Sort>)
    ensures
        sort_labels(r@) == seq![a@, b@],
{
    let r = vec![sort_named(a), sort_named(b)];
    proof {
        assert(sort_labels(r@) =~= seq![a@, b@]);
    }
    r
}

/// The seven sorts of the larger rules.
fn medium_sort_list() -> (r: Vec<Sort>)
    ensures
        sort_labels(r@) == medium_sorts(),
        medium_sorts().no_duplicates(),
{
    let r = vec![
        sort_named("A"),
        sort_named("B"),
        sort_named("C"),
        sort_named("W"),
        sort_named("X"),
        sort_named("Y"),
        sort_named("Z"),
    ];
    proof {
        lemma_labels_differ();
        assert(sort_labels(r@) =~= medium_sorts());
        assert forall|i: int, j: int|
            0 <= i < medium_sorts().len() && 0 <= j < medium_sorts().len() && i
                != j implies medium_sorts()[i] != medium_sorts()[j] by {
            assert(medium_sorts()[i][0] != medium_sorts()[j][0]);
        }
    }
    r
}

/// The twelve cards of the larger rules.
fn medium_card_list() -> (r: Vec<Vec<Sort>>)
    ensures
        crate::defs::card_labels(r@) == medium_cards(),
        forall|c: int, j: int|
            0 <= c < medium_cards().len() && 0 <= j < medium_cards()[c].len()
                ==> medium_sorts().contains(#[trigger] medium_cards()[c][j]),
{
    let r = vec![
        card_of("A", "X"),
        card_of("B", "X"),
        card_of("C", "X"),
        card_of("A", "Y"),
        card_of("B", "Y"),
        card_of("C", "Y"),
        card_of("A", "Z"),
        card_of("B", "Z"),
        card_of("C", "Z"),
        card_of("A", "W"),
        card_of("B", "W"),
        card_of("C", "W"),
    ];
    proof {
        assert(crate::defs::card_labels(r@) =~= medium_cards());
        let s = medium_sorts();
        assert(s[0] == "A"@ && s[1] == "B"@ && s[2] == "C"@ && s[3] == "W"@ && s[4] == "X"@ && s[5]
            == "Y"@ && s[6] == "Z"@);
    }
    r
}

/// The small rules: three players, one card on each head and one in each
/// hand, six cards that bear one of two letters and one of three marks.
pub fn default_config() -> (r: GameConfig)
    ensures
        r@.wf(),
        r@ == (ConfigView {
            sorts: small_sorts(),
            cards_sort: small_cards(),
            player_num: 3,
            head_num: 1,
            hand_num: 1,
        }),
{
    let sorts = vec![
        sort_named("A"),
        sort_named("B"),
        sort_named("X"),
        sort_named("Y"),
        sort_named("Z"),
    ];
    let cards = vec![
        card_of("A", "X"),
        card_of("A", "Y"),
        card_of("A", "Z"),
        card_of("B", "X"),
        card_of("B", "Y"),
        card_of("B", "Z"),
    ];
    proof {
        lemma_labels_differ();
        let s = small_sorts();
        assert(sort_labels(sorts@) =~= s);
        assert(crate::defs::card_labels(cards@) =~= small_cards());
        assert forall|i: int, j: int| 0 <= i < s.len() && 0 <= j < s.len() && i != j implies s[i]
            != s[j] by {
            assert(s[i][0] != s[j][0]);
        }
        assert(s[0] == "A"@ && s[1] == "B"@ && s[2] == "X"@ && s[3] == "Y"@ && s[4] == "Z"@);
        assert((1 + 1) * 3 <= 6) by (nonlinear_arith);
    }
    GameConfig::new(sorts, cards, 3, 1, 1).unwrap()
}

/// The larger rules for three players: two cards on each head and two in
/// each hand, twelve cards that bear one of three letters and one of four
/// marks.
pub fn three_midium() -> (r: GameConfig)
    ensures
        r@.wf(),
        r@ == (ConfigView {
            sorts: medium_sorts(),
            cards_sort: medium_cards(),
            player_num: 3,
            head_num: 2,
            hand_num: 2,
        }),
{
    let sorts = medium_sort_list();
    let cards = medium_card_list();
    proof {
        assert((2 + 2) * 3 <= 12) by (nonlinear_arith);
    }
    GameConfig::new(sorts, cards, 3, 2, 2).unwrap()
}

/// The larger rules for four players: two cards on each head and one in
/// each hand, with the twelve cards of `three_midium`.
pub fn four_midium() -> (r: GameConfig)
    ensures
        r@.wf(),
        r@ == (ConfigView {
            sorts: medium_sorts(),
            cards_sort: medium_cards(),
            player_num: 4,
            head_num: 2,
            hand_num: 1,
        }),
{
    let sorts = medium_sort_list();
    let cards = medium_card_list();
    proof {
        assert((2 + 1) * 4 <= 12) by (nonlinear_arith);
    }
    GameConfig::new(sorts, cards, 4, 2, 1).unwrap()
}

/// Is what the player is told fit to reason from?
pub fn info_is_ready(info: &Info) -> (r: bool)
    ensures
        r == info_ready(info@),
{
    let ghost cfg = info@.config;
    let ghost seen = info@.view;
    let ghost h = info@.query_answer;
    if !info.config.is_wf() {
        return false;
    }
    let n = info.config.player_num();
    if n == 0 {
        return false;
    }
    let actor = info.player_turn();
    let deck_size = info.config.cards_num();
    if info.view.other.len() != n || info.view.hand.len() > info.config.hand_num() || !all_in_deck(
        &info.view.hand,
        deck_size,
    ) {
        return false;
    }
    let mut p: usize = 0;
    while p < n
        invariant
            p <= n,
            n == info.view.other@.len(),
            n == cfg.player_num,
            cfg == info@.config,
            seen == info@.view,
            h == info@.query_answer,
            actor == cfg.player_turn(h.len()),
            deck_size == cfg.cards_num(),
            forall|q: int|
                0 <= q < p ==> ((#[trigger] seen.other[q]) matches Some(head) ==> head.len()
                    <= cfg.head_num && in_deck(head, cfg.cards_num())),
            forall|q: int| 0 <= q < p && q != actor.0 ==> (#[trigger] seen.other[q]).is_some(),
        decreases n - p,
    {
        proof {
            assert(seen.other[p as int] == crate::defs::head_view(info.view.other@[p as int]));
        }
        match &info.view.other[p] {
            Some(head) => {
                if head.len() > info.config.head_num() || !all_in_deck(head, deck_size) {
                    return false;
                }
            },
            None => {
                if p != actor.0 {
                    proof {
                        assert(seen.other[p as int].is_none());
                        assert(!sight_of(cfg, seen, actor));
                    }
                    return false;
                }
            },
        }
        p += 1;
    }
    let mut i: usize = 0;
    while i < info.query_answer.len()
        invariant
            i <= info.query_answer.len(),
            h == info@.query_answer,
            cfg == info@.config,
            n == cfg.player_num,
            forall|k: int| 0 <= k < i ==> (#[trigger] h[k]).seated(cfg),
        decreases info.query_answer.len() - i,
    {
        proof {
            assert(h[i as int] == info.query_answer@[i as int]@);
        }
        let seats = match &info.query_answer[i] {
            MoveAns::Query { who, query_to, query_sort: _, ans: _ } => who.0 < n && query_to.0 < n,
            MoveAns::Declare { who, declare: _, ans: _ } => who.0 < n,
        };
        if !seats {
            proof {
                assert(!h[i as int].seated(cfg));
            }
            return false;
        }
        i += 1;
    }
    true
}

/// No deal agrees with what the player sees and with the history: the
/// history is not that of a game played on a legal deal.
#[derive(Debug, Clone, Copy, PartialEq, Eq, Structural)]
pub struct EmptyBeliefSet;

/// The declaration that the player on turn can be sure of, if there is
/// one, or the news that no deal agrees with sight and history.
pub fn is_determined(config: &GameConfig, query_answer: &Vec<MoveAns>, view: &View) -> (r: Result<
    Option<Move>,
    EmptyBeliefSet,
>)
    requires
        config@.wf(),
        config@.player_num > 0,
        sight_of(config@, view@, config@.player_turn(query_answer@.len())),
        seated(config@, history_view(query_answer@)),
    ensures
        r is Err <==> possible_states_spec(config@, history_view(query_answer@), view@).len()
            == 0,
        r matches Ok(m) ==> option_move_view(m) == answerable_spec(
            possible_states_spec(config@, history_view(query_answer@), view@),
            config@.player_turn(query_answer@.len()),
        ),
{
    let player = config.player_turn(query_answer.len());
    let states = possible_states(config, query_answer, view);
    proof {
        assert(deals_view(states@).len() == states@.len());
    }
    if states.len() == 0 {
        return Err(EmptyBeliefSet);
    }
    proof {
        assert forall|i: int| 0 <= i < states@.len() implies player.0 < (
        #[trigger] states@[i])@.len() by {
            assert(deal_shaped(config@, states@[i]@));
        }
    }
    Ok(answerable_among(&states, player))
}

} // verus!
