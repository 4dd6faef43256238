//! What holds of the game whatever is dealt and whoever plays.

use crate::abstract_game::Player;
use crate::arrange::{lemma_one_arrangement_of_nothing, lists_arrangements};
use crate::belief::{lemma_belief_holds_deal, lemma_sure_head_is_legal};
use crate::cards::increasing;
use crate::defs::{
    answer_spec, moves_of_player_spec, Card, ConfigView, GameView, InfoView, MoveAnsView, MoveView,
    PlCardView,
};
use crate::utils::{
    candidate, consistent, hidden_cards, lemma_game_info_ready, slot_start, states_from,
};
use vstd::prelude::*;

verus! {

/// The answer to a move depends on the rules, the deal, the move and the
/// player who makes it, and on nothing else: two answers to the same move
/// of the same player on the same deal are the same.
pub proof fn law_answer_repeats(
    cfg: ConfigView,
    deal: Seq<PlCardView>,
    m: MoveView,
    who: Player,
    first: MoveAnsView,
    second: MoveAnsView,
)
    requires
        first == answer_spec(cfg, deal, m, who),
        second == answer_spec(cfg, deal, m, who),
    ensures
        first == second,
{
}

/// The deal of a game is among the deals that the player on turn reckons
/// with, whatever full list of arrangements the belief is made from: the
/// history of a game never rules out the deal that it was played on.
pub proof fn law_truth_in_belief(g: GameView, arrs: Seq<Seq<usize>>)
    requires
        g.wf(),
        g.config.cards_num() <= usize::MAX,
        lists_arrangements(
            arrs,
            hidden_cards(g.config, g.info().view).len(),
            slot_start(g.config, g.player_turn(), g.config.player_num),
        ),
    ensures
        states_from(g.config, g.query_answer, g.info().view, arrs).contains(g.distr),
{
    lemma_game_info_ready(g);
    lemma_belief_holds_deal(g.config, g.query_answer, g.distr, arrs);
}

/// The belief of the player on turn is exact, whatever full list of
/// arrangements it is made from: it holds the legal deals of which the
/// player would see what they see of the deal of the game, and which agree
/// with the history of the game; and it holds no other deal.
pub proof fn law_belief_is_exact(g: GameView, arrs: Seq<Seq<usize>>, deal: Seq<PlCardView>)
    requires
        g.wf(),
        g.config.cards_num() <= usize::MAX,
        lists_arrangements(
            arrs,
            hidden_cards(g.config, g.info().view).len(),
            slot_start(g.config, g.player_turn(), g.config.player_num),
        ),
    ensures
        states_from(g.config, g.query_answer, g.info().view, arrs).contains(deal) <==> (
        crate::defs::deal_valid(g.config, deal) && crate::defs::seen_by(deal, g.player_turn())
            == g.info().view && consistent(g.config, deal, g.query_answer)),
{
    lemma_game_info_ready(g);
    crate::belief::lemma_sight_of_deal(g.config, g.distr, g.player_turn());
    crate::belief::lemma_belief_is_exact(g.config, g.query_answer, g.info().view, arrs, deal);
}

/// A player on turn from whom no card is hidden reckons with one deal
/// only, whatever full list of arrangements the belief is made from, and
/// that is the deal of the game.
pub proof fn law_full_sight_one_deal(g: GameView, arrs: Seq<Seq<usize>>)
    requires
        g.wf(),
        g.config.cards_num() <= usize::MAX,
        hidden_cards(g.config, g.info().view).len() == 0,
        lists_arrangements(arrs, 0, slot_start(g.config, g.player_turn(), g.config.player_num)),
    ensures
        states_from(g.config, g.query_answer, g.info().view, arrs) == seq![g.distr],
{
    let seen = g.info().view;
    let actor = g.player_turn();
    let hidden = hidden_cards(g.config, seen);
    let belief = states_from(g.config, g.query_answer, seen, arrs);
    law_truth_in_belief(g, arrs);
    lemma_one_arrangement_of_nothing(
        arrs,
        slot_start(g.config, g.player_turn(), g.config.player_num),
    );
    let src = arrs.map_values(|a: Seq<usize>| candidate(g.config, seen, actor, hidden, a));
    src.lemma_filter_len(|d: Seq<PlCardView>| consistent(g.config, d, g.query_answer));
    let i = choose|i: int| 0 <= i < belief.len() && belief[i] == g.distr;
    assert(belief =~= seq![g.distr]);
}

/// A player who declares the cards on their own head is right, and a
/// player who declares any other set of cards is wrong.
pub proof fn law_declare_right(
    cfg: ConfigView,
    deal: Seq<PlCardView>,
    p: Player,
    cards: Seq<Card>,
)
    ensures
        answer_spec(cfg, deal, MoveView::Declare { declare: deal[p.0 as int].head }, p) == (
        MoveAnsView::Declare { who: p, declare: deal[p.0 as int].head, ans: true }),
        cards.to_set() != deal[p.0 as int].head.to_set() ==> answer_spec(
            cfg,
            deal,
            MoveView::Declare { declare: cards },
            p,
        ) == (MoveAnsView::Declare { who: p, declare: cards, ans: false }),
{
}

/// Two sets of cards, each written in increasing order, are the same set
/// only if they are written alike.
pub proof fn lemma_increasing_same_set(a: Seq<Card>, b: Seq<Card>)
    requires
        increasing(a),
        increasing(b),
        a.to_set() == b.to_set(),
    ensures
        a == b,
    decreases a.len(),
{
    if a.len() == 0 {
        if b.len() > 0 {
            assert(b.to_set().contains(b[0]));
            assert(a.to_set().contains(b[0]));
        }
        assert(a =~= b);
    } else {
        let x = a.last();
        assert(a.to_set().contains(x));
        assert(b.contains(x));
        let j = choose|j: int| 0 <= j < b.len() && b[j] == x;
        if j < b.len() - 1 {
            let y = b[b.len() - 1];
            assert(b.to_set().contains(y));
            assert(a.contains(y));
            let i = choose|i: int| 0 <= i < a.len() && a[i] == y;
            assert(a[i].0 <= a[a.len() - 1].0);
            assert(b[j].0 < b[b.len() - 1].0);
        }
        let s = a.drop_last();
        let t = b.drop_last();
        assert forall|c: Card| s.to_set().contains(c) <==> t.to_set().contains(c) by {
            if s.contains(c) {
                let i = choose|i: int| 0 <= i < s.len() && s[i] == c;
                assert(a[i] == c && a[i].0 < a[a.len() - 1].0);
                assert(a.to_set().contains(c));
                assert(b.contains(c));
                let k = choose|k: int| 0 <= k < b.len() && b[k] == c;
                assert(t[k] == c);
            }
            if t.contains(c) {
                let k = choose|k: int| 0 <= k < t.len() && t[k] == c;
                assert(b[k] == c && b[k].0 < b[b.len() - 1].0);
                assert(b.to_set().contains(c));
                assert(a.contains(c));
                let i = choose|i: int| 0 <= i < a.len() && a[i] == c;
                assert(s[i] == c);
            }
        }
        assert(s.to_set() =~= t.to_set());
        lemma_increasing_same_set(s, t);
        assert(a =~= s.push(x));
        assert(b =~= t.push(x));
    }
}

/// On a deal whose heads are written in increasing order, the one
/// declaration in increasing order that is right is the head itself.
pub proof fn law_one_right_declaration(
    cfg: ConfigView,
    deal: Seq<PlCardView>,
    p: Player,
    cards: Seq<Card>,
)
    requires
        increasing(cards),
        increasing(deal[p.0 as int].head),
    ensures
        answer_spec(cfg, deal, MoveView::Declare { declare: cards }, p) == (MoveAnsView::Declare {
            who: p,
            declare: cards,
            ans: cards == deal[p.0 as int].head,
        }),
{
    if cards.to_set() == deal[p.0 as int].head.to_set() {
        lemma_increasing_same_set(cards, deal[p.0 as int].head);
    }
}

/// The count that answers a query does not depend on who asks.
pub proof fn law_query_ignores_asker(
    cfg: ConfigView,
    deal: Seq<PlCardView>,
    query_to: Player,
    query_sort: Seq<char>,
    one: Player,
    other: Player,
)
    ensures
        answer_spec(cfg, deal, MoveView::Query { query_to, query_sort }, one) == (
        MoveAnsView::Query {
            who: one,
            query_to,
            query_sort,
            ans: answer_spec(
                cfg,
                deal,
                MoveView::Query { query_to, query_sort },
                other,
            )->Query_ans,
        }),
{
}

/// A game takes no query to the player on turn, no declaration of more or
/// fewer cards than lie on a head, and no move that the player on turn has
/// made before. A move that it takes makes the history longer by one.
pub proof fn law_illegal_moves_rejected(g: GameView, m: MoveView)
    ensures
        m is Query && m->query_to == g.player_turn() ==> !g.accepts(m),
        m is Declare && m->declare.len() != g.config.head_num ==> !g.accepts(m),
        moves_of_player_spec(g.query_answer, g.config.player_num, g.player_turn()).contains(m)
            ==> !g.accepts(m),
        g.after(m).query_answer.len() == g.query_answer.len() + 1,
        g.after(m).query_answer.last().move_of_this() == m,
{
}

/// While a game runs, the player on turn may declare the cards that are
/// on their head: a move is always open.
pub proof fn law_true_head_is_open(g: GameView)
    requires
        g.wf(),
        g.config.player_num <= usize::MAX,
        g.winner().is_none(),
    ensures
        g.accepts(MoveView::Declare { declare: g.distr[g.player_turn().0 as int].head }),
{
    lemma_game_info_ready(g);
    let actor = g.player_turn();
    assert(g.distr[actor.0 as int].head.len() == g.config.head_num);
    lemma_sure_head_is_legal(g.config, g.query_answer, g.distr);
}

/// What a game tells the player on turn, and the moves that it leaves
/// open, depend on the game alone: asked twice with no move between, it
/// says the same.
pub proof fn law_info_repeats(
    g: GameView,
    first: (InfoView, Seq<MoveView>),
    second: (InfoView, Seq<MoveView>),
)
    requires
        first == (g.info(), g.legal_moves()),
        second == (g.info(), g.legal_moves()),
    ensures
        first == second,
{
}

} // verus!
