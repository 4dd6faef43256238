//! The agents: how a player picks a move from what the game tells them.

use crate::abstract_game::{Agent, Player};
use crate::arrange::arrangements;
use crate::cards::{copy_cards, equal_cards};
use crate::chance::random_below;
use crate::defs::{
    answer, answer_spec, contains_move, deal_shaped, history_view, legal_move,
    movable_declare_spec, movable_query_spec, moves_view, seen_by, Card, ConfigView, Distr, Game,
    GameConfig, Info, InfoView, Move, MoveAns, MoveAnsView, MoveView, PlCardView, View,
};
use crate::utils::{
    answerable_info, answerable_spec, deals_view, info_is_ready, info_ready, pick, possible_states,
    possible_states_spec, running, seated, sight_of,
};
use rand::rngs::SmallRng;
use vstd::prelude::*;
use vstd::view::View as _;

verus! {

/// The moves told to an agent are the moves that the rules leave open.
pub open spec fn legal_moves_told(info: InfoView, moves: Seq<MoveView>) -> bool {
    forall|m: MoveView| #[trigger]
        moves.contains(m) <==> legal_move(info.config, info.query_answer, m)
}

/// Declares its head as soon as it is sure of it; until then asks a
/// question drawn at random from those still open, and when none is left
/// makes the first declaration still open.
#[derive(Debug)]
pub struct RandomPlayer {
    rng: SmallRng,
}

impl RandomPlayer {
    /// The generator that the agent draws from.
    pub closed spec fn generator(&self) -> SmallRng {
        self.rng
    }

    /// The agent that draws from `rng`.
    pub fn new(rng: SmallRng) -> (r: Self)
        ensures
            r.generator() == rng,
    {
        RandomPlayer { rng }
    }
}

/// What `RandomPlayer` may answer when it is not sure of its head: one of
/// the questions still open; if there is none, the first declaration still
/// open; if there is none either, the first of the moves it was told.
pub open spec fn random_choice(info: InfoView, told: Seq<MoveView>, m: MoveView) -> bool {
    let queries = movable_query_spec(info.config, info.query_answer);
    let declares = movable_declare_spec(
        info.config,
        info.query_answer,
        arrangements(info.config.cards_num(), info.config.head_num),
    );
    if queries.len() > 0 {
        queries.contains(m)
    } else if declares.len() > 0 {
        m == declares[0]
    } else {
        m == told[0]
    }
}

impl Agent for RandomPlayer {
    type Game = Game;

    /// Told nothing to choose from, the agent declares no cards; told
    /// something that is not fit to reason from, it makes the first move
    /// that it was told.
    fn use_info(&mut self, info: Info, possible_moves: Vec<Move>) -> (r: Move)
        ensures
            possible_moves@.len() == 0 ==> r@ == (MoveView::Declare { declare: Seq::empty() }),
            possible_moves@.len() > 0 && !info_ready(info@) ==> r@ == possible_moves@[0]@,
            possible_moves@.len() > 0 && info_ready(info@) ==> match answerable_spec(
                possible_states_spec(info@.config, info@.query_answer, info@.view),
                info@.config.player_turn(info@.query_answer.len()),
            ) {
                Some(sure) => r@ == sure,
                None => random_choice(info@, moves_view(possible_moves@), r@),
            },
            possible_moves@.len() > 0 && info_ready(info@) && legal_moves_told(
                info@,
                moves_view(possible_moves@),
            ) && running(info@.config, info@.query_answer) ==> moves_view(
                possible_moves@,
            ).contains(r@),
    {
        let ghost told = moves_view(possible_moves@);
        if possible_moves.len() == 0 {
            return Move::Declare { declare: Vec::new() };
        }
        proof {
            assert(told[0] == possible_moves@[0]@);
            assert(told.contains(told[0]));
        }
        if !info_is_ready(&info) {
            return pick(possible_moves, 0);
        }
        if let Some(sure) = answerable_info(&info) {
            return sure;
        }
        let queries = info.movable_query();
        if queries.len() > 0 {
            let i = random_below(&mut self.rng, queries.len());
            proof {
                assert(moves_view(queries@)[i as int] == queries@[i as int]@);
                assert(moves_view(queries@).contains(queries@[i as int]@));
            }
            return pick(queries, i);
        }
        let declares = info.movable_declare();
        proof {
            assert(moves_view(queries@).len() == 0);
            if legal_moves_told(info@, told) {
                if told[0] is Query {
                    assert(moves_view(queries@).contains(told[0]));
                } else {
                    assert(moves_view(declares@).contains(told[0]));
                }
            }
        }
        if declares.len() > 0 {
            proof {
                assert(moves_view(declares@)[0] == declares@[0]@);
                assert(moves_view(declares@).contains(declares@[0]@));
            }
            return pick(declares, 0);
        }
        proof {
            assert(moves_view(declares@).len() == 0);
        }
        pick(possible_moves, 0)
    }
}

/// The answers that the query `q` gets on each of `states`, in their order.
pub open spec fn query_answers_spec(
    cfg: ConfigView,
    states: Seq<Seq<PlCardView>>,
    q: MoveView,
) -> Seq<nat> {
    states.map_values(
        |d: Seq<PlCardView>| crate::defs::seen_by(d, q->query_to).sort_num(cfg, q->query_sort),
    )
}

/// The counts of a list, as numbers without bound.
pub open spec fn counts_view(v: Seq<usize>) -> Seq<nat> {
    v.map_values(|n: usize| n as nat)
}

/// The answers that the query `q` gets on each of `states`, in their order.
pub fn query_answers(config: &GameConfig, states: &Vec<Distr>, q: &Move, who: Player) -> (r: Vec<
    usize,
>)
    requires
        config@.wf(),
        who.0 < config@.player_num,
        q@ is Query,
        q@->query_to.0 < config@.player_num,
        forall|i: int| 0 <= i < states@.len() ==> deal_shaped(config@, (#[trigger] states@[i])@),
    ensures
        counts_view(r@) == query_answers_spec(config@, deals_view(states@), q@),
{
    let mut out: Vec<usize> = Vec::new();
    let mut i: usize = 0;
    while i < states.len()
        invariant
            i <= states.len(),
            config@.wf(),
            who.0 < config@.player_num,
            q@ is Query,
            q@->query_to.0 < config@.player_num,
            forall|k: int|
                0 <= k < states@.len() ==> deal_shaped(config@, (#[trigger] states@[k])@),
            out@.len() == i,
            forall|k: int|
                0 <= k < i ==> out@[k] as nat == query_answers_spec(
                    config@,
                    deals_view(states@),
                    q@,
                )[k],
        decreases states.len() - i,
    {
        proof {
            assert(deals_view(states@)[i as int] == states@[i as int]@);
        }
        let a = answer(config, &states[i], q.clone(), who);
        match a {
            MoveAns::Query { who: _, query_to: _, query_sort: _, ans } => {
                out.push(ans);
            },
            MoveAns::Declare { who: _, declare: _, ans: _ } => {
                proof {
                    assert(false);
                }
                out.push(0);
            },
        }
        i += 1;
    }
    proof {
        assert(counts_view(out@) =~= query_answers_spec(config@, deals_view(states@), q@));
    }
    out
}

/// Are all the numbers of `v` the same?
pub open spec fn all_same(v: Seq<nat>) -> bool {
    forall|i: int, j: int| 0 <= i < v.len() && 0 <= j < v.len() ==> v[i] == v[j]
}

/// Are all the numbers of `v` the same?
pub fn is_all_same(v: &Vec<usize>) -> (r: bool)
    ensures
        r == all_same(counts_view(v@)),
{
    let ghost s = counts_view(v@);
    let mut i: usize = 1;
    while i < v.len()
        invariant
            1 <= i,
            s == counts_view(v@),
            forall|k: int| 0 <= k < i && k < s.len() ==> (#[trigger] s[k]) == s[0],
        decreases v.len() - i,
    {
        if v[i] != v[0] {
            proof {
                assert(s[i as int] != s[0]);
            }
            return false;
        }
        proof {
            assert(s[i as int] == s[0]);
        }
        i += 1;
    }
    true
}

/// How often `b` is among `s`.
pub open spec fn count_of(s: Seq<nat>, b: int) -> nat
    decreases s.len(),
{
    if s.len() == 0 {
        0
    } else {
        count_of(s.drop_last(), b) + if s.last() == b {
            1nat
        } else {
            0nat
        }
    }
}

/// `hist[b]` says how often `b` is among `answers`, and `hist` is no longer
/// than it must be for that.
pub open spec fn is_tally(hist: Seq<usize>, answers: Seq<nat>) -> bool {
    &&& forall|b: int| 0 <= b < hist.len() ==> (#[trigger] hist[b]) == count_of(answers, b)
    &&& forall|i: int| 0 <= i < answers.len() ==> (#[trigger] answers[i]) < hist.len()
    &&& hist.len() > 0 ==> hist.last() > 0
}

/// A number that is not among `s` is counted zero times, and no number
/// more often than `s` is long.
pub proof fn lemma_count_of(s: Seq<nat>, b: int)
    ensures
        count_of(s, b) <= s.len(),
        (forall|i: int| 0 <= i < s.len() ==> s[i] != b) ==> count_of(s, b) == 0,
    decreases s.len(),
{
    if s.len() > 0 {
        lemma_count_of(s.drop_last(), b);
        if forall|i: int| 0 <= i < s.len() ==> s[i] != b {
            assert forall|i: int| 0 <= i < s.drop_last().len() implies s.drop_last()[i] != b by {
                assert(s[i] != b);
            }
        }
    }
}

/// The tally of `answers`: for each number from zero up to the largest of
/// them, how often it is among them.
pub fn tally(answers: &Vec<usize>) -> (r: Vec<usize>)
    ensures
        is_tally(r@, counts_view(answers@)),
{
    let ghost all = counts_view(answers@);
    let mut hist: Vec<usize> = Vec::new();
    let mut i: usize = 0;
    while i < answers.len()
        invariant
            i <= answers.len(),
            all == counts_view(answers@),
            is_tally(hist@, all.take(i as int)),
        decreases answers.len() - i,
    {
        let a = answers[i];
        let ghost seen = all.take(i as int);
        let ghost start = hist@;
        proof {
            assert(all[i as int] == a as nat);
        }
        while hist.len() <= a
            invariant
                i < answers.len(),
                seen == all.take(i as int),
                start.len() <= hist@.len(),
                hist@.len() > start.len() ==> hist@.len() <= a + 1,
                forall|b: int| 0 <= b < hist@.len() ==> (#[trigger] hist@[b]) == count_of(seen, b),
                forall|k: int| 0 <= k < seen.len() ==> (#[trigger] seen[k]) < start.len(),
                forall|b: int| 0 <= b < start.len() ==> hist@[b] == start[b],
                start.len() > 0 ==> start.last() > 0,
            decreases a + 1 - hist@.len(),
        {
            proof {
                lemma_count_of(seen, hist@.len() as int);
            }
            hist.push(0);
        }
        proof {
            let next = all.take(i as int + 1);
            assert(next.drop_last() =~= seen);
            assert(next.last() == a as nat);
            lemma_count_of(seen, a as int);
            assert forall|b: int| 0 <= b < hist@.len() implies count_of(next, b) == count_of(
                seen,
                b,
            ) + if b == a {
                1nat
            } else {
                0nat
            } by {}
        }
        let n = hist[a];
        hist[a] = n + 1;
        proof {
            let next = all.take(i as int + 1);
            assert forall|k: int| 0 <= k < next.len() implies (#[trigger] next[k]) < hist@.len() by {
                if k < i {
                    assert(seen[k] < start.len());
                }
            }
        }
        i += 1;
    }
    proof {
        assert(all.take(answers.len() as int) =~= all);
    }
    hist
}

/// Does the query `q` get the same answer on every deal of `states`? Then
/// to ask it teaches nothing.
pub open spec fn uninformative(cfg: ConfigView, states: Seq<Seq<PlCardView>>, q: MoveView) -> bool {
    all_same(query_answers_spec(cfg, states, q))
}

/// The queries worth asking, each with the tally of its answers, as plain
/// values.
pub open spec fn candidates_view(v: Seq<(Move, Vec<usize>)>) -> Seq<MoveView> {
    v.map_values(|c: (Move, Vec<usize>)| c.0@)
}

/// The queries open to the player on turn whose answer differs between two
/// of the deals `states`, in the order of `movable_query`, each with the
/// tally of the answers that it gets on `states`.
pub fn entropy_candidates(info: &Info, states: &Vec<Distr>) -> (r: Vec<(Move, Vec<usize>)>)
    requires
        info_ready(info@),
        forall|i: int|
            0 <= i < states@.len() ==> deal_shaped(info@.config, (#[trigger] states@[i])@),
    ensures
        candidates_view(r@) == movable_query_spec(info@.config, info@.query_answer).filter(
            |q: MoveView| !uninformative(info@.config, deals_view(states@), q),
        ),
        forall|i: int|
            0 <= i < r@.len() ==> is_tally(
                (#[trigger] r@[i]).1@,
                query_answers_spec(info@.config, deals_view(states@), r@[i].0@),
            ),
        forall|i: int|
            0 <= i < r@.len() ==> !uninformative(
                info@.config,
                deals_view(states@),
                (#[trigger] r@[i]).0@,
            ),
{
    let ghost cfg = info@.config;
    let ghost deals = deals_view(states@);
    let ghost keep = |q: MoveView| !uninformative(cfg, deals, q);
    let who = info.player_turn();
    let queries = info.movable_query();
    let ghost src = moves_view(queries@);
    let mut out: Vec<(Move, Vec<usize>)> = Vec::new();
    let mut i: usize = 0;
    proof {
        reveal(Seq::filter);
        assert(src.take(0).filter(keep) =~= Seq::<MoveView>::empty());
        assert(candidates_view(out@) =~= Seq::<MoveView>::empty());
    }
    while i < queries.len()
        invariant
            i <= queries.len(),
            cfg == info@.config,
            cfg.wf(),
            who.0 < cfg.player_num,
            deals == deals_view(states@),
            keep == |q: MoveView| !uninformative(cfg, deals, q),
            src == moves_view(queries@),
            forall|m: MoveView|
                src.contains(m) <==> (m is Query && legal_move(cfg, info@.query_answer, m)),
            forall|k: int| 0 <= k < states@.len() ==> deal_shaped(cfg, (#[trigger] states@[k])@),
            candidates_view(out@) == src.take(i as int).filter(keep),
            forall|k: int|
                0 <= k < out@.len() ==> is_tally(
                    (#[trigger] out@[k]).1@,
                    query_answers_spec(cfg, deals, out@[k].0@),
                ),
            forall|k: int| 0 <= k < out@.len() ==> !uninformative(cfg, deals, (#[trigger] out@[k]).0@),
        decreases queries.len() - i,
    {
        let q = &queries[i];
        proof {
            crate::filters::lemma_filter_step(src, keep, i as int);
            assert(src[i as int] == q@);
            assert(src.contains(q@));
        }
        let answers = query_answers(&info.config, states, q, who);
        if !is_all_same(&answers) {
            let hist = tally(&answers);
            let ghost before = candidates_view(out@);
            let ghost old_out = out@;
            out.push((q.clone(), hist));
            proof {
                assert(candidates_view(out@) =~= before.push(q@));
                assert forall|k: int| 0 <= k < out@.len() implies is_tally(
                    (#[trigger] out@[k]).1@,
                    query_answers_spec(cfg, deals, out@[k].0@),
                ) && !uninformative(cfg, deals, out@[k].0@) by {
                    if k < old_out.len() {
                        assert(out@[k] == old_out[k]);
                    }
                }
            }
        }
        i += 1;
    }
    proof {
        assert(src.take(queries.len() as int) =~= src);
    }
    out
}

/// The declaration that is right on the deal `d`: the head of `player`.
pub open spec fn head_move(d: Seq<PlCardView>, player: Player) -> MoveView {
    MoveView::Declare { declare: d[player.0 as int].head }
}

/// On how many of `states` the declaration `m` is right.
pub open spec fn head_count(states: Seq<Seq<PlCardView>>, player: Player, m: MoveView) -> nat
    decreases states.len(),
{
    if states.len() == 0 {
        0
    } else {
        head_count(states.drop_last(), player, m) + if head_move(states.last(), player) == m {
            1nat
        } else {
            0nat
        }
    }
}

/// On how many of `states` the right declaration is among `open`.
pub open spec fn open_count(
    states: Seq<Seq<PlCardView>>,
    player: Player,
    open: Seq<MoveView>,
) -> nat
    decreases states.len(),
{
    if states.len() == 0 {
        0
    } else {
        open_count(states.drop_last(), player, open) + if open.contains(
            head_move(states.last(), player),
        ) {
            1nat
        } else {
            0nat
        }
    }
}

/// Among the first `upto` of `states`, the deal at `k` is the first whose
/// right declaration is open and right on as many of all the `states` as
/// any open one.
pub open spec fn likeliest_at(
    states: Seq<Seq<PlCardView>>,
    player: Player,
    open: Seq<MoveView>,
    upto: int,
    k: int,
) -> bool {
    &&& 0 <= k < upto
    &&& open.contains(head_move(states[k], player))
    &&& forall|j: int|
        0 <= j < upto && open.contains(head_move(#[trigger] states[j], player)) ==> head_count(
            states,
            player,
            head_move(states[j], player),
        ) <= head_count(states, player, head_move(states[k], player))
    &&& forall|j: int|
        0 <= j < k && open.contains(head_move(#[trigger] states[j], player)) ==> head_count(
            states,
            player,
            head_move(states[j], player),
        ) < head_count(states, player, head_move(states[k], player))
}

/// On how many of `states` the declaration `m` is right.
pub fn count_head(states: &Vec<Distr>, player: Player, m: &Vec<Card>) -> (r: usize)
    requires
        forall|i: int| 0 <= i < states@.len() ==> player.0 < (#[trigger] states@[i])@.len(),
    ensures
        r == head_count(deals_view(states@), player, MoveView::Declare { declare: m@ }),
{
    let ghost deals = deals_view(states@);
    let ghost mv = MoveView::Declare { declare: m@ };
    let mut n: usize = 0;
    let mut i: usize = 0;
    while i < states.len()
        invariant
            i <= states.len(),
            deals == deals_view(states@),
            mv == (MoveView::Declare { declare: m@ }),
            forall|k: int| 0 <= k < states@.len() ==> player.0 < (#[trigger] states@[k])@.len(),
            n == head_count(deals.take(i as int), player, mv),
            n <= i,
        decreases states.len() - i,
    {
        proof {
            assert(deals.take(i as int + 1).drop_last() =~= deals.take(i as int));
            assert(deals[i as int] == states@[i as int]@);
        }
        if equal_cards(states[i].players_head(player), m) {
            n += 1;
        }
        i += 1;
    }
    proof {
        assert(deals.take(states.len() as int) =~= deals);
    }
    n
}

/// The best guess when no question is left: of the declarations in `open`,
/// the one that is right on the most of `states`, and of several such the
/// one that comes first among `states`. With it come the number of deals
/// on which it is right, and the number of deals on which any declaration
/// in `open` is right. There is no guess if no such deal is there.
pub fn likeliest_declare(states: &Vec<Distr>, player: Player, open: &Vec<Move>) -> (r: Option<
    (Move, usize, usize),
>)
    requires
        forall|i: int| 0 <= i < states@.len() ==> player.0 < (#[trigger] states@[i])@.len(),
    ensures
        match r {
            None => forall|j: int|
                0 <= j < states@.len() ==> !moves_view(open@).contains(
                    head_move(#[trigger] deals_view(states@)[j], player),
                ),
            Some((m, num, num_all)) => {
                &&& exists|k: int|
                    #[trigger] likeliest_at(
                        deals_view(states@),
                        player,
                        moves_view(open@),
                        states@.len() as int,
                        k,
                    ) && m@ == head_move(deals_view(states@)[k], player)
                &&& num == head_count(deals_view(states@), player, m@)
                &&& num_all == open_count(deals_view(states@), player, moves_view(open@))
            },
        },
{
    let ghost deals = deals_view(states@);
    let ghost legal = moves_view(open@);
    let mut best: Option<(usize, usize)> = None;
    let mut total: usize = 0;
    let mut i: usize = 0;
    while i < states.len()
        invariant
            i <= states.len(),
            deals == deals_view(states@),
            legal == moves_view(open@),
            forall|k: int| 0 <= k < states@.len() ==> player.0 < (#[trigger] states@[k])@.len(),
            total == open_count(deals.take(i as int), player, legal),
            total <= i,
            match best {
                None => forall|j: int|
                    0 <= j < i ==> !legal.contains(head_move(#[trigger] deals[j], player)),
                Some((k, c)) => likeliest_at(deals, player, legal, i as int, k as int) && c
                    == head_count(deals, player, head_move(deals[k as int], player)),
            },
        decreases states.len() - i,
    {
        proof {
            assert(deals.take(i as int + 1).drop_last() =~= deals.take(i as int));
            assert(deals[i as int] == states@[i as int]@);
        }
        let head = states[i].players_head(player);
        let m = Move::Declare { declare: copy_cards(head) };
        if contains_move(open, &m) {
            total += 1;
            let c = count_head(states, player, head);
            match best {
                None => {
                    best = Some((i, c));
                },
                Some((_, most)) => {
                    if c > most {
                        best = Some((i, c));
                    }
                },
            }
        }
        i += 1;
    }
    proof {
        assert(deals.take(states.len() as int) =~= deals);
    }
    match best {
        None => None,
        Some((k, c)) => {
            proof {
                assert(deals[k as int] == states@[k as int]@);
            }
            let head = states[k].players_head(player);
            Some((Move::Declare { declare: copy_cards(head) }, c, total))
        },
    }
}

/// The agent that asks the question whose answers have the least entropy
/// over the deals it reckons with.
#[derive(Debug, Clone, Copy, PartialEq, Eq, Structural)]
pub struct UseEntropyPlayer;

impl Default for UseEntropyPlayer {
    fn default() -> (r: Self)
        ensures
            r == UseEntropyPlayer,
    {
        UseEntropyPlayer
    }
}

/// The agent that looks `depth` moves ahead. From five moves on the search
/// takes too long to be of use.
#[derive(Debug, Clone, Copy, PartialEq, Eq, Structural)]
pub struct SearchPlayer {
    pub depth: usize,
}

impl SearchPlayer {
    /// The agent that looks `depth` moves ahead.
    pub fn new(depth: usize) -> (r: SearchPlayer)
        ensures
            r.depth == depth,
    {
        SearchPlayer { depth }
    }
}

/// What `UseEntropyPlayer` has to do on its turn.
#[derive(Debug, PartialEq)]
pub enum EntropyPlan {
    /// It is sure of its head: it declares it.
    Sure(Move),
    /// It is not sure, and these questions are worth asking: it asks the
    /// one whose tally has the least entropy, of several such the first.
    Weigh(Vec<(Move, Vec<usize>)>),
    /// No question is worth asking: it makes its best guess.
    Guess(Move),
    /// No question is worth asking and no guess is open.
    Stuck,
}

/// Is `plan` what `UseEntropyPlayer` has to do when it is told `info`,
/// reckons with the deals `belief`, and may still make the declarations
/// `declares`?
pub open spec fn is_entropy_plan(
    info: InfoView,
    belief: Seq<Seq<PlCardView>>,
    declares: Seq<MoveView>,
    plan: EntropyPlan,
) -> bool {
    let actor = info.config.player_turn(info.query_answer.len());
    let worth = movable_query_spec(info.config, info.query_answer).filter(
        |q: MoveView| !uninformative(info.config, belief, q),
    );
    match plan {
        EntropyPlan::Sure(m) => answerable_spec(belief, actor) == Some(m@),
        EntropyPlan::Weigh(c) => {
            &&& answerable_spec(belief, actor).is_none()
            &&& c@.len() > 0
            &&& candidates_view(c@) == worth
            &&& forall|i: int|
                0 <= i < c@.len() ==> is_tally(
                    (#[trigger] c@[i]).1@,
                    query_answers_spec(info.config, belief, c@[i].0@),
                )
        },
        EntropyPlan::Guess(m) => {
            &&& answerable_spec(belief, actor).is_none()
            &&& worth.len() == 0
            &&& exists|k: int|
                #[trigger] likeliest_at(belief, actor, declares, belief.len() as int, k) && m@
                    == head_move(belief[k], actor)
        },
        EntropyPlan::Stuck => {
            &&& answerable_spec(belief, actor).is_none()
            &&& worth.len() == 0
            &&& forall|j: int|
                0 <= j < belief.len() ==> !declares.contains(head_move(#[trigger] belief[j], actor))
        },
    }
}

/// Does `plan` name only moves that the rules leave open? Of a head that
/// the player is sure of, this is asked only while the game runs.
pub open spec fn entropy_plan_legal(info: InfoView, plan: EntropyPlan) -> bool {
    match plan {
        EntropyPlan::Sure(m) => running(info.config, info.query_answer) ==> legal_move(
            info.config,
            info.query_answer,
            m@,
        ),
        EntropyPlan::Weigh(c) => forall|i: int|
            0 <= i < c@.len() ==> legal_move(
                info.config,
                info.query_answer,
                (#[trigger] c@[i]).0@,
            ),
        EntropyPlan::Guess(m) => legal_move(info.config, info.query_answer, m@),
        EntropyPlan::Stuck => true,
    }
}

/// What `UseEntropyPlayer` has to do when it is told `info`.
pub fn entropy_plan(info: &Info) -> (r: EntropyPlan)
    requires
        info_ready(info@),
    ensures
        is_entropy_plan(
            info@,
            possible_states_spec(info@.config, info@.query_answer, info@.view),
            movable_declare_spec(
                info@.config,
                info@.query_answer,
                arrangements(info@.config.cards_num(), info@.config.head_num),
            ),
            r,
        ),
        entropy_plan_legal(info@, r),
{
    if let Some(sure) = answerable_info(info) {
        return EntropyPlan::Sure(sure);
    }
    let who = info.player_turn();
    proof {
        assert(info@.query_answer.len() == info.query_answer@.len());
    }
    let states = possible_states(&info.config, &info.query_answer, &info.view);
    proof {
        assert forall|i: int| 0 <= i < states@.len() implies who.0 < (#[trigger] states@[i])@.len() by {
            assert(deal_shaped(info@.config, states@[i]@));
        }
    }
    let worth = entropy_candidates(info, &states);
    proof {
        assert(candidates_view(worth@).len() == worth@.len());
        let queries = movable_query_spec(info@.config, info@.query_answer);
        crate::filters::lemma_filter_members(
            queries,
            |q: MoveView| !uninformative(info@.config, deals_view(states@), q),
        );
        assert forall|i: int| 0 <= i < worth@.len() implies legal_move(
            info@.config,
            info@.query_answer,
            (#[trigger] worth@[i]).0@,
        ) by {
            assert(candidates_view(worth@)[i] == worth@[i].0@);
            assert(candidates_view(worth@).contains(worth@[i].0@));
            crate::defs::lemma_movable_query_members(
                info@.config,
                info@.query_answer,
                worth@[i].0@,
            );
        }
    }
    if worth.len() > 0 {
        return EntropyPlan::Weigh(worth);
    }
    let declares = info.movable_declare();
    match likeliest_declare(&states, who, &declares) {
        Some((guess, _, _)) => {
            proof {
                assert(moves_view(declares@).contains(guess@));
            }
            EntropyPlan::Guess(guess)
        },
        None => EntropyPlan::Stuck,
    }
}

/// What the agent that attacks has to do on its turn.
#[derive(Debug, PartialEq)]
pub enum UnfairPlan {
    /// It is sure of its head: it declares it.
    Sure(Move),
    /// It is its first turn: it asks as `UseEntropyPlayer` would.
    Ask,
    /// Its best guess, the number of deals on which the guess is right,
    /// and the number of deals on which any open declaration is right. It
    /// declares the guess if the share of the first in the second reaches
    /// its threshold, and asks as `UseEntropyPlayer` would if not.
    Attack(Move, usize, usize),
    /// No guess is open.
    Stuck,
}

/// Is `plan` what the agent that attacks has to do when it is told `info`,
/// reckons with the deals `belief`, may still make the declarations
/// `declares`, and has or has not moved before?
pub open spec fn is_unfair_plan(
    info: InfoView,
    belief: Seq<Seq<PlCardView>>,
    declares: Seq<MoveView>,
    first: bool,
    plan: UnfairPlan,
) -> bool {
    let actor = info.config.player_turn(info.query_answer.len());
    match plan {
        UnfairPlan::Sure(m) => answerable_spec(belief, actor) == Some(m@),
        UnfairPlan::Ask => answerable_spec(belief, actor).is_none() && first,
        UnfairPlan::Attack(m, num, num_all) => {
            &&& answerable_spec(belief, actor).is_none()
            &&& !first
            &&& exists|k: int|
                #[trigger] likeliest_at(belief, actor, declares, belief.len() as int, k) && m@
                    == head_move(belief[k], actor)
            &&& num == head_count(belief, actor, m@)
            &&& num_all == open_count(belief, actor, declares)
        },
        UnfairPlan::Stuck => {
            &&& answerable_spec(belief, actor).is_none()
            &&& !first
            &&& forall|j: int|
                0 <= j < belief.len() ==> !declares.contains(head_move(#[trigger] belief[j], actor))
        },
    }
}

/// Does `plan` name only moves that the rules leave open? Of a head that
/// the player is sure of, this is asked only while the game runs.
pub open spec fn unfair_plan_legal(info: InfoView, plan: UnfairPlan) -> bool {
    match plan {
        UnfairPlan::Sure(m) => running(info.config, info.query_answer) ==> legal_move(
            info.config,
            info.query_answer,
            m@,
        ),
        UnfairPlan::Attack(m, num, num_all) => legal_move(info.config, info.query_answer, m@),
        UnfairPlan::Ask => true,
        UnfairPlan::Stuck => true,
    }
}

/// What the agent that attacks has to do when it is told `info`; `first`
/// says that it has not moved before.
pub fn unfair_plan(info: &Info, first: bool) -> (r: UnfairPlan)
    requires
        info_ready(info@),
    ensures
        is_unfair_plan(
            info@,
            possible_states_spec(info@.config, info@.query_answer, info@.view),
            movable_declare_spec(
                info@.config,
                info@.query_answer,
                arrangements(info@.config.cards_num(), info@.config.head_num),
            ),
            first,
            r,
        ),
        unfair_plan_legal(info@, r),
{
    if let Some(sure) = answerable_info(info) {
        return UnfairPlan::Sure(sure);
    }
    if first {
        return UnfairPlan::Ask;
    }
    let who = info.player_turn();
    proof {
        assert(info@.query_answer.len() == info.query_answer@.len());
    }
    let states = possible_states(&info.config, &info.query_answer, &info.view);
    proof {
        assert forall|i: int| 0 <= i < states@.len() implies who.0 < (#[trigger] states@[i])@.len() by {
            assert(deal_shaped(info@.config, states@[i]@));
        }
    }
    let declares = info.movable_declare();
    match likeliest_declare(&states, who, &declares) {
        Some((guess, num, num_all)) => {
            proof {
                assert(moves_view(declares@).contains(guess@));
            }
            UnfairPlan::Attack(guess, num, num_all)
        },
        None => UnfairPlan::Stuck,
    }
}

/// What may follow a question: for each deal that the player on turn
/// reckons with, the answer on that deal and what the next player would
/// then see.
pub open spec fn is_outcomes(
    cfg: ConfigView,
    history: Seq<MoveAnsView>,
    belief: Seq<Seq<PlCardView>>,
    q: MoveView,
    outcomes: Seq<(MoveAns, View)>,
) -> bool {
    let actor = cfg.player_turn(history.len());
    let next = cfg.player_turn(history.len() + 1);
    &&& outcomes.len() == belief.len()
    &&& forall|j: int|
        0 <= j < outcomes.len() ==> {
            &&& (#[trigger] outcomes[j]).0@ == answer_spec(cfg, belief[j], q, actor)
            &&& outcomes[j].1@ == seen_by(belief[j], next)
            &&& outcomes[j].0@.seated(cfg)
            &&& sight_of(cfg, outcomes[j].1@, next)
        }
}

/// One step of the look-ahead of `SearchPlayer`: for each of `questions`,
/// in their order, what may follow it.
pub fn search_branches(
    config: &GameConfig,
    query_answer: &Vec<MoveAns>,
    view: &View,
    questions: &Vec<Move>,
) -> (r: Vec<(Move, Vec<(MoveAns, View)>)>)
    requires
        config@.wf(),
        config@.player_num > 0,
        sight_of(config@, view@, config@.player_turn(query_answer@.len())),
        seated(config@, history_view(query_answer@)),
        query_answer@.len() < usize::MAX,
        forall|i: int|
            0 <= i < questions@.len() ==> (#[trigger] questions@[i])@ is Query
                && questions@[i]@->query_to.0 < config@.player_num,
    ensures
        r@.len() == questions@.len(),
        forall|i: int|
            0 <= i < r@.len() ==> (#[trigger] r@[i]).0@ == questions@[i]@ && is_outcomes(
                config@,
                history_view(query_answer@),
                possible_states_spec(config@, history_view(query_answer@), view@),
                questions@[i]@,
                r@[i].1@,
            ),
{
    let ghost cfg = config@;
    let ghost h = history_view(query_answer@);
    proof {
        assert(h.len() == query_answer@.len());
    }
    let now_player = config.player_turn(query_answer.len());
    let next_player = config.player_turn(query_answer.len() + 1);
    let states = possible_states(config, query_answer, view);
    let ghost belief = deals_view(states@);
    let mut out: Vec<(Move, Vec<(MoveAns, View)>)> = Vec::new();
    let mut i: usize = 0;
    while i < questions.len()
        invariant
            i <= questions.len(),
            cfg == config@,
            cfg.wf(),
            h == history_view(query_answer@),
            query_answer@.len() < usize::MAX,
            now_player == cfg.player_turn(h.len()),
            next_player == cfg.player_turn(h.len() + 1),
            now_player.0 < cfg.player_num,
            next_player.0 < cfg.player_num,
            belief == deals_view(states@),
            forall|k: int| 0 <= k < states@.len() ==> deal_shaped(cfg, (#[trigger] states@[k])@),
            forall|k: int|
                0 <= k < questions@.len() ==> (#[trigger] questions@[k])@ is Query
                    && questions@[k]@->query_to.0 < cfg.player_num,
            out@.len() == i,
            forall|k: int|
                0 <= k < i ==> (#[trigger] out@[k]).0@ == questions@[k]@ && is_outcomes(
                    cfg,
                    h,
                    belief,
                    questions@[k]@,
                    out@[k].1@,
                ),
        decreases questions.len() - i,
    {
        let q = &questions[i];
        let mut outcomes: Vec<(MoveAns, View)> = Vec::new();
        let mut j: usize = 0;
        while j < states.len()
            invariant
                j <= states.len(),
                cfg == config@,
                cfg.wf(),
                now_player == cfg.player_turn(h.len()),
                next_player == cfg.player_turn(h.len() + 1),
                now_player.0 < cfg.player_num,
                next_player.0 < cfg.player_num,
                belief == deals_view(states@),
                forall|k: int|
                    0 <= k < states@.len() ==> deal_shaped(cfg, (#[trigger] states@[k])@),
                q@ is Query,
                q@->query_to.0 < cfg.player_num,
                outcomes@.len() == j,
                forall|k: int|
                    0 <= k < j ==> {
                        &&& (#[trigger] outcomes@[k]).0@ == answer_spec(
                            cfg,
                            belief[k],
                            q@,
                            now_player,
                        )
                        &&& outcomes@[k].1@ == seen_by(belief[k], next_player)
                        &&& outcomes@[k].0@.seated(cfg)
                        &&& sight_of(cfg, outcomes@[k].1@, next_player)
                    },
            decreases states.len() - j,
        {
            proof {
                assert(belief[j as int] == states@[j as int]@);
                crate::defs::lemma_seen_by_shaped(cfg, belief[j as int], next_player);
            }
            let ans = answer(config, &states[j], q.clone(), now_player);
            let sight = states[j].cards_from_player(next_player);
            outcomes.push((ans, sight));
            j += 1;
        }
        proof {
            assert(belief.len() == states@.len());
        }
        out.push((q.clone(), outcomes));
        i += 1;
    }
    out
}

} // verus!
