//! The rules of the game: the configuration, the deal and what a player
//! sees of it, the moves and their answers, and the game itself, which
//! holds the deal and the history and decides which moves it takes.

use crate::abstract_game::{ImperfectInfoGame, Player};
use crate::arrange::{arrangements, index_permutations, is_arrangement, lists_arrangements};
use crate::cards::{
    all_in_deck, copy_cards, distinct, equal_cards, in_deck, increasing, is_increasing,
    lemma_place, no_common, no_common_card, place, same_cards, take_sorted, within,
};
use crate::chance::random_below;
use crate::filters::{lemma_filter_members, lemma_filter_step};
use rand::rngs::SmallRng;
use vstd::prelude::*;
use vstd::std_specs::cmp::PartialEqSpecImpl;
use vstd::view::View as _;

verus! {

/// An attribute that a card may bear, known by its label.
#[derive(Debug, PartialOrd, Ord, Hash)]
pub struct Sort(pub String);

impl vstd::view::View for Sort {
    type V = Seq<char>;

    open spec fn view(&self) -> Seq<char> {
        self.0@
    }
}

impl Clone for Sort {
    fn clone(&self) -> (r: Self)
        ensures
            r@ == self@,
    {
        Sort(self.0.clone())
    }
}

impl PartialEq for Sort {
    fn eq(&self, other: &Self) -> (r: bool) {
        self.0 == other.0
    }
}

impl Eq for Sort {}

impl PartialEqSpecImpl for Sort {
    open spec fn obeys_eq_spec() -> bool {
        true
    }

    open spec fn eq_spec(&self, other: &Self) -> bool {
        self@ == other@
    }
}

/// A card, known by its number in the deck. What sorts it bears is the
/// configuration's business.
#[derive(Debug, Clone, Copy, PartialEq, Eq, Structural, PartialOrd, Ord, Hash)]
pub struct Card(pub usize);

/// The labels of a list of sorts.
pub open spec fn sort_labels(v: Seq<Sort>) -> Seq<Seq<char>> {
    v.map_values(|s: Sort| s@)
}

/// The labels of each card's sorts.
pub open spec fn card_labels(v: Seq<Vec<Sort>>) -> Seq<Seq<Seq<char>>> {
    v.map_values(|c: Vec<Sort>| sort_labels(c@))
}

/// Is a sort of this label among `v`?
pub fn has_label(v: &Vec<Sort>, s: &Sort) -> (r: bool)
    ensures
        r == sort_labels(v@).contains(s@),
{
    let mut i: usize = 0;
    while i < v.len()
        invariant
            i <= v.len(),
            forall|j: int| 0 <= j < i ==> sort_labels(v@)[j] != s@,
        decreases v.len() - i,
    {
        if v[i] == *s {
            proof {
                assert(sort_labels(v@)[i as int] == s@);
            }
            return true;
        }
        i += 1;
    }
    false
}

/// A copy of a list of sorts.
pub fn copy_sorts(v: &Vec<Sort>) -> (r: Vec<Sort>)
    ensures
        sort_labels(r@) == sort_labels(v@),
{
    let mut out: Vec<Sort> = Vec::new();
    let mut i: usize = 0;
    while i < v.len()
        invariant
            i <= v.len(),
            out@.len() == i,
            forall|j: int| 0 <= j < i ==> out@[j]@ == v@[j]@,
        decreases v.len() - i,
    {
        out.push(v[i].clone());
        i += 1;
    }
    proof {
        assert(sort_labels(out@) =~= sort_labels(v@));
    }
    out
}

/// The rules of one table, as plain values: the sorts there are, the sorts
/// that each card bears, and the numbers of players and of cards per head
/// and hand.
pub struct ConfigView {
    pub sorts: Seq<Seq<char>>,
    pub cards_sort: Seq<Seq<Seq<char>>>,
    pub player_num: nat,
    pub head_num: nat,
    pub hand_num: nat,
}

impl ConfigView {
    pub open spec fn cards_num(self) -> nat {
        self.cards_sort.len()
    }

    /// No sort is listed twice, every sort that a card bears is listed, and
    /// the deck has a card for every place in a hand or on a head.
    pub open spec fn wf(self) -> bool {
        &&& (self.head_num + self.hand_num) * self.player_num <= self.cards_num()
        &&& self.sorts.no_duplicates()
        &&& forall|c: int, j: int|
            0 <= c < self.cards_sort.len() && 0 <= j < self.cards_sort[c].len()
                ==> self.sorts.contains(#[trigger] self.cards_sort[c][j])
    }

    /// Does `card` bear `sort`?
    pub open spec fn has_sort(self, card: Card, sort: Seq<char>) -> bool {
        self.cards_sort[card.0 as int].contains(sort)
    }

    /// Who moves when `n` moves have been made.
    pub open spec fn player_turn(self, n: nat) -> Player {
        Player((n % self.player_num) as usize)
    }
}

/// The rules of one table. A value made by `new` never changes.
#[derive(Debug, PartialEq)]
pub struct GameConfig {
    sorts: Vec<Sort>,
    cards_sort: Vec<Vec<Sort>>,
    player_num: usize,
    head_num: usize,
    hand_num: usize,
}

impl vstd::view::View for GameConfig {
    type V = ConfigView;

    closed spec fn view(&self) -> ConfigView {
        ConfigView {
            sorts: sort_labels(self.sorts@),
            cards_sort: card_labels(self.cards_sort@),
            player_num: self.player_num as nat,
            head_num: self.head_num as nat,
            hand_num: self.hand_num as nat,
        }
    }
}

impl Clone for GameConfig {
    fn clone(&self) -> (r: Self)
        ensures
            r@ == self@,
    {
        let mut cards_sort: Vec<Vec<Sort>> = Vec::new();
        let mut i: usize = 0;
        while i < self.cards_sort.len()
            invariant
                i <= self.cards_sort.len(),
                cards_sort@.len() == i,
                forall|j: int|
                    0 <= j < i ==> sort_labels(cards_sort@[j]@) == sort_labels(
                        self.cards_sort@[j]@,
                    ),
            decreases self.cards_sort.len() - i,
        {
            cards_sort.push(copy_sorts(&self.cards_sort[i]));
            i += 1;
        }
        proof {
            assert(card_labels(cards_sort@) =~= card_labels(self.cards_sort@));
        }
        GameConfig {
            sorts: copy_sorts(&self.sorts),
            cards_sort,
            player_num: self.player_num,
            head_num: self.head_num,
            hand_num: self.hand_num,
        }
    }
}

/// Does `(head_num + hand_num) * player_num` exceed `cards_num`?
fn deck_too_small(cards_num: usize, player_num: usize, head_num: usize, hand_num: usize) -> (r:
    bool)
    ensures
        r == ((head_num + hand_num) * player_num > cards_num),
{
    if player_num == 0 {
        assert((head_num + hand_num) * 0 == 0) by (nonlinear_arith);
        return false;
    }
    match head_num.checked_add(hand_num) {
        None => {
            assert((head_num + hand_num) * player_num > cards_num) by (nonlinear_arith)
                requires
                    head_num + hand_num > usize::MAX,
                    player_num >= 1,
                    cards_num <= usize::MAX,
            ;
            true
        },
        Some(each) => match each.checked_mul(player_num) {
            None => true,
            Some(needed) => needed > cards_num,
        },
    }
}

/// Is no label of `v` listed twice?
fn distinct_labels(v: &Vec<Sort>) -> (r: bool)
    ensures
        r == sort_labels(v@).no_duplicates(),
{
    let mut i: usize = 0;
    while i < v.len()
        invariant
            i <= v.len(),
            forall|a: int, b: int| 0 <= a < b < i ==> sort_labels(v@)[a] != sort_labels(v@)[b],
        decreases v.len() - i,
    {
        let mut j: usize = 0;
        while j < i
            invariant
                j <= i < v.len(),
                forall|a: int| 0 <= a < j ==> sort_labels(v@)[a] != sort_labels(v@)[i as int],
            decreases i - j,
        {
            if v[j] == v[i] {
                proof {
                    assert(sort_labels(v@)[j as int] == sort_labels(v@)[i as int]);
                }
                return false;
            }
            j += 1;
        }
        i += 1;
    }
    true
}

/// Why parts do not make well-formed rules.
#[derive(Debug, Clone, Copy, PartialEq, Eq, Structural)]
pub enum InvalidConfiguration {
    /// The deck has fewer cards than the heads and hands need.
    TooFewCards,
    /// A sort is listed twice.
    SortTwice,
    /// A card bears a sort that is not listed.
    UnknownSort,
}

impl ConfigView {
    /// Why these are not well-formed rules, if they are not: the first of
    /// the reasons that applies.
    pub open spec fn refusal(self) -> Option<InvalidConfiguration> {
        if (self.head_num + self.hand_num) * self.player_num > self.cards_num() {
            Some(InvalidConfiguration::TooFewCards)
        } else if !self.sorts.no_duplicates() {
            Some(InvalidConfiguration::SortTwice)
        } else if !(forall|c: int, j: int|
            0 <= c < self.cards_sort.len() && 0 <= j < self.cards_sort[c].len()
                ==> self.sorts.contains(#[trigger] self.cards_sort[c][j])) {
            Some(InvalidConfiguration::UnknownSort)
        } else {
            None
        }
    }

    /// Rules are well-formed when there is no reason to refuse them.
    pub proof fn lemma_refusal(self)
        ensures
            self.refusal().is_none() <==> self.wf(),
    {
    }
}

/// Why these parts do not make well-formed rules, if they do not.
fn parts_refusal(
    sorts: &Vec<Sort>,
    cards_sort: &Vec<Vec<Sort>>,
    player_num: usize,
    head_num: usize,
    hand_num: usize,
) -> (r: Option<InvalidConfiguration>)
    ensures
        r == (ConfigView {
            sorts: sort_labels(sorts@),
            cards_sort: card_labels(cards_sort@),
            player_num: player_num as nat,
            head_num: head_num as nat,
            hand_num: hand_num as nat,
        }).refusal(),
{
    if deck_too_small(cards_sort.len(), player_num, head_num, hand_num) {
        return Some(InvalidConfiguration::TooFewCards);
    }
    if !distinct_labels(sorts) {
        return Some(InvalidConfiguration::SortTwice);
    }
    let ghost labels = card_labels(cards_sort@);
    let mut c: usize = 0;
    while c < cards_sort.len()
        invariant
            c <= cards_sort.len(),
            (head_num + hand_num) * player_num <= cards_sort@.len(),
            sort_labels(sorts@).no_duplicates(),
            labels == card_labels(cards_sort@),
            forall|a: int, j: int|
                0 <= a < c && 0 <= j < labels[a].len() ==> sort_labels(sorts@).contains(
                    #[trigger] labels[a][j],
                ),
        decreases cards_sort.len() - c,
    {
        let mut j: usize = 0;
        while j < cards_sort[c].len()
            invariant
                c < cards_sort.len(),
                j <= cards_sort@[c as int].len(),
                (head_num + hand_num) * player_num <= cards_sort@.len(),
                sort_labels(sorts@).no_duplicates(),
                labels == card_labels(cards_sort@),
                forall|b: int|
                    0 <= b < j ==> sort_labels(sorts@).contains(#[trigger] labels[c as int][b]),
            decreases cards_sort@[c as int].len() - j,
        {
            proof {
                assert(labels[c as int][j as int] == cards_sort@[c as int]@[j as int]@);
            }
            if !has_label(sorts, &cards_sort[c][j]) {
                proof {
                    let cfg = ConfigView {
                        sorts: sort_labels(sorts@),
                        cards_sort: card_labels(cards_sort@),
                        player_num: player_num as nat,
                        head_num: head_num as nat,
                        hand_num: hand_num as nat,
                    };
                    assert(!cfg.sorts.contains(cfg.cards_sort[c as int][j as int]));
                }
                return Some(InvalidConfiguration::UnknownSort);
            }
            j += 1;
        }
        c += 1;
    }
    None
}

impl GameConfig {
    /// The rules made of these parts, if they are well-formed: `sorts` lists
    /// no sort twice, `cards_sort[i]` lists the sorts of card `i`, all of
    /// them in `sorts`, and there are cards enough for every head and hand.
    pub fn new(
        sorts: Vec<Sort>,
        cards_sort: Vec<Vec<Sort>>,
        player_num: usize,
        head_num: usize,
        hand_num: usize,
    ) -> (r: Option<Self>)
        ensures
            r.is_some() == (ConfigView {
                sorts: sort_labels(sorts@),
                cards_sort: card_labels(cards_sort@),
                player_num: player_num as nat,
                head_num: head_num as nat,
                hand_num: hand_num as nat,
            }).wf(),
            r matches Some(c) ==> c@ == (ConfigView {
                sorts: sort_labels(sorts@),
                cards_sort: card_labels(cards_sort@),
                player_num: player_num as nat,
                head_num: head_num as nat,
                hand_num: hand_num as nat,
            }),
    {
        proof {
            (ConfigView {
                sorts: sort_labels(sorts@),
                cards_sort: card_labels(cards_sort@),
                player_num: player_num as nat,
                head_num: head_num as nat,
                hand_num: hand_num as nat,
            }).lemma_refusal();
        }
        match parts_refusal(&sorts, &cards_sort, player_num, head_num, hand_num) {
            Some(_) => None,
            None => Some(GameConfig { sorts, cards_sort, player_num, head_num, hand_num }),
        }
    }

    /// The rules made of these parts, or why they are not well-formed.
    pub fn try_new(
        sorts: Vec<Sort>,
        cards_sort: Vec<Vec<Sort>>,
        player_num: usize,
        head_num: usize,
        hand_num: usize,
    ) -> (r: Result<Self, InvalidConfiguration>)
        ensures
            match (ConfigView {
                sorts: sort_labels(sorts@),
                cards_sort: card_labels(cards_sort@),
                player_num: player_num as nat,
                head_num: head_num as nat,
                hand_num: hand_num as nat,
            }).refusal() {
                Some(why) => r == Err::<Self, InvalidConfiguration>(why),
                None => r is Ok && r->Ok_0@.wf() && r->Ok_0@ == (ConfigView {
                    sorts: sort_labels(sorts@),
                    cards_sort: card_labels(cards_sort@),
                    player_num: player_num as nat,
                    head_num: head_num as nat,
                    hand_num: hand_num as nat,
                }),
            },
    {
        proof {
            (ConfigView {
                sorts: sort_labels(sorts@),
                cards_sort: card_labels(cards_sort@),
                player_num: player_num as nat,
                head_num: head_num as nat,
                hand_num: hand_num as nat,
            }).lemma_refusal();
        }
        match parts_refusal(&sorts, &cards_sort, player_num, head_num, hand_num) {
            Some(why) => Err(why),
            None => Ok(GameConfig { sorts, cards_sort, player_num, head_num, hand_num }),
        }
    }

    /// Are these rules well-formed? Rules made by `new` are.
    pub fn is_wf(&self) -> (r: bool)
        ensures
            r == self@.wf(),
    {
        proof {
            self@.lemma_refusal();
        }
        parts_refusal(
            &self.sorts,
            &self.cards_sort,
            self.player_num,
            self.head_num,
            self.hand_num,
        ).is_none()
    }

    pub fn player_num(&self) -> (r: usize)
        ensures
            r == self@.player_num,
    {
        self.player_num
    }

    /// Who moves when `n` moves have been made.
    pub fn player_turn(&self, n: usize) -> (r: Player)
        requires
            self@.player_num > 0,
        ensures
            r == self@.player_turn(n as nat),
            r.0 < self@.player_num,
    {
        Player(n % self.player_num)
    }

    pub fn cards_num(&self) -> (r: usize)
        ensures
            r == self@.cards_num(),
    {
        self.cards_sort.len()
    }

    pub fn head_num(&self) -> (r: usize)
        ensures
            r == self@.head_num,
    {
        self.head_num
    }

    pub fn hand_num(&self) -> (r: usize)
        ensures
            r == self@.hand_num,
    {
        self.hand_num
    }

    /// The players, in the order of their seats.
    pub fn all_player(&self) -> (r: Vec<Player>)
        ensures
            r@ == Seq::new(self@.player_num, |i: int| Player(i as usize)),
    {
        let mut out: Vec<Player> = Vec::new();
        let mut i: usize = 0;
        while i < self.player_num
            invariant
                i <= self.player_num,
                out@ == Seq::new(i as nat, |i: int| Player(i as usize)),
            decreases self.player_num - i,
        {
            out.push(Player(i));
            proof {
                assert(out@ =~= Seq::new((i + 1) as nat, |i: int| Player(i as usize)));
            }
            i += 1;
        }
        out
    }

    /// The sorts, in the order in which the rules list them.
    pub fn all_sort(&self) -> (r: Vec<Sort>)
        ensures
            sort_labels(r@) == self@.sorts,
    {
        copy_sorts(&self.sorts)
    }

    /// The cards of the deck, in the order of their numbers.
    pub fn all_cards(&self) -> (r: Vec<Card>)
        ensures
            r@ == Seq::new(self@.cards_num(), |i: int| Card(i as usize)),
    {
        let n = self.cards_sort.len();
        let mut out: Vec<Card> = Vec::new();
        let mut i: usize = 0;
        while i < n
            invariant
                i <= n,
                out@ == Seq::new(i as nat, |i: int| Card(i as usize)),
            decreases n - i,
        {
            out.push(Card(i));
            proof {
                assert(out@ =~= Seq::new((i + 1) as nat, |i: int| Card(i as usize)));
            }
            i += 1;
        }
        out
    }

    /// The sorts that `card` bears.
    pub fn all_sort_of_card(&self, card: &Card) -> (r: &Vec<Sort>)
        requires
            card.0 < self@.cards_num(),
        ensures
            sort_labels(r@) == self@.cards_sort[card.0 as int],
    {
        &self.cards_sort[card.0]
    }

    /// Does `card` bear `sort`?
    pub fn has_sort(&self, card: &Card, sort: &Sort) -> (r: bool)
        requires
            card.0 < self@.cards_num(),
        ensures
            r == self@.has_sort(*card, sort@),
    {
        has_label(&self.cards_sort[card.0], sort)
    }
}

/// What one player holds, as plain values.
pub struct PlCardView {
    pub hand: Seq<Card>,
    pub head: Seq<Card>,
}

/// What one player holds: the hand that only they see, and the head that
/// everyone else sees. Each is a set of cards in increasing order.
#[derive(Debug, PartialEq)]
pub struct PlCard {
    pub hand: Vec<Card>,
    pub head: Vec<Card>,
}

impl vstd::view::View for PlCard {
    type V = PlCardView;

    open spec fn view(&self) -> PlCardView {
        PlCardView { hand: self.hand@, head: self.head@ }
    }
}

impl Clone for PlCard {
    fn clone(&self) -> (r: Self)
        ensures
            r@ == self@,
    {
        PlCard { hand: copy_cards(&self.hand), head: copy_cards(&self.head) }
    }
}

/// A deal has one holding per player, none larger than the rules allow and
/// none with a card that the deck lacks.
pub open spec fn deal_shaped(cfg: ConfigView, deal: Seq<PlCardView>) -> bool {
    &&& deal.len() == cfg.player_num
    &&& forall|p: int|
        0 <= p < deal.len() ==> {
            &&& (#[trigger] deal[p]).hand.len() <= cfg.hand_num
            &&& deal[p].head.len() <= cfg.head_num
            &&& in_deck(deal[p].hand, cfg.cards_num())
            &&& in_deck(deal[p].head, cfg.cards_num())
        }
}

/// A legal deal: every hand and head is a set of the size that the rules
/// give, written in increasing order, and no card lies in two places.
pub open spec fn deal_valid(cfg: ConfigView, deal: Seq<PlCardView>) -> bool {
    &&& deal_shaped(cfg, deal)
    &&& forall|p: int|
        0 <= p < deal.len() ==> {
            &&& (#[trigger] deal[p]).hand.len() == cfg.hand_num
            &&& deal[p].head.len() == cfg.head_num
            &&& increasing(deal[p].hand)
            &&& increasing(deal[p].head)
        }
    &&& forall|p: int, q: int, i: int, j: int|
        0 <= p < deal.len() && 0 <= q < deal.len() && 0 <= i < deal[p].hand.len() && 0 <= j
            < deal[q].hand.len() && (p != q || i != j) ==> #[trigger] deal[p].hand[i]
            != #[trigger] deal[q].hand[j]
    &&& forall|p: int, q: int, i: int, j: int|
        0 <= p < deal.len() && 0 <= q < deal.len() && 0 <= i < deal[p].head.len() && 0 <= j
            < deal[q].head.len() && (p != q || i != j) ==> #[trigger] deal[p].head[i]
            != #[trigger] deal[q].head[j]
    &&& forall|p: int, q: int, i: int, j: int|
        0 <= p < deal.len() && 0 <= q < deal.len() && 0 <= i < deal[p].hand.len() && 0 <= j
            < deal[q].head.len() ==> #[trigger] deal[p].hand[i] != #[trigger] deal[q].head[j]
}

/// What one player sees of a deal, as plain values: their own hand, and the
/// head of every other player. Their own place in `other` is `None`.
pub struct Seen {
    pub hand: Seq<Card>,
    pub other: Seq<Option<Seq<Card>>>,
}

/// What `p` sees of `deal`.
pub open spec fn seen_by(deal: Seq<PlCardView>, p: Player) -> Seen {
    Seen {
        hand: deal[p.0 as int].hand,
        other: Seq::new(
            deal.len(),
            |i: int|
                if i != p.0 {
                    Some(deal[i].head)
                } else {
                    None
                },
        ),
    }
}

/// How many of `cards` bear `sort`.
pub open spec fn count_sort(cfg: ConfigView, cards: Seq<Card>, sort: Seq<char>) -> nat
    decreases cards.len(),
{
    if cards.len() == 0 {
        0
    } else {
        count_sort(cfg, cards.drop_last(), sort) + if cfg.has_sort(cards.last(), sort) {
            1nat
        } else {
            0nat
        }
    }
}

/// How many cards on the visible heads bear `sort`.
pub open spec fn count_sort_heads(
    cfg: ConfigView,
    other: Seq<Option<Seq<Card>>>,
    sort: Seq<char>,
) -> nat
    decreases other.len(),
{
    if other.len() == 0 {
        0
    } else {
        count_sort_heads(cfg, other.drop_last(), sort) + match other.last() {
            Some(head) => count_sort(cfg, head, sort),
            None => 0nat,
        }
    }
}

impl Seen {
    /// How many of the cards seen bear `sort`.
    pub open spec fn sort_num(self, cfg: ConfigView, sort: Seq<char>) -> nat {
        count_sort_heads(cfg, self.other, sort) + count_sort(cfg, self.hand, sort)
    }

    /// One place per player, no hand or head larger than the rules allow,
    /// no card that the deck lacks.
    pub open spec fn shaped(self, cfg: ConfigView) -> bool {
        &&& self.other.len() == cfg.player_num
        &&& self.hand.len() <= cfg.hand_num
        &&& in_deck(self.hand, cfg.cards_num())
        &&& forall|p: int|
            0 <= p < self.other.len() ==> ((#[trigger] self.other[p]) matches Some(head)
                ==> head.len() <= cfg.head_num && in_deck(head, cfg.cards_num()))
    }

    /// Is `c` among the cards seen?
    pub open spec fn contains(self, c: Card) -> bool {
        self.hand.contains(c) || exists|p: int|
            0 <= p < self.other.len() && (#[trigger] self.other[p]).is_some()
                && self.other[p].unwrap().contains(c)
    }
}

/// A deal: what each player holds.
#[derive(Debug, PartialEq)]
pub struct Distr {
    state: Vec<PlCard>,
}

impl vstd::view::View for Distr {
    type V = Seq<PlCardView>;

    closed spec fn view(&self) -> Seq<PlCardView> {
        self.state@.map_values(|p: PlCard| p@)
    }
}

impl Clone for Distr {
    fn clone(&self) -> (r: Self)
        ensures
            r@ == self@,
    {
        let mut state: Vec<PlCard> = Vec::new();
        let mut i: usize = 0;
        while i < self.state.len()
            invariant
                i <= self.state.len(),
                state@.len() == i,
                forall|j: int| 0 <= j < i ==> state@[j]@ == self.state@[j]@,
            decreases self.state.len() - i,
        {
            state.push(self.state[i].clone());
            i += 1;
        }
        proof {
            assert(state@.map_values(|p: PlCard| p@) =~= self@);
        }
        Distr { state }
    }
}

/// One player's sight of a deal: their own hand, and for every other player
/// the head. The player's own place in `other` is `None`.
#[derive(Debug, PartialEq)]
pub struct View {
    pub hand: Vec<Card>,
    pub other: Vec<Option<Vec<Card>>>,
}

/// A head as plain values.
pub open spec fn head_view(head: Option<Vec<Card>>) -> Option<Seq<Card>> {
    match head {
        Some(h) => Some(h@),
        None => None,
    }
}

impl vstd::view::View for View {
    type V = Seen;

    open spec fn view(&self) -> Seen {
        Seen { hand: self.hand@, other: self.other@.map_values(|h: Option<Vec<Card>>| head_view(h)) }
    }
}

impl Clone for View {
    fn clone(&self) -> (r: Self)
        ensures
            r@ == self@,
    {
        let mut other: Vec<Option<Vec<Card>>> = Vec::new();
        let mut i: usize = 0;
        while i < self.other.len()
            invariant
                i <= self.other.len(),
                other@.len() == i,
                forall|j: int| 0 <= j < i ==> head_view(other@[j]) == head_view(self.other@[j]),
            decreases self.other.len() - i,
        {
            let head = match &self.other[i] {
                Some(h) => Some(copy_cards(h)),
                None => None,
            };
            other.push(head);
            i += 1;
        }
        proof {
            assert(other@.map_values(|h: Option<Vec<Card>>| head_view(h)) =~= self@.other);
        }
        View { hand: copy_cards(&self.hand), other }
    }
}

/// How many of `cards` bear `sort`.
pub fn count_cards_of_sort(config: &GameConfig, cards: &Vec<Card>, s: &Sort) -> (r: usize)
    requires
        in_deck(cards@, config@.cards_num()),
    ensures
        r == count_sort(config@, cards@, s@),
        r <= cards@.len(),
{
    let mut n: usize = 0;
    let mut i: usize = 0;
    while i < cards.len()
        invariant
            i <= cards.len(),
            in_deck(cards@, config@.cards_num()),
            n == count_sort(config@, cards@.take(i as int), s@),
            n <= i,
        decreases cards.len() - i,
    {
        proof {
            assert(cards@.take(i as int + 1).drop_last() =~= cards@.take(i as int));
        }
        if config.has_sort(&cards[i], s) {
            n += 1;
        }
        i += 1;
    }
    proof {
        assert(cards@.take(cards.len() as int) =~= cards@);
    }
    n
}

impl View {
    /// How many of the cards in sight bear the sort `s`.
    pub fn sort_num(&self, config: &GameConfig, s: &Sort) -> (r: usize)
        requires
            config@.wf(),
            self@.shaped(config@),
        ensures
            r == self@.sort_num(config@, s@),
    {
        let ghost cfg = config@;
        let ghost other = self@.other;
        let deck = config.cards_num();
        let mut n: usize = 0;
        let mut i: usize = 0;
        while i < self.other.len()
            invariant
                i <= self.other.len(),
                cfg == config@,
                deck == cfg.cards_num(),
                other == self@.other,
                self@.shaped(cfg),
                cfg.wf(),
                n == count_sort_heads(cfg, other.take(i as int), s@),
                n <= i * cfg.head_num,
            decreases self.other.len() - i,
        {
            proof {
                assert(other.take(i as int + 1).drop_last() =~= other.take(i as int));
                assert(other[i as int] == head_view(self.other@[i as int]));
                assert(other.len() == cfg.player_num);
                assert((i + 1) * cfg.head_num == i * cfg.head_num + cfg.head_num)
                    by (nonlinear_arith);
                assert((i + 1) * cfg.head_num <= (cfg.head_num + cfg.hand_num) * cfg.player_num)
                    by (nonlinear_arith)
                    requires
                        i + 1 <= cfg.player_num,
                ;
            }
            match &self.other[i] {
                Some(head) => {
                    let k = count_cards_of_sort(config, head, s);
                    n += k;
                },
                None => {},
            }
            i += 1;
        }
        proof {
            assert(other.take(self.other.len() as int) =~= other);
            assert(other.len() == cfg.player_num);
            assert(n + cfg.hand_num <= (cfg.head_num + cfg.hand_num) * cfg.player_num || n == 0)
                by (nonlinear_arith)
                requires
                    n <= i * cfg.head_num,
                    i == cfg.player_num,
            ;
        }
        let k = count_cards_of_sort(config, &self.hand, s);
        n + k
    }
}

impl Distr {
    /// The deal in which player `i` holds `state[i]`.
    pub fn new(state: Vec<PlCard>) -> (r: Self)
        ensures
            r@ == state@.map_values(|p: PlCard| p@),
    {
        Distr { state }
    }

    /// The head of `player`.
    pub fn players_head(&self, player: Player) -> (r: &Vec<Card>)
        requires
            player.0 < self@.len(),
        ensures
            r@ == self@[player.0 as int].head,
    {
        &self.state[player.0].head
    }

    /// The hand of `player`.
    pub fn players_hand(&self, player: Player) -> (r: &Vec<Card>)
        requires
            player.0 < self@.len(),
        ensures
            r@ == self@[player.0 as int].hand,
    {
        &self.state[player.0].hand
    }

    /// What `player` sees of this deal.
    pub fn cards_from_player(&self, player: Player) -> (r: View)
        requires
            player.0 < self@.len(),
        ensures
            r@ == seen_by(self@, player),
    {
        let hand = copy_cards(self.players_hand(player));
        let mut other: Vec<Option<Vec<Card>>> = Vec::new();
        let mut i: usize = 0;
        while i < self.state.len()
            invariant
                i <= self.state.len(),
                other@.len() == i,
                forall|j: int|
                    0 <= j < i ==> head_view(other@[j]) == seen_by(self@, player).other[j],
            decreases self.state.len() - i,
        {
            if i != player.0 {
                other.push(Some(copy_cards(&self.state[i].head)));
            } else {
                other.push(None);
            }
            i += 1;
        }
        let r = View { hand, other };
        proof {
            assert(r@.other =~= seen_by(self@, player).other);
        }
        r
    }
}

/// A move, as plain values.
pub enum MoveView {
    Query { query_to: Player, query_sort: Seq<char> },
    Declare { declare: Seq<Card> },
}

/// What a player may do on their turn: ask another player how many cards of
/// a sort they see, or declare which cards lie on their own head. The cards
/// of a declaration are written in increasing order.
#[derive(Debug, PartialOrd, Ord, Hash)]
pub enum Move {
    Query { query_to: Player, query_sort: Sort },
    Declare { declare: Vec<Card> },
}

impl vstd::view::View for Move {
    type V = MoveView;

    open spec fn view(&self) -> MoveView {
        match self {
            Move::Query { query_to, query_sort } => MoveView::Query {
                query_to: *query_to,
                query_sort: query_sort@,
            },
            Move::Declare { declare } => MoveView::Declare { declare: declare@ },
        }
    }
}

impl Clone for Move {
    fn clone(&self) -> (r: Self)
        ensures
            r@ == self@,
    {
        match self {
            Move::Query { query_to, query_sort } => Move::Query {
                query_to: *query_to,
                query_sort: query_sort.clone(),
            },
            Move::Declare { declare } => Move::Declare { declare: copy_cards(declare) },
        }
    }
}

impl PartialEq for Move {
    fn eq(&self, other: &Self) -> (r: bool) {
        match (self, other) {
            (
                Move::Query { query_to: a, query_sort: s },
                Move::Query { query_to: b, query_sort: t },
            ) => a.0 == b.0 && s == t,
            (Move::Declare { declare: a }, Move::Declare { declare: b }) => equal_cards(a, b),
            _ => false,
        }
    }
}

impl Eq for Move {}

impl PartialEqSpecImpl for Move {
    open spec fn obeys_eq_spec() -> bool {
        true
    }

    open spec fn eq_spec(&self, other: &Self) -> bool {
        self@ == other@
    }
}

/// A move with its answer, as plain values.
#[allow(inconsistent_fields)]
pub enum MoveAnsView {
    Query { who: Player, query_to: Player, query_sort: Seq<char>, ans: nat },
    Declare { who: Player, declare: Seq<Card>, ans: bool },
}

impl MoveAnsView {
    /// The move that was answered.
    pub open spec fn move_of_this(self) -> MoveView {
        match self {
            MoveAnsView::Query { who, query_to, query_sort, ans } => MoveView::Query {
                query_to,
                query_sort,
            },
            MoveAnsView::Declare { who, declare, ans } => MoveView::Declare { declare },
        }
    }

    /// The player who made it.
    pub open spec fn actor(self) -> Player {
        match self {
            MoveAnsView::Query { who, query_to, query_sort, ans } => who,
            MoveAnsView::Declare { who, declare, ans } => who,
        }
    }

    /// Is this a declaration that was right?
    pub open spec fn is_right_declare(self) -> bool {
        match self {
            MoveAnsView::Query { who, query_to, query_sort, ans } => false,
            MoveAnsView::Declare { who, declare, ans } => ans,
        }
    }

    /// Every player that the entry names has a seat.
    pub open spec fn seated(self, cfg: ConfigView) -> bool {
        match self {
            MoveAnsView::Query { who, query_to, query_sort, ans } => who.0 < cfg.player_num
                && query_to.0 < cfg.player_num,
            MoveAnsView::Declare { who, declare, ans } => who.0 < cfg.player_num,
        }
    }
}

/// An entry of the public history: a move, who made it, and the answer: a
/// count for a query, right or wrong for a declaration.
#[derive(Debug, PartialOrd, Ord, Hash)]
#[allow(inconsistent_fields)]
pub enum MoveAns {
    Query { who: Player, query_to: Player, query_sort: Sort, ans: usize },
    Declare { who: Player, declare: Vec<Card>, ans: bool },
}

impl vstd::view::View for MoveAns {
    type V = MoveAnsView;

    open spec fn view(&self) -> MoveAnsView {
        match self {
            MoveAns::Query { who, query_to, query_sort, ans } => MoveAnsView::Query {
                who: *who,
                query_to: *query_to,
                query_sort: query_sort@,
                ans: *ans as nat,
            },
            MoveAns::Declare { who, declare, ans } => MoveAnsView::Declare {
                who: *who,
                declare: declare@,
                ans: *ans,
            },
        }
    }
}

impl Clone for MoveAns {
    fn clone(&self) -> (r: Self)
        ensures
            r@ == self@,
    {
        match self {
            MoveAns::Query { who, query_to, query_sort, ans } => MoveAns::Query {
                who: *who,
                query_to: *query_to,
                query_sort: query_sort.clone(),
                ans: *ans,
            },
            MoveAns::Declare { who, declare, ans } => MoveAns::Declare {
                who: *who,
                declare: copy_cards(declare),
                ans: *ans,
            },
        }
    }
}

impl PartialEq for MoveAns {
    fn eq(&self, other: &Self) -> (r: bool) {
        match (self, other) {
            (
                MoveAns::Query { who: w, query_to: a, query_sort: s, ans: m },
                MoveAns::Query { who: x, query_to: b, query_sort: t, ans: n },
            ) => w.0 == x.0 && a.0 == b.0 && s == t && *m == *n,
            (
                MoveAns::Declare { who: w, declare: a, ans: m },
                MoveAns::Declare { who: x, declare: b, ans: n },
            ) => w.0 == x.0 && equal_cards(a, b) && *m == *n,
            _ => false,
        }
    }
}

impl Eq for MoveAns {}

impl PartialEqSpecImpl for MoveAns {
    open spec fn obeys_eq_spec() -> bool {
        true
    }

    open spec fn eq_spec(&self, other: &Self) -> bool {
        self@ == other@
    }
}

impl MoveAns {
    /// The move that was answered.
    pub fn move_of_this(&self) -> (r: Move)
        ensures
            r@ == self@.move_of_this(),
    {
        match self {
            MoveAns::Query { who: _, query_to, query_sort, ans: _ } => Move::Query {
                query_to: *query_to,
                query_sort: query_sort.clone(),
            },
            MoveAns::Declare { who: _, declare, ans: _ } => Move::Declare {
                declare: copy_cards(declare),
            },
        }
    }

    /// The player who made the move.
    pub fn actor(&self) -> (r: Player)
        ensures
            r == self@.actor(),
    {
        match self {
            MoveAns::Query { who, query_to: _, query_sort: _, ans: _ } => *who,
            MoveAns::Declare { who, declare: _, ans: _ } => *who,
        }
    }
}

/// The answer that the rules give when `who` makes the move `m` on `deal`.
/// A query is answered by the number of cards of its sort that the player
/// asked can see, whoever asks. A declaration is right when it names the
/// cards on the head of `who`, all of them and no other.
pub open spec fn answer_spec(
    cfg: ConfigView,
    deal: Seq<PlCardView>,
    m: MoveView,
    who: Player,
) -> MoveAnsView {
    match m {
        MoveView::Query { query_to, query_sort } => MoveAnsView::Query {
            who,
            query_to,
            query_sort,
            ans: seen_by(deal, query_to).sort_num(cfg, query_sort),
        },
        MoveView::Declare { declare } => MoveAnsView::Declare {
            who,
            declare,
            ans: declare.to_set() == deal[who.0 as int].head.to_set(),
        },
    }
}

/// What `p` sees of a deal is no larger than the deal.
pub proof fn lemma_seen_by_shaped(cfg: ConfigView, deal: Seq<PlCardView>, p: Player)
    requires
        deal_shaped(cfg, deal),
        p.0 < cfg.player_num,
    ensures
        seen_by(deal, p).shaped(cfg),
{
    let seen = seen_by(deal, p);
    assert forall|q: int| 0 <= q < seen.other.len() implies ((#[trigger] seen.other[q]) matches Some(
        head,
    ) ==> head.len() <= cfg.head_num && in_deck(head, cfg.cards_num())) by {
        assert(deal[q].head.len() <= cfg.head_num);
    }
    assert(deal[p.0 as int].hand.len() <= cfg.hand_num);
}

/// The rules' answer to the move `m` of `who` on the deal `distr`.
pub fn answer(config: &GameConfig, distr: &Distr, m: Move, who: Player) -> (r: MoveAns)
    requires
        config@.wf(),
        deal_shaped(config@, distr@),
        who.0 < config@.player_num,
        m@ matches MoveView::Query { query_to, query_sort } ==> query_to.0 < config@.player_num,
    ensures
        r@ == answer_spec(config@, distr@, m@, who),
{
    match m {
        Move::Query { query_to, query_sort } => {
            let view = distr.cards_from_player(query_to);
            proof {
                lemma_seen_by_shaped(config@, distr@, query_to);
            }
            let sort_num = view.sort_num(config, &query_sort);
            MoveAns::Query { who, query_to, query_sort, ans: sort_num }
        },
        Move::Declare { declare } => {
            let player_head = distr.players_head(who);
            let b = same_cards(&declare, player_head);
            MoveAns::Declare { who, declare, ans: b }
        },
    }
}

/// Every query there is: for each sort in the rules' order, one to each
/// player in the order of the seats.
pub open spec fn all_query_spec(cfg: ConfigView) -> Seq<MoveView> {
    Seq::new(
        cfg.sorts.len() * cfg.player_num,
        |k: int|
            MoveView::Query {
                query_to: Player((k % cfg.player_num as int) as usize),
                query_sort: cfg.sorts[k / cfg.player_num as int],
            },
    )
}

/// The moves of a list, as plain values.
pub open spec fn moves_view(v: Seq<Move>) -> Seq<MoveView> {
    v.map_values(|m: Move| m@)
}

/// The entries of a history, as plain values.
pub open spec fn history_view(v: Seq<MoveAns>) -> Seq<MoveAnsView> {
    v.map_values(|m: MoveAns| m@)
}

/// Every query there is, in the order of `all_query_spec`.
pub fn all_query(config: &GameConfig) -> (r: Vec<Move>)
    ensures
        moves_view(r@) == all_query_spec(config@),
{
    let ghost cfg = config@;
    let sorts = config.all_sort();
    let n = config.player_num();
    let mut out: Vec<Move> = Vec::new();
    let mut si: usize = 0;
    while si < sorts.len()
        invariant
            si <= sorts.len(),
            cfg == config@,
            n == cfg.player_num,
            sort_labels(sorts@) == cfg.sorts,
            out@.len() == si * n,
            forall|k: int| 0 <= k < out@.len() ==> (#[trigger] out@[k])@ == all_query_spec(cfg)[k],
        decreases sorts.len() - si,
    {
        let mut p: usize = 0;
        while p < n
            invariant
                si < sorts.len(),
                p <= n,
                cfg == config@,
                n == cfg.player_num,
                sort_labels(sorts@) == cfg.sorts,
                out@.len() == si * n + p,
                forall|k: int|
                    0 <= k < out@.len() ==> (#[trigger] out@[k])@ == all_query_spec(cfg)[k],
            decreases n - p,
        {
            proof {
                let k = si * n + p;
                vstd::arithmetic::div_mod::lemma_fundamental_div_mod_converse(
                    k as int,
                    n as int,
                    si as int,
                    p as int,
                );
                assert(sort_labels(sorts@)[si as int] == sorts@[si as int]@);
                assert(k < sorts.len() * n) by (nonlinear_arith)
                    requires
                        k == si * n + p,
                        p < n,
                        si < sorts.len(),
                ;
            }
            out.push(Move::Query { query_to: Player(p), query_sort: sorts[si].clone() });
            p += 1;
        }
        proof {
            assert((si + 1) * n == si * n + n) by (nonlinear_arith);
        }
        si += 1;
    }
    proof {
        assert(sort_labels(sorts@).len() == sorts@.len());
        assert(moves_view(out@) =~= all_query_spec(cfg));
    }
    out
}

/// A copy of a history.
pub fn copy_history(v: &Vec<MoveAns>) -> (r: Vec<MoveAns>)
    ensures
        history_view(r@) == history_view(v@),
{
    let mut out: Vec<MoveAns> = Vec::new();
    let mut i: usize = 0;
    while i < v.len()
        invariant
            i <= v.len(),
            out@.len() == i,
            forall|j: int| 0 <= j < i ==> out@[j]@ == v@[j]@,
        decreases v.len() - i,
    {
        out.push(v[i].clone());
        i += 1;
    }
    proof {
        assert(history_view(out@) =~= history_view(v@));
    }
    out
}

/// Is `m` among `moves`?
pub fn contains_move(moves: &Vec<Move>, m: &Move) -> (r: bool)
    ensures
        r == moves_view(moves@).contains(m@),
{
    let mut i: usize = 0;
    while i < moves.len()
        invariant
            i <= moves.len(),
            forall|j: int| 0 <= j < i ==> moves_view(moves@)[j] != m@,
        decreases moves.len() - i,
    {
        if moves[i] == *m {
            proof {
                assert(moves_view(moves@)[i as int] == m@);
            }
            return true;
        }
        i += 1;
    }
    false
}

/// The moves that `player` has made: every `player_num`-th entry of the
/// history, from the entry at the player's own seat number on.
pub open spec fn moves_of_player_spec(
    history: Seq<MoveAnsView>,
    player_num: nat,
    player: Player,
) -> Seq<MoveView>
    decreases history.len(),
{
    if history.len() == 0 {
        Seq::empty()
    } else {
        let rest = moves_of_player_spec(history.drop_last(), player_num, player);
        let i = history.len() - 1;
        if i >= player.0 && (i - player.0) % (player_num as int) == 0 {
            rest.push(history.last().move_of_this())
        } else {
            rest
        }
    }
}

/// May `actor`, who has made the moves `past`, make the move `m`? A move
/// is made once only, a query goes to another player, and a declaration
/// writes its cards in increasing order.
pub open spec fn move_allowed(past: Seq<MoveView>, actor: Player, m: MoveView) -> bool {
    &&& !past.contains(m)
    &&& match m {
        MoveView::Query { query_to, query_sort } => query_to != actor,
        MoveView::Declare { declare } => increasing(declare),
    }
}

/// Those of `all` that `actor` may make after `past`, in the order of `all`.
pub fn keep_allowed(all: Vec<Move>, past: &Vec<Move>, actor: Player) -> (r: Vec<Move>)
    ensures
        moves_view(r@) == moves_view(all@).filter(
            |m: MoveView| move_allowed(moves_view(past@), actor, m),
        ),
{
    let ghost pred = |m: MoveView| move_allowed(moves_view(past@), actor, m);
    let ghost src = moves_view(all@);
    let mut out: Vec<Move> = Vec::new();
    let mut i: usize = 0;
    proof {
        reveal(Seq::filter);
        assert(src.take(0).filter(pred) =~= Seq::<MoveView>::empty());
        assert(moves_view(out@) =~= Seq::<MoveView>::empty());
    }
    while i < all.len()
        invariant
            i <= all.len(),
            src == moves_view(all@),
            pred == |m: MoveView| move_allowed(moves_view(past@), actor, m),
            moves_view(out@) == src.take(i as int).filter(pred),
        decreases all.len() - i,
    {
        let m = &all[i];
        proof {
            lemma_filter_step(src, pred, i as int);
            assert(src[i as int] == m@);
        }
        let fresh = !contains_move(past, m);
        let fits = match m {
            Move::Query { query_to, query_sort: _ } => query_to.0 != actor.0,
            Move::Declare { declare } => is_increasing(declare),
        };
        if fresh && fits {
            let ghost before = moves_view(out@);
            out.push(m.clone());
            proof {
                assert(moves_view(out@) =~= before.push(m@));
            }
        }
        i += 1;
    }
    proof {
        assert(src.take(all.len() as int) =~= src);
    }
    out
}

/// Every query there is: for each player in the order of the seats, one
/// for each sort in the rules' order.
pub open spec fn queries_by_player_spec(cfg: ConfigView) -> Seq<MoveView> {
    Seq::new(
        cfg.player_num * cfg.sorts.len(),
        |k: int|
            MoveView::Query {
                query_to: Player((k / cfg.sorts.len() as int) as usize),
                query_sort: cfg.sorts[k % cfg.sorts.len() as int],
            },
    )
}

/// The queries to seated players about sorts of the rules are the members
/// of `queries_by_player_spec`.
pub proof fn lemma_queries_by_player_members(cfg: ConfigView, m: MoveView)
    ensures
        queries_by_player_spec(cfg).contains(m) <==> (m matches MoveView::Query {
            query_to,
            query_sort,
        } && query_to.0 < cfg.player_num && cfg.sorts.contains(query_sort)),
{
    let all = queries_by_player_spec(cfg);
    let s = cfg.sorts.len() as int;
    let n = cfg.player_num as int;
    if all.contains(m) {
        let k = choose|k: int| 0 <= k < all.len() && all[k] == m;
        assert(s > 0) by (nonlinear_arith)
            requires
                0 <= k < n * s,
                n >= 0,
                s >= 0,
        ;
        vstd::arithmetic::div_mod::lemma_fundamental_div_mod(k, s);
        vstd::arithmetic::div_mod::lemma_mod_bound(k, s);
        assert(0 <= k / s < n) by (nonlinear_arith)
            requires
                0 <= k < n * s,
                s > 0,
                k == s * (k / s) + k % s,
                0 <= k % s < s,
        ;
        assert(cfg.sorts[k % s] == m->query_sort);
    }
    if m is Query && m->query_to.0 < cfg.player_num && cfg.sorts.contains(m->query_sort) {
        let query_to = m->query_to;
        let query_sort = m->query_sort;
        let j = choose|j: int| 0 <= j < cfg.sorts.len() && cfg.sorts[j] == query_sort;
        let k = query_to.0 * s + j;
        vstd::arithmetic::div_mod::lemma_fundamental_div_mod_converse(k, s, query_to.0 as int, j);
        assert(0 <= k < n * s) by (nonlinear_arith)
            requires
                k == query_to.0 * s + j,
                0 <= j < s,
                0 <= query_to.0 < n,
        ;
        assert(all[k] == m);
    }
}

/// Every query there is, in the order of `queries_by_player_spec`.
pub fn queries_by_player(config: &GameConfig) -> (r: Vec<Move>)
    ensures
        moves_view(r@) == queries_by_player_spec(config@),
{
    let ghost cfg = config@;
    let sorts = config.all_sort();
    let n = config.player_num();
    let mut out: Vec<Move> = Vec::new();
    let mut p: usize = 0;
    while p < n
        invariant
            p <= n,
            cfg == config@,
            n == cfg.player_num,
            sort_labels(sorts@) == cfg.sorts,
            out@.len() == p * sorts.len(),
            forall|k: int|
                0 <= k < out@.len() ==> (#[trigger] out@[k])@ == queries_by_player_spec(cfg)[k],
        decreases n - p,
    {
        let mut si: usize = 0;
        while si < sorts.len()
            invariant
                p < n,
                si <= sorts.len(),
                cfg == config@,
                n == cfg.player_num,
                sort_labels(sorts@) == cfg.sorts,
                out@.len() == p * sorts.len() + si,
                forall|k: int|
                    0 <= k < out@.len() ==> (#[trigger] out@[k])@ == queries_by_player_spec(
                        cfg,
                    )[k],
            decreases sorts.len() - si,
        {
            proof {
                let k = p * sorts.len() + si;
                vstd::arithmetic::div_mod::lemma_fundamental_div_mod_converse(
                    k as int,
                    sorts.len() as int,
                    p as int,
                    si as int,
                );
                assert(sort_labels(sorts@)[si as int] == sorts@[si as int]@);
                assert(sort_labels(sorts@).len() == sorts@.len());
                assert(k < n * sorts.len()) by (nonlinear_arith)
                    requires
                        k == p * sorts.len() + si,
                        si < sorts.len(),
                        p < n,
                ;
            }
            out.push(Move::Query { query_to: Player(p), query_sort: sorts[si].clone() });
            si += 1;
        }
        proof {
            assert((p + 1) * sorts.len() == p * sorts.len() + sorts.len()) by (nonlinear_arith);
        }
        p += 1;
    }
    proof {
        assert(sort_labels(sorts@).len() == sorts@.len());
        assert(moves_view(out@) =~= queries_by_player_spec(cfg));
    }
    out
}

/// The cards that an arrangement of card numbers names.
pub open spec fn cards_of(a: Seq<usize>) -> Seq<Card> {
    a.map_values(|i: usize| Card(i))
}

/// One declaration for each arrangement of card numbers.
pub open spec fn declares_of(arrs: Seq<Seq<usize>>) -> Seq<MoveView> {
    arrs.map_values(|a: Seq<usize>| MoveView::Declare { declare: cards_of(a) })
}

/// One declaration for each arrangement of card numbers, in their order.
pub fn declares_from(arrs: &Vec<Vec<usize>>) -> (r: Vec<Move>)
    ensures
        moves_view(r@) == declares_of(arrs.deep_view()),
{
    let mut out: Vec<Move> = Vec::new();
    let mut i: usize = 0;
    while i < arrs.len()
        invariant
            i <= arrs.len(),
            out@.len() == i,
            forall|j: int|
                0 <= j < i ==> (#[trigger] out@[j])@ == (MoveView::Declare {
                    declare: cards_of(arrs@[j]@),
                }),
        decreases arrs.len() - i,
    {
        let a = &arrs[i];
        let mut cards: Vec<Card> = Vec::new();
        let mut j: usize = 0;
        while j < a.len()
            invariant
                j <= a.len(),
                cards@.len() == j,
                forall|k: int| 0 <= k < j ==> cards@[k] == Card(a@[k]),
            decreases a.len() - j,
        {
            cards.push(Card(a[j]));
            j += 1;
        }
        proof {
            assert(cards@ =~= cards_of(a@));
        }
        out.push(Move::Declare { declare: cards });
        i += 1;
    }
    proof {
        assert forall|j: int| 0 <= j < arrs.len() implies (#[trigger] arrs.deep_view()[j])
            == arrs@[j]@ by {
            assert(arrs.deep_view()[j] =~= arrs@[j]@);
        }
        assert(moves_view(out@) =~= declares_of(arrs.deep_view()));
    }
    out
}

/// The queries that the player on turn may make, in the order of
/// `queries_by_player_spec`.
pub open spec fn movable_query_spec(cfg: ConfigView, history: Seq<MoveAnsView>) -> Seq<MoveView> {
    let actor = cfg.player_turn(history.len());
    let past = moves_of_player_spec(history, cfg.player_num, actor);
    queries_by_player_spec(cfg).filter(|m: MoveView| move_allowed(past, actor, m))
}

/// The declarations that the player on turn may make, out of those that
/// `arrs` gives, in their order.
pub open spec fn movable_declare_spec(
    cfg: ConfigView,
    history: Seq<MoveAnsView>,
    arrs: Seq<Seq<usize>>,
) -> Seq<MoveView> {
    let actor = cfg.player_turn(history.len());
    let past = moves_of_player_spec(history, cfg.player_num, actor);
    declares_of(arrs).filter(|m: MoveView| move_allowed(past, actor, m))
}

/// The rule of the game on what the player on turn may do: no move that
/// they have made before; a query to another player, about a sort of the
/// rules; a declaration of as many cards of the deck as lie on a head.
pub open spec fn legal_move(cfg: ConfigView, history: Seq<MoveAnsView>, m: MoveView) -> bool {
    let actor = cfg.player_turn(history.len());
    &&& !moves_of_player_spec(history, cfg.player_num, actor).contains(m)
    &&& match m {
        MoveView::Query { query_to, query_sort } => {
            &&& query_to.0 < cfg.player_num
            &&& query_to != actor
            &&& cfg.sorts.contains(query_sort)
        },
        MoveView::Declare { declare } => {
            &&& declare.len() == cfg.head_num
            &&& increasing(declare)
            &&& in_deck(declare, cfg.cards_num())
        },
    }
}

/// The allowed queries are the legal moves that are queries.
pub proof fn lemma_movable_query_members(cfg: ConfigView, history: Seq<MoveAnsView>, m: MoveView)
    ensures
        movable_query_spec(cfg, history).contains(m) <==> (m is Query && legal_move(
            cfg,
            history,
            m,
        )),
{
    let actor = cfg.player_turn(history.len());
    let past = moves_of_player_spec(history, cfg.player_num, actor);
    lemma_filter_members(queries_by_player_spec(cfg), |m: MoveView| move_allowed(past, actor, m));
    lemma_queries_by_player_members(cfg, m);
}

/// Out of a full list of arrangements, the allowed declarations are the
/// legal moves that are declarations.
pub proof fn lemma_movable_declare_members(
    cfg: ConfigView,
    history: Seq<MoveAnsView>,
    arrs: Seq<Seq<usize>>,
    m: MoveView,
)
    requires
        lists_arrangements(arrs, cfg.cards_num(), cfg.head_num),
        cfg.cards_num() <= usize::MAX,
    ensures
        movable_declare_spec(cfg, history, arrs).contains(m) <==> (m is Declare && legal_move(
            cfg,
            history,
            m,
        )),
{
    let actor = cfg.player_turn(history.len());
    let past = moves_of_player_spec(history, cfg.player_num, actor);
    let all = declares_of(arrs);
    lemma_filter_members(all, |m: MoveView| move_allowed(past, actor, m));
    if all.contains(m) && move_allowed(past, actor, m) {
        let i = choose|i: int| 0 <= i < all.len() && all[i] == m;
        assert(is_arrangement(arrs[i], cfg.cards_num(), cfg.head_num));
        let d = m->declare;
        assert(d == cards_of(arrs[i]));
        assert forall|j: int| 0 <= j < d.len() implies (#[trigger] d[j]).0 < cfg.cards_num() by {
            assert(arrs[i][j] < cfg.cards_num());
        }
    }
    if m is Declare && legal_move(cfg, history, m) {
        let d = m->declare;
        let a = d.map_values(|c: Card| c.0);
        assert(is_arrangement(a, cfg.cards_num(), cfg.head_num));
        assert(arrs.contains(a));
        let i = choose|i: int| 0 <= i < arrs.len() && arrs[i] == a;
        assert(cards_of(a) =~= d);
        assert(all[i] == m);
    }
}

/// What a player is told on their turn, as plain values.
pub struct InfoView {
    pub config: ConfigView,
    pub query_answer: Seq<MoveAnsView>,
    pub view: Seen,
}

/// What a player is told on their turn: the rules, the public history and
/// what they see of the deal.
#[derive(Debug, PartialEq)]
pub struct Info {
    pub config: GameConfig,
    pub query_answer: Vec<MoveAns>,
    pub view: View,
}

impl vstd::view::View for Info {
    type V = InfoView;

    open spec fn view(&self) -> InfoView {
        InfoView {
            config: self.config@,
            query_answer: history_view(self.query_answer@),
            view: self.view@,
        }
    }
}

impl Clone for Info {
    fn clone(&self) -> (r: Self)
        ensures
            r@ == self@,
    {
        Info {
            config: self.config.clone(),
            query_answer: copy_history(&self.query_answer),
            view: self.view.clone(),
        }
    }
}

/// The moves that `player` has made in `history`.
pub fn moves_of(history: &Vec<MoveAns>, player_num: usize, player: Player) -> (r: Vec<Move>)
    requires
        player_num > 0,
    ensures
        moves_view(r@) == moves_of_player_spec(history_view(history@), player_num as nat, player),
{
    let ghost h = history_view(history@);
    let mut out: Vec<Move> = Vec::new();
    let mut i: usize = 0;
    proof {
        assert(moves_view(out@) =~= moves_of_player_spec(h.take(0), player_num as nat, player));
    }
    while i < history.len()
        invariant
            i <= history.len(),
            h == history_view(history@),
            player_num > 0,
            moves_view(out@) == moves_of_player_spec(h.take(i as int), player_num as nat, player),
        decreases history.len() - i,
    {
        proof {
            assert(h.take(i as int + 1).drop_last() =~= h.take(i as int));
            assert(h[i as int] == history@[i as int]@);
        }
        if i >= player.0 && (i - player.0) % player_num == 0 {
            let ghost before = moves_view(out@);
            out.push(history[i].move_of_this());
            proof {
                assert(moves_view(out@) =~= before.push(h[i as int].move_of_this()));
            }
        }
        i += 1;
    }
    proof {
        assert(h.take(history.len() as int) =~= h);
    }
    out
}

impl Info {
    /// The player on turn.
    pub fn player_turn(&self) -> (r: Player)
        requires
            self@.config.player_num > 0,
        ensures
            r == self@.config.player_turn(self@.query_answer.len()),
            r.0 < self@.config.player_num,
    {
        self.config.player_turn(self.query_answer.len())
    }

    /// The moves that `player` has made.
    pub fn moves_of_player(&self, player: Player) -> (r: Vec<Move>)
        requires
            self@.config.player_num > 0,
        ensures
            moves_view(r@) == moves_of_player_spec(
                self@.query_answer,
                self@.config.player_num,
                player,
            ),
    {
        moves_of(&self.query_answer, self.config.player_num(), player)
    }

    /// The queries that the player on turn may make.
    pub fn movable_query(&self) -> (r: Vec<Move>)
        requires
            self@.config.player_num > 0,
        ensures
            moves_view(r@) == movable_query_spec(self@.config, self@.query_answer),
            forall|m: MoveView|
                moves_view(r@).contains(m) <==> (m is Query && legal_move(
                    self@.config,
                    self@.query_answer,
                    m,
                )),
    {
        let p = self.player_turn();
        let past_moves = self.moves_of_player(p);
        let r = keep_allowed(queries_by_player(&self.config), &past_moves, p);
        proof {
            assert forall|m: MoveView|
                moves_view(r@).contains(m) <==> (m is Query && legal_move(
                    self@.config,
                    self@.query_answer,
                    m,
                )) by {
                lemma_movable_query_members(self@.config, self@.query_answer, m);
            }
        }
        r
    }

    /// The declarations that the player on turn may make.
    pub fn movable_declare(&self) -> (r: Vec<Move>)
        requires
            self@.config.player_num > 0,
        ensures
            moves_view(r@) == movable_declare_spec(
                self@.config,
                self@.query_answer,
                arrangements(self@.config.cards_num(), self@.config.head_num),
            ),
            forall|m: MoveView|
                moves_view(r@).contains(m) <==> (m is Declare && legal_move(
                    self@.config,
                    self@.query_answer,
                    m,
                )),
    {
        let p = self.player_turn();
        let past_moves = self.moves_of_player(p);
        let arrs = index_permutations(self.config.cards_num(), self.config.head_num());
        let r = keep_allowed(declares_from(&arrs), &past_moves, p);
        proof {
            assert forall|m: MoveView|
                moves_view(r@).contains(m) <==> (m is Declare && legal_move(
                    self@.config,
                    self@.query_answer,
                    m,
                )) by {
                lemma_movable_declare_members(
                    self@.config,
                    self@.query_answer,
                    arrs.deep_view(),
                    m,
                );
            }
        }
        r
    }
}

/// The public history of a game.
#[derive(Debug, PartialOrd, Ord)]
pub struct History(pub Vec<MoveAns>);

impl vstd::view::View for History {
    type V = Seq<MoveAnsView>;

    open spec fn view(&self) -> Seq<MoveAnsView> {
        history_view(self.0@)
    }
}

impl Clone for History {
    fn clone(&self) -> (r: Self)
        ensures
            r@ == self@,
    {
        History(copy_history(&self.0))
    }
}

impl PartialEq for History {
    fn eq(&self, other: &Self) -> (r: bool) {
        if self.0.len() != other.0.len() {
            proof {
                assert(self@.len() == self.0@.len());
                assert(other@.len() == other.0@.len());
            }
            return false;
        }
        let mut i: usize = 0;
        while i < self.0.len()
            invariant
                i <= self.0.len(),
                self.0.len() == other.0.len(),
                forall|j: int| 0 <= j < i ==> self@[j] == other@[j],
            decreases self.0.len() - i,
        {
            if self.0[i] != other.0[i] {
                proof {
                    assert(self@[i as int] != other@[i as int]);
                }
                return false;
            }
            proof {
                assert(self@[i as int] == other@[i as int]);
            }
            i += 1;
        }
        proof {
            assert(self@ =~= other@);
        }
        true
    }
}

impl Eq for History {}

impl PartialEqSpecImpl for History {
    open spec fn obeys_eq_spec() -> bool {
        true
    }

    open spec fn eq_spec(&self, other: &Self) -> bool {
        self@ == other@
    }
}

/// A game as plain values: the rules, the hidden deal and the history.
pub struct GameView {
    pub config: ConfigView,
    pub distr: Seq<PlCardView>,
    pub query_answer: Seq<MoveAnsView>,
}

/// The true entry for the move that was made after `i` others on `deal`: it
/// names the player who was on turn and only seated players, and it holds
/// the answer that the rules give.
pub open spec fn entry_true(cfg: ConfigView, deal: Seq<PlCardView>, i: int, e: MoveAnsView) -> bool {
    &&& e.actor() == cfg.player_turn(i as nat)
    &&& e.seated(cfg)
    &&& e == answer_spec(cfg, deal, e.move_of_this(), e.actor())
}

impl GameView {
    /// The rules are well-formed and seat a player, the deal is legal,
    /// every entry of the history is true of the deal, and no move was made
    /// after a right declaration.
    pub open spec fn wf(self) -> bool {
        &&& self.config.wf()
        &&& self.config.player_num > 0
        &&& deal_valid(self.config, self.distr)
        &&& forall|i: int|
            0 <= i < self.query_answer.len() ==> entry_true(
                self.config,
                self.distr,
                i,
                #[trigger] self.query_answer[i],
            )
        &&& forall|i: int|
            0 <= i < self.query_answer.len() - 1 ==> !(
            #[trigger] self.query_answer[i]).is_right_declare()
    }

    /// The player on turn.
    pub open spec fn player_turn(self) -> Player {
        self.config.player_turn(self.query_answer.len())
    }

    /// The player whose right declaration ended the game, if it has ended.
    pub open spec fn winner(self) -> Option<Player> {
        if self.query_answer.len() == 0 {
            None
        } else {
            match self.query_answer.last() {
                MoveAnsView::Declare { who, declare, ans } => if ans {
                    Some(who)
                } else {
                    None
                },
                MoveAnsView::Query { who, query_to, query_sort, ans } => None,
            }
        }
    }

    /// What the player on turn is told.
    pub open spec fn info(self) -> InfoView {
        InfoView {
            config: self.config,
            query_answer: self.query_answer,
            view: seen_by(self.distr, self.player_turn()),
        }
    }

    /// The moves open to the player on turn: none when the game is over,
    /// else the allowed queries and behind them the allowed declarations.
    pub open spec fn legal_moves(self) -> Seq<MoveView> {
        if self.winner().is_some() {
            Seq::empty()
        } else {
            movable_query_spec(self.config, self.query_answer) + movable_declare_spec(
                self.config,
                self.query_answer,
                arrangements(self.config.cards_num(), self.config.head_num),
            )
        }
    }

    /// Is `m` open to the player on turn?
    pub open spec fn accepts(self, m: MoveView) -> bool {
        self.winner().is_none() && legal_move(self.config, self.query_answer, m)
    }

    /// The game after the player on turn has made the move `m`.
    pub open spec fn after(self, m: MoveView) -> GameView {
        GameView {
            config: self.config,
            distr: self.distr,
            query_answer: self.query_answer.push(
                answer_spec(self.config, self.distr, m, self.player_turn()),
            ),
        }
    }
}

/// A game in progress. It alone knows the deal; players learn of it through
/// `info_and_move_now` and change it through `move_game`.
#[derive(Debug, PartialEq)]
pub struct Game {
    config: GameConfig,
    distr: Distr,
    query_answer: Vec<MoveAns>,
}

impl vstd::view::View for Game {
    type V = GameView;

    closed spec fn view(&self) -> GameView {
        GameView {
            config: self.config@,
            distr: self.distr@,
            query_answer: history_view(self.query_answer@),
        }
    }
}

impl Clone for Game {
    fn clone(&self) -> (r: Self)
        ensures
            r@ == self@,
    {
        Game {
            config: self.config.clone(),
            distr: self.distr.clone(),
            query_answer: copy_history(&self.query_answer),
        }
    }
}

impl Game {
    /// The public history, oldest entry first.
    pub fn history(&self) -> (r: &Vec<MoveAns>)
        ensures
            history_view(r@) == self@.query_answer,
    {
        &self.query_answer
    }

    /// The rules of this game.
    pub fn config(&self) -> (r: &GameConfig)
        ensures
            r@ == self@.config,
    {
        &self.config
    }

    /// The deals that the player on turn reckons with. The deal of the
    /// game is one of them.
    pub fn belief_now(&self) -> (r: Vec<Distr>)
        requires
            self.valid(),
        ensures
            crate::utils::deals_view(r@) == crate::utils::possible_states_spec(
                self@.config,
                self@.query_answer,
                self@.info().view,
            ),
            crate::utils::deals_view(r@).contains(self@.distr),
            forall|i: int|
                0 <= i < r@.len() ==> deal_valid(self@.config, (#[trigger] r@[i])@) && seen_by(
                    r@[i]@,
                    self@.player_turn(),
                ) == self@.info().view,
    {
        let info = self.info_and_move_now().0;
        proof {
            crate::utils::lemma_game_info_ready(self@);
            assert(info@.query_answer.len() == info.query_answer@.len());
        }
        crate::utils::possible_states(&info.config, &info.query_answer, &info.view)
    }

    /// The player whose right declaration ended the game, if it has ended.
    pub fn winner(&self) -> (r: Option<Player>)
        ensures
            r == self@.winner(),
    {
        let n = self.query_answer.len();
        if n == 0 {
            return None;
        }
        proof {
            assert(self@.query_answer.last() == self.query_answer@[n - 1]@);
        }
        match &self.query_answer[n - 1] {
            MoveAns::Declare { who, declare: _, ans } => if *ans {
                Some(*who)
            } else {
                None
            },
            MoveAns::Query { who: _, query_to: _, query_sort: _, ans: _ } => None,
        }
    }
}

impl ImperfectInfoGame for Game {
    type Info = Info;

    type Move = Move;

    open spec fn valid(&self) -> bool {
        self@.wf()
    }

    fn player_number(&self) -> (r: usize)
        ensures
            r == self@.config.player_num,
    {
        self.config.player_num()
    }

    fn player_turn(&self) -> (r: Player)
        ensures
            r == self@.player_turn(),
            r.0 < self@.config.player_num,
    {
        self.config.player_turn(self.query_answer.len())
    }

    fn info_and_move_now(&self) -> (r: (Info, Vec<Move>))
        ensures
            r.0@ == self@.info(),
            moves_view(r.1@) == self@.legal_moves(),
            forall|m: MoveView| moves_view(r.1@).contains(m) <==> self@.accepts(m),
            crate::utils::info_ready(r.0@),
            crate::utils::sight_valid(self@.config, r.0@.view, self@.player_turn()),
            self@.winner().is_none() ==> r.1@.len() > 0 && crate::utils::running(
                self@.config,
                self@.query_answer,
            ),
    {
        let seats = self.config.player_num();
        proof {
            crate::utils::lemma_game_info_ready(self@);
            crate::belief::lemma_sight_of_deal(self@.config, self@.distr, self@.player_turn());
            if self@.winner().is_none() {
                crate::laws::law_true_head_is_open(self@);
            }
        }
        let info = Info {
            config: self.config.clone(),
            query_answer: copy_history(&self.query_answer),
            view: self.distr.cards_from_player(self.player_turn()),
        };
        if self.winner().is_some() {
            let none: Vec<Move> = Vec::new();
            proof {
                assert(moves_view(none@) =~= Seq::<MoveView>::empty());
            }
            return (info, none);
        }
        let mut m = info.movable_query();
        let mut d = info.movable_declare();
        let ghost queries = moves_view(m@);
        let ghost declares = moves_view(d@);
        m.append(&mut d);
        proof {
            assert(moves_view(m@) =~= queries + declares);
            assert forall|x: MoveView| moves_view(m@).contains(x) <==> self@.accepts(x) by {
                if moves_view(m@).contains(x) {
                    let i = choose|i: int| 0 <= i < moves_view(m@).len() && moves_view(m@)[i] == x;
                    if i < queries.len() {
                        assert(queries[i] == x);
                        assert(queries.contains(x));
                    } else {
                        assert(declares[i - queries.len()] == x);
                        assert(declares.contains(x));
                    }
                }
                if self@.accepts(x) {
                    if x is Query {
                        assert(queries.contains(x));
                        let i = choose|i: int| 0 <= i < queries.len() && queries[i] == x;
                        assert(moves_view(m@)[i] == x);
                    } else {
                        assert(declares.contains(x));
                        let i = choose|i: int| 0 <= i < declares.len() && declares[i] == x;
                        assert(moves_view(m@)[queries.len() + i] == x);
                    }
                }
            }
            let own = MoveView::Declare { declare: self@.distr[self@.player_turn().0 as int].head };
            assert(moves_view(m@).contains(own));
        }
        (info, m)
    }

    fn is_win(&self) -> (r: Option<Vec<usize>>)
        ensures
            r.is_some() == self@.winner().is_some(),
            r matches Some(v) ==> v@ == Seq::new(
                self@.config.player_num,
                |i: int|
                    if i == self@.winner().unwrap().0 {
                        1usize
                    } else {
                        0usize
                    },
            ),
    {
        match self.winner() {
            None => None,
            Some(who) => {
                let mut v: Vec<usize> = Vec::new();
                let n = self.config.player_num();
                let mut i: usize = 0;
                while i < n
                    invariant
                        i <= n,
                        v@.len() == i,
                        forall|j: int|
                            0 <= j < i ==> v@[j] == if j == who.0 {
                                1usize
                            } else {
                                0usize
                            },
                    decreases n - i,
                {
                    if i == who.0 {
                        v.push(1);
                    } else {
                        v.push(0);
                    }
                    i += 1;
                }
                proof {
                    assert(v@ =~= Seq::new(
                        self@.config.player_num,
                        |i: int|
                            if i == who.0 {
                                1usize
                            } else {
                                0usize
                            },
                    ));
                }
                Some(v)
            },
        }
    }

    fn move_game(&mut self, m: Move) -> (r: bool)
        ensures
            r == old(self)@.accepts(m@),
            r ==> final(self)@ == old(self)@.after(m@),
            !r ==> final(self)@ == old(self)@,
    {
        let moves = self.info_and_move_now().1;
        if !contains_move(&moves, &m) {
            return false;
        }
        proof {
            assert(moves_view(moves@).contains(m@));
        }
        self.record(m);
        true
    }
}

impl Game {
    /// Answers the move `m` of the player on turn and writes it down.
    fn record(&mut self, m: Move)
        requires
            old(self).valid(),
            old(self)@.accepts(m@),
        ensures
            final(self).valid(),
            final(self)@ == old(self)@.after(m@),
    {
        let who = self.player_turn();
        let ghost before = self@;
        let ghost mv = m@;
        proof {
            assert(legal_move(before.config, before.query_answer, mv));
        }
        let qa = answer(&self.config, &self.distr, m, who);
        self.query_answer.push(qa);
        proof {
            assert(self@.query_answer =~= before.query_answer.push(qa@));
            assert(self@ == before.after(mv));
            assert forall|i: int| 0 <= i < self@.query_answer.len() implies entry_true(
                self@.config,
                self@.distr,
                i,
                #[trigger] self@.query_answer[i],
            ) by {
                if i < before.query_answer.len() {
                    assert(self@.query_answer[i] == before.query_answer[i]);
                    assert(entry_true(before.config, before.distr, i, before.query_answer[i]));
                } else {
                    assert(self@.query_answer[i] == qa@);
                    assert(qa@.move_of_this() == mv);
                    assert(qa@.actor() == who);
                    assert(qa@.seated(before.config));
                }
            }
            assert forall|i: int| 0 <= i < self@.query_answer.len() - 1 implies !(
            #[trigger] self@.query_answer[i]).is_right_declare() by {
                assert(self@.query_answer[i] == before.query_answer[i]);
                if i == before.query_answer.len() - 1 {
                    assert(before.winner().is_none());
                }
            }
        }
    }

    /// Makes the move `m` for the player on turn, or says why the rules do
    /// not allow it and leaves the game as it was.
    pub fn apply(&mut self, m: Move) -> (r: Result<(), IllegalMove>)
        requires
            old(self).valid(),
        ensures
            final(self).valid(),
            r == match old(self)@.refusal(m@) {
                Some(why) => Err::<(), IllegalMove>(why),
                None => Ok(()),
            },
            r is Ok ==> final(self)@ == old(self)@.after(m@),
            r is Err ==> final(self)@ == old(self)@,
    {
        proof {
            self@.lemma_refusal(m@);
        }
        if self.winner().is_some() {
            return Err(IllegalMove::Finished);
        }
        let who = self.player_turn();
        let past = moves_of(&self.query_answer, self.config.player_num(), who);
        match &m {
            Move::Query { query_to, query_sort } => {
                if query_to.0 >= self.config.player_num() {
                    return Err(IllegalMove::NoSuchPlayer);
                }
                if query_to.0 == who.0 {
                    return Err(IllegalMove::SelfQuery);
                }
                if !has_label(&self.config.sorts, query_sort) {
                    return Err(IllegalMove::NoSuchSort);
                }
            },
            Move::Declare { declare } => {
                if declare.len() != self.config.head_num() {
                    return Err(IllegalMove::WrongSize);
                }
                if !all_in_deck(declare, self.config.cards_num()) {
                    return Err(IllegalMove::NoSuchCard);
                }
                if !is_increasing(declare) {
                    return Err(IllegalMove::NotInOrder);
                }
            },
        }
        if contains_move(&past, &m) {
            return Err(IllegalMove::Repeated);
        }
        self.record(m);
        Ok(())
    }
}

/// Why a game does not take a move.
#[derive(Debug, Clone, Copy, PartialEq, Eq, Structural)]
pub enum IllegalMove {
    /// The game is over.
    Finished,
    /// The query goes to a player who has no seat.
    NoSuchPlayer,
    /// The query goes to the player who asks.
    SelfQuery,
    /// The query is about a sort that the rules do not list.
    NoSuchSort,
    /// The declaration names more or fewer cards than lie on a head.
    WrongSize,
    /// The declaration names a card that the deck lacks.
    NoSuchCard,
    /// The declaration does not write its cards in increasing order.
    NotInOrder,
    /// The player on turn has made this move before.
    Repeated,
}

impl GameView {
    /// Why the game does not take the move `m`, if it does not: the first
    /// of the reasons that applies.
    pub open spec fn refusal(self, m: MoveView) -> Option<IllegalMove> {
        let actor = self.player_turn();
        let past = moves_of_player_spec(self.query_answer, self.config.player_num, actor);
        if self.winner().is_some() {
            Some(IllegalMove::Finished)
        } else {
            match m {
                MoveView::Query { query_to, query_sort } => if query_to.0
                    >= self.config.player_num {
                    Some(IllegalMove::NoSuchPlayer)
                } else if query_to == actor {
                    Some(IllegalMove::SelfQuery)
                } else if !self.config.sorts.contains(query_sort) {
                    Some(IllegalMove::NoSuchSort)
                } else if past.contains(m) {
                    Some(IllegalMove::Repeated)
                } else {
                    None
                },
                MoveView::Declare { declare } => if declare.len() != self.config.head_num {
                    Some(IllegalMove::WrongSize)
                } else if !in_deck(declare, self.config.cards_num()) {
                    Some(IllegalMove::NoSuchCard)
                } else if !increasing(declare) {
                    Some(IllegalMove::NotInOrder)
                } else if past.contains(m) {
                    Some(IllegalMove::Repeated)
                } else {
                    None
                },
            }
        }
    }

    /// A game takes the moves that it has no reason to refuse.
    pub proof fn lemma_refusal(self, m: MoveView)
        ensures
            self.refusal(m).is_none() <==> self.accepts(m),
    {
    }
}

/// A holding as the rules want it: a hand and a head of the right sizes,
/// each in increasing order and of cards of the deck, with no card in both.
pub open spec fn holding_valid(cfg: ConfigView, h: PlCardView) -> bool {
    &&& h.hand.len() == cfg.hand_num
    &&& h.head.len() == cfg.head_num
    &&& increasing(h.hand)
    &&& increasing(h.head)
    &&& in_deck(h.hand, cfg.cards_num())
    &&& in_deck(h.head, cfg.cards_num())
    &&& no_common(h.hand, h.head)
}

/// Two holdings share no card.
pub open spec fn apart(g: PlCardView, h: PlCardView) -> bool {
    &&& no_common(g.hand, h.hand)
    &&& no_common(g.head, h.head)
    &&& no_common(g.hand, h.head)
    &&& no_common(g.head, h.hand)
}

/// A deal is legal when every holding is as the rules want it and any two
/// holdings share no card.
pub proof fn lemma_deal_valid_by_pairs(cfg: ConfigView, deal: Seq<PlCardView>)
    ensures
        deal_valid(cfg, deal) <==> {
            &&& deal.len() == cfg.player_num
            &&& forall|p: int| 0 <= p < deal.len() ==> holding_valid(cfg, #[trigger] deal[p])
            &&& forall|p: int, q: int|
                0 <= p < q < deal.len() ==> apart(#[trigger] deal[p], #[trigger] deal[q])
        },
{
    let by_pairs = {
        &&& deal.len() == cfg.player_num
        &&& forall|p: int| 0 <= p < deal.len() ==> holding_valid(cfg, #[trigger] deal[p])
        &&& forall|p: int, q: int|
            0 <= p < q < deal.len() ==> apart(#[trigger] deal[p], #[trigger] deal[q])
    };
    if deal_valid(cfg, deal) {
        assert forall|p: int| 0 <= p < deal.len() implies holding_valid(
            cfg,
            #[trigger] deal[p],
        ) by {
            assert forall|i: int, j: int|
                0 <= i < deal[p].hand.len() && 0 <= j < deal[p].head.len() implies deal[p].hand[i]
                != deal[p].head[j] by {}
        }
        assert forall|p: int, q: int| 0 <= p < q < deal.len() implies apart(
            #[trigger] deal[p],
            #[trigger] deal[q],
        ) by {
            assert forall|i: int, j: int|
                0 <= i < deal[p].hand.len() && 0 <= j < deal[q].hand.len() implies deal[p].hand[i]
                != deal[q].hand[j] by {}
            assert forall|i: int, j: int|
                0 <= i < deal[p].head.len() && 0 <= j < deal[q].head.len() implies deal[p].head[i]
                != deal[q].head[j] by {}
            assert forall|i: int, j: int|
                0 <= i < deal[p].hand.len() && 0 <= j < deal[q].head.len() implies deal[p].hand[i]
                != deal[q].head[j] by {}
            assert forall|i: int, j: int|
                0 <= i < deal[p].head.len() && 0 <= j < deal[q].hand.len() implies deal[p].head[i]
                != deal[q].hand[j] by {
                assert(deal[q].hand[j] != deal[p].head[i]);
            }
        }
        assert(by_pairs);
    }
    if by_pairs {
        assert forall|p: int, q: int, i: int, j: int|
            0 <= p < deal.len() && 0 <= q < deal.len() && 0 <= i < deal[p].hand.len() && 0 <= j
                < deal[q].hand.len() && (p != q || i != j) implies #[trigger] deal[p].hand[i]
            != #[trigger] deal[q].hand[j] by {
            assert(holding_valid(cfg, deal[p]));
            if p < q {
                assert(apart(deal[p], deal[q]));
            } else if q < p {
                assert(apart(deal[q], deal[p]));
            }
        }
        assert forall|p: int, q: int, i: int, j: int|
            0 <= p < deal.len() && 0 <= q < deal.len() && 0 <= i < deal[p].head.len() && 0 <= j
                < deal[q].head.len() && (p != q || i != j) implies #[trigger] deal[p].head[i]
            != #[trigger] deal[q].head[j] by {
            assert(holding_valid(cfg, deal[p]));
            if p < q {
                assert(apart(deal[p], deal[q]));
            } else if q < p {
                assert(apart(deal[q], deal[p]));
            }
        }
        assert forall|p: int, q: int, i: int, j: int|
            0 <= p < deal.len() && 0 <= q < deal.len() && 0 <= i < deal[p].hand.len() && 0 <= j
                < deal[q].head.len() implies #[trigger] deal[p].hand[i]
            != #[trigger] deal[q].head[j] by {
            assert(holding_valid(cfg, deal[p]));
            if p < q {
                assert(apart(deal[p], deal[q]));
            } else if q < p {
                assert(apart(deal[q], deal[p]));
            }
        }
        assert forall|p: int| 0 <= p < deal.len() implies {
            &&& (#[trigger] deal[p]).hand.len() == cfg.hand_num
            &&& deal[p].head.len() == cfg.head_num
            &&& increasing(deal[p].hand)
            &&& increasing(deal[p].head)
            &&& in_deck(deal[p].hand, cfg.cards_num())
            &&& in_deck(deal[p].head, cfg.cards_num())
        } by {
            assert(holding_valid(cfg, deal[p]));
        }
        assert(deal_valid(cfg, deal));
    }
}

/// Is the holding as the rules want it?
pub fn holding_is_valid(config: &GameConfig, h: &PlCard) -> (r: bool)
    ensures
        r == holding_valid(config@, h@),
{
    h.hand.len() == config.hand_num() && h.head.len() == config.head_num() && is_increasing(
        &h.hand,
    ) && is_increasing(&h.head) && all_in_deck(&h.hand, config.cards_num()) && all_in_deck(
        &h.head,
        config.cards_num(),
    ) && no_common_card(&h.hand, &h.head)
}

/// Do the two holdings share no card?
pub fn holdings_apart(g: &PlCard, h: &PlCard) -> (r: bool)
    ensures
        r == apart(g@, h@),
{
    no_common_card(&g.hand, &h.hand) && no_common_card(&g.head, &h.head) && no_common_card(
        &g.hand,
        &h.head,
    ) && no_common_card(&g.head, &h.hand)
}

impl Distr {
    /// Is this a legal deal under the rules `config`?
    pub fn is_valid(&self, config: &GameConfig) -> (r: bool)
        ensures
            r == deal_valid(config@, self@),
    {
        let ghost cfg = config@;
        let ghost deal = self@;
        proof {
            lemma_deal_valid_by_pairs(cfg, deal);
        }
        let n = self.state.len();
        if n != config.player_num() {
            return false;
        }
        let mut p: usize = 0;
        while p < n
            invariant
                p <= n,
                n == self.state@.len(),
                deal == self@,
                cfg == config@,
                forall|a: int| 0 <= a < p ==> holding_valid(cfg, #[trigger] deal[a]),
                forall|a: int, b: int|
                    0 <= a < p && a < b < n ==> apart(#[trigger] deal[a], #[trigger] deal[b]),
            decreases n - p,
        {
            proof {
                assert(deal[p as int] == self.state@[p as int]@);
            }
            if !holding_is_valid(config, &self.state[p]) {
                return false;
            }
            let mut q: usize = p + 1;
            while q < n
                invariant
                    p < q <= n,
                    n == self.state@.len(),
                    deal == self@,
                    forall|b: int| p < b < q ==> apart(deal[p as int], #[trigger] deal[b]),
                decreases n - q,
            {
                proof {
                    assert(deal[p as int] == self.state@[p as int]@);
                    assert(deal[q as int] == self.state@[q as int]@);
                }
                if !holdings_apart(&self.state[p], &self.state[q]) {
                    return false;
                }
                q += 1;
            }
            p += 1;
        }
        true
    }
}

impl Game {
    /// The game under the rules `config` that starts from the deal `distr`,
    /// if that is a legal deal and the rules seat a player.
    pub fn new(config: GameConfig, distr: Distr) -> (r: Option<Self>)
        requires
            config@.wf(),
        ensures
            r.is_some() == (config@.player_num > 0 && deal_valid(config@, distr@)),
            r matches Some(g) ==> g.valid() && g@ == (GameView {
                config: config@,
                distr: distr@,
                query_answer: Seq::empty(),
            }),
    {
        if config.player_num() == 0 || !distr.is_valid(&config) {
            return None;
        }
        let g = Game { config, distr, query_answer: Vec::new() };
        proof {
            assert(g@.query_answer =~= Seq::empty());
        }
        Some(g)
    }
}

impl GameConfig {
    /// A new game on a random deal. The deck is mixed by swapping two cards
    /// drawn at random, as often as the square of its size; then each player
    /// in turn takes a hand and a head from the top.
    pub fn gen_random(&self, rng: &mut SmallRng) -> (r: Game)
        requires
            self@.wf(),
            self@.player_num > 0,
        ensures
            r.valid(),
            r@.config == self@,
            r@.query_answer.len() == 0,
    {
        let ghost cfg = self@;
        let mut perm = self.all_cards();
        let len = perm.len();
        let mut a: usize = 0;
        while a < len
            invariant
                a <= len,
                len == perm@.len(),
                len == cfg.cards_num(),
                distinct(perm@),
                in_deck(perm@, cfg.cards_num()),
            decreases len - a,
        {
            let mut b: usize = 0;
            while b < len
                invariant
                    b <= len,
                    len == perm@.len(),
                    len == cfg.cards_num(),
                    distinct(perm@),
                    in_deck(perm@, cfg.cards_num()),
                decreases len - b,
            {
                let i = random_below(rng, len);
                let j = random_below(rng, len);
                let ci = perm[i];
                let cj = perm[j];
                perm[i] = cj;
                perm[j] = ci;
                b += 1;
            }
            a += 1;
        }
        let n = self.player_num;
        proof {
            assert(cfg.hand_num + cfg.head_num <= (cfg.head_num + cfg.hand_num) * cfg.player_num)
                by (nonlinear_arith)
                requires
                    cfg.player_num >= 1,
            ;
        }
        let each = self.hand_num + self.head_num;
        let mut state: Vec<PlCard> = Vec::new();
        let mut next: usize = 0;
        let mut p: usize = 0;
        while p < n
            invariant
                p <= n,
                cfg == self@,
                cfg.wf(),
                n == cfg.player_num,
                each == cfg.hand_num + cfg.head_num,
                len == perm@.len(),
                len == cfg.cards_num(),
                distinct(perm@),
                in_deck(perm@, cfg.cards_num()),
                next == p * each,
                next <= len,
                state@.len() == p,
                forall|q: int| 0 <= q < p ==> holding_valid(cfg, (#[trigger] state@[q])@),
                forall|q: int, r: int|
                    0 <= q < r < p ==> apart((#[trigger] state@[q])@, (#[trigger] state@[r])@),
                forall|q: int, x: Card|
                    0 <= q < p && ((#[trigger] state@[q])@.hand.contains(x)
                        || state@[q]@.head.contains(x)) ==> #[trigger] within(
                        perm@,
                        0,
                        next as int,
                        x,
                    ),
            decreases n - p,
        {
            proof {
                assert((p + 1) * each == p * each + each) by (nonlinear_arith);
                assert((p + 1) * each <= (cfg.head_num + cfg.hand_num) * cfg.player_num)
                    by (nonlinear_arith)
                    requires
                        p + 1 <= cfg.player_num,
                        each == cfg.hand_num + cfg.head_num,
                ;
            }
            let hand = take_sorted(&perm, next, self.hand_num);
            let mid = next + self.hand_num;
            let head = take_sorted(&perm, mid, self.head_num);
            let ghost lo = next as int;
            let ghost hi = next + each;
            let h = PlCard { hand, head };
            proof {
                assert forall|i: int| 0 <= i < h@.hand.len() implies lo <= place(perm@, h@.hand[i])
                    < mid && perm@[place(perm@, h@.hand[i])] == #[trigger] h@.hand[i] by {
                    assert(h@.hand.contains(h@.hand[i]));
                    assert(within(perm@, lo, mid as int, h@.hand[i]));
                    lemma_place(perm@, lo, mid as int, h@.hand[i]);
                }
                assert forall|i: int| 0 <= i < h@.head.len() implies mid <= place(perm@, h@.head[i])
                    < hi && perm@[place(perm@, h@.head[i])] == #[trigger] h@.head[i] by {
                    assert(h@.head.contains(h@.head[i]));
                    assert(within(perm@, mid as int, hi, h@.head[i]));
                    lemma_place(perm@, mid as int, hi, h@.head[i]);
                }
                assert(in_deck(h@.hand, cfg.cards_num())) by {
                    assert forall|i: int| 0 <= i < h@.hand.len() implies (#[trigger] h@.hand[i]).0
                        < cfg.cards_num() by {
                        assert(perm@[place(perm@, h@.hand[i])].0 < cfg.cards_num());
                    }
                }
                assert(in_deck(h@.head, cfg.cards_num())) by {
                    assert forall|i: int| 0 <= i < h@.head.len() implies (#[trigger] h@.head[i]).0
                        < cfg.cards_num() by {
                        assert(perm@[place(perm@, h@.head[i])].0 < cfg.cards_num());
                    }
                }
                assert(no_common(h@.hand, h@.head)) by {
                    assert forall|i: int, j: int|
                        0 <= i < h@.hand.len() && 0 <= j < h@.head.len() implies h@.hand[i]
                        != h@.head[j] by {
                        assert(place(perm@, h@.hand[i]) < place(perm@, h@.head[j]));
                    }
                }
                assert forall|q: int| 0 <= q < p implies apart((#[trigger] state@[q])@, h@) by {
                    let g = state@[q]@;
                    assert forall|i: int, x: Card|
                        (0 <= i < g.hand.len() && g.hand[i] == x) || (0 <= i < g.head.len()
                            && g.head[i] == x) implies place(perm@, x) < lo && perm@[place(
                        perm@,
                        x,
                    )] == x by {
                        assert(g.hand.contains(x) || g.head.contains(x));
                        assert(within(perm@, 0, lo, x));
                        lemma_place(perm@, 0, lo, x);
                    }
                    assert forall|i: int, j: int|
                        0 <= i < g.hand.len() && 0 <= j < h@.hand.len() implies g.hand[i]
                        != h@.hand[j] by {
                        assert(place(perm@, g.hand[i]) < lo <= place(perm@, h@.hand[j]));
                    }
                    assert forall|i: int, j: int|
                        0 <= i < g.head.len() && 0 <= j < h@.head.len() implies g.head[i]
                        != h@.head[j] by {
                        assert(place(perm@, g.head[i]) < lo <= place(perm@, h@.head[j]));
                    }
                    assert forall|i: int, j: int|
                        0 <= i < g.hand.len() && 0 <= j < h@.head.len() implies g.hand[i]
                        != h@.head[j] by {
                        assert(place(perm@, g.hand[i]) < lo <= place(perm@, h@.head[j]));
                    }
                    assert forall|i: int, j: int|
                        0 <= i < g.head.len() && 0 <= j < h@.hand.len() implies g.head[i]
                        != h@.hand[j] by {
                        assert(place(perm@, g.head[i]) < lo <= place(perm@, h@.hand[j]));
                    }
                }
            }
            let ghost before = state@;
            state.push(h);
            proof {
                assert forall|q: int, x: Card|
                    0 <= q < p + 1 && ((#[trigger] state@[q])@.hand.contains(x)
                        || state@[q]@.head.contains(x)) implies #[trigger] within(
                    perm@,
                    0,
                    hi,
                    x,
                ) by {
                    if q < p {
                        assert(state@[q] == before[q]);
                        assert(within(perm@, 0, lo, x));
                        lemma_place(perm@, 0, lo, x);
                    } else if state@[q]@.hand.contains(x) {
                        assert(within(perm@, lo, mid as int, x));
                        lemma_place(perm@, lo, mid as int, x);
                    } else {
                        assert(within(perm@, mid as int, hi, x));
                        lemma_place(perm@, mid as int, hi, x);
                    }
                    assert(0 <= place(perm@, x) < hi && perm@[place(perm@, x)] == x);
                }
            }
            next = mid + self.head_num;
            p += 1;
        }
        let distr = Distr { state };
        let g = Game { config: self.clone(), distr, query_answer: Vec::new() };
        proof {
            lemma_deal_valid_by_pairs(cfg, g@.distr);
            assert(g@.query_answer =~= Seq::empty());
            assert forall|q: int| 0 <= q < g@.distr.len() implies holding_valid(
                cfg,
                #[trigger] g@.distr[q],
            ) by {
                assert(g@.distr[q] == state@[q]@);
            }
            assert forall|q: int, r: int| 0 <= q < r < g@.distr.len() implies apart(
                #[trigger] g@.distr[q],
                #[trigger] g@.distr[r],
            ) by {
                assert(g@.distr[q] == state@[q]@);
                assert(g@.distr[r] == state@[r]@);
            }
        }
        g
    }
}

} // verus!
