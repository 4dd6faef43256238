use game::abstract_game::{ImperfectInfoGame, Player};
use game::defs::{
    all_query, answer, Card, Distr, Game, GameConfig, History, IllegalMove, Info,
    InvalidConfiguration, Move, MoveAns, PlCard, Sort, View,
};
use game::utils::{default_config, four_midium, movable_query_ref, three_midium};

fn sort(s: &str) -> Sort {
    Sort(s.to_string())
}

fn letters() -> GameConfig {
    let a = || vec![sort("A")];
    let b = || vec![sort("B")];
    GameConfig::new(vec![sort("A"), sort("B")], vec![a(), a(), a(), b(), b(), b()], 3, 1, 1)
        .unwrap()
}

fn straight() -> Distr {
    Distr::new(vec![
        PlCard { hand: vec![Card(0)], head: vec![Card(3)] },
        PlCard { hand: vec![Card(1)], head: vec![Card(4)] },
        PlCard { hand: vec![Card(2)], head: vec![Card(5)] },
    ])
}

fn query(to: usize, s: &str) -> Move {
    Move::Query { query_to: Player(to), query_sort: sort(s) }
}

fn declare(cards: &[usize]) -> Move {
    Move::Declare { declare: cards.iter().map(|c| Card(*c)).collect() }
}

#[test]
fn config_needs_a_card_for_every_place() {
    let cards = || vec![vec![sort("A")], vec![sort("A")], vec![sort("A")]];
    assert!(GameConfig::new(vec![sort("A")], cards(), 2, 1, 1).is_none());
    assert!(GameConfig::new(vec![sort("A")], cards(), 3, 1, 0).is_some());
    assert!(GameConfig::new(vec![sort("A")], cards(), 1, 1, 2).is_some());
    assert!(GameConfig::new(vec![sort("A")], cards(), 1, 2, 2).is_none());
    assert!(GameConfig::new(vec![sort("A")], cards(), 0, 7, 7).is_some());
}

#[test]
fn config_sizes_beyond_the_machine_are_refused() {
    let cards = vec![vec![sort("A")]];
    assert!(GameConfig::new(vec![sort("A")], cards, 2, usize::MAX, usize::MAX).is_none());
    let cards = vec![vec![sort("A")]];
    assert!(GameConfig::new(vec![sort("A")], cards, usize::MAX, 1, 1).is_none());
}

#[test]
fn config_refuses_a_sort_that_is_not_listed() {
    let cards = vec![vec![sort("A")], vec![sort("C")]];
    assert!(GameConfig::new(vec![sort("A"), sort("B")], cards, 1, 1, 1).is_none());
}

#[test]
fn config_refuses_a_sort_listed_twice() {
    let cards = vec![vec![sort("A")], vec![sort("A")]];
    assert!(GameConfig::new(vec![sort("A"), sort("A")], cards, 1, 1, 1).is_none());
}

#[test]
fn config_getters() {
    let c = letters();
    assert_eq!(c.player_num(), 3);
    assert_eq!(c.head_num(), 1);
    assert_eq!(c.hand_num(), 1);
    assert_eq!(c.cards_num(), 6);
    assert_eq!(c.all_player(), vec![Player(0), Player(1), Player(2)]);
    assert_eq!(c.all_sort(), vec![sort("A"), sort("B")]);
    assert_eq!(c.all_cards(), (0..6).map(Card).collect::<Vec<_>>());
    assert_eq!(c.all_sort_of_card(&Card(4)), &vec![sort("B")]);
    assert!(c.has_sort(&Card(2), &sort("A")));
    assert!(!c.has_sort(&Card(2), &sort("B")));
    assert_eq!(c.player_turn(0), Player(0));
    assert_eq!(c.player_turn(5), Player(2));
    assert_eq!(c.player_turn(6), Player(0));
    assert_eq!(c.clone(), c);
}

#[test]
fn player_and_number_convert() {
    let p: Player = 2.into();
    assert_eq!(p, Player(2));
    let n: usize = p.into();
    assert_eq!(n, 2);
}

#[test]
fn ready_made_configs() {
    let c = default_config();
    assert_eq!((c.player_num(), c.head_num(), c.hand_num(), c.cards_num()), (3, 1, 1, 6));
    assert_eq!(c.all_sort(), vec![sort("A"), sort("B"), sort("X"), sort("Y"), sort("Z")]);
    assert_eq!(c.all_sort_of_card(&Card(0)), &vec![sort("A"), sort("X")]);
    assert_eq!(c.all_sort_of_card(&Card(5)), &vec![sort("B"), sort("Z")]);
    let c = three_midium();
    assert_eq!((c.player_num(), c.head_num(), c.hand_num(), c.cards_num()), (3, 2, 2, 12));
    assert_eq!(
        c.all_sort(),
        ["A", "B", "C", "W", "X", "Y", "Z"].map(sort).to_vec()
    );
    assert_eq!(c.all_sort_of_card(&Card(4)), &vec![sort("B"), sort("Y")]);
    assert_eq!(c.all_sort_of_card(&Card(11)), &vec![sort("C"), sort("W")]);
    let c = four_midium();
    assert_eq!((c.player_num(), c.head_num(), c.hand_num(), c.cards_num()), (4, 2, 1, 12));
    assert_eq!(c.all_sort_of_card(&Card(6)), &vec![sort("A"), sort("Z")]);
}

#[test]
fn deal_getters_and_sight() {
    let d = straight();
    assert_eq!(d.players_head(Player(1)), &vec![Card(4)]);
    assert_eq!(d.players_hand(Player(2)), &vec![Card(2)]);
    let v = d.cards_from_player(Player(1));
    assert_eq!(
        v,
        View { hand: vec![Card(1)], other: vec![Some(vec![Card(3)]), None, Some(vec![Card(5)])] }
    );
    assert_eq!(v.sort_num(&letters(), &sort("B")), 2);
    assert_eq!(v.sort_num(&letters(), &sort("A")), 1);
    assert_eq!(d.clone(), d);
}

#[test]
fn deal_validity() {
    let c = letters();
    assert!(straight().is_valid(&c));
    let twice = Distr::new(vec![
        PlCard { hand: vec![Card(0)], head: vec![Card(3)] },
        PlCard { hand: vec![Card(1)], head: vec![Card(3)] },
        PlCard { hand: vec![Card(2)], head: vec![Card(5)] },
    ]);
    assert!(!twice.is_valid(&c));
    let own = Distr::new(vec![
        PlCard { hand: vec![Card(0)], head: vec![Card(0)] },
        PlCard { hand: vec![Card(1)], head: vec![Card(4)] },
        PlCard { hand: vec![Card(2)], head: vec![Card(5)] },
    ]);
    assert!(!own.is_valid(&c));
    let short = Distr::new(vec![
        PlCard { hand: vec![Card(0)], head: vec![Card(3)] },
        PlCard { hand: vec![Card(1)], head: vec![Card(4)] },
    ]);
    assert!(!short.is_valid(&c));
    let big = Distr::new(vec![
        PlCard { hand: vec![Card(0)], head: vec![Card(3)] },
        PlCard { hand: vec![Card(1), Card(4)], head: vec![] },
        PlCard { hand: vec![Card(2)], head: vec![Card(5)] },
    ]);
    assert!(!big.is_valid(&c));
    let far = Distr::new(vec![
        PlCard { hand: vec![Card(0)], head: vec![Card(3)] },
        PlCard { hand: vec![Card(1)], head: vec![Card(6)] },
        PlCard { hand: vec![Card(2)], head: vec![Card(5)] },
    ]);
    assert!(!far.is_valid(&c));
    assert!(Game::new(letters(), far).is_none());
    let wide = GameConfig::new(vec![sort("A")], vec![vec![], vec![], vec![], vec![]], 1, 2, 2)
        .unwrap();
    let sorted = Distr::new(vec![PlCard { hand: vec![Card(1), Card(2)], head: vec![Card(0), Card(3)] }]);
    assert!(sorted.is_valid(&wide));
    let unsorted =
        Distr::new(vec![PlCard { hand: vec![Card(2), Card(1)], head: vec![Card(0), Card(3)] }]);
    assert!(!unsorted.is_valid(&wide));
}

#[test]
fn no_game_without_players() {
    let c = GameConfig::new(vec![sort("A")], vec![vec![sort("A")]], 0, 1, 1).unwrap();
    assert!(Game::new(c, Distr::new(vec![])).is_none());
}

#[test]
fn oracle_counts_what_the_asked_player_sees() {
    let c = letters();
    let d = straight();
    assert_eq!(
        answer(&c, &d, query(1, "B"), Player(0)),
        MoveAns::Query { who: Player(0), query_to: Player(1), query_sort: sort("B"), ans: 2 }
    );
    assert_eq!(
        answer(&c, &d, query(1, "A"), Player(0)),
        MoveAns::Query { who: Player(0), query_to: Player(1), query_sort: sort("A"), ans: 1 }
    );
    assert_eq!(
        answer(&c, &d, query(0, "B"), Player(2)),
        MoveAns::Query { who: Player(2), query_to: Player(0), query_sort: sort("B"), ans: 2 }
    );
    assert_eq!(
        answer(&c, &d, query(2, "C"), Player(0)),
        MoveAns::Query { who: Player(0), query_to: Player(2), query_sort: sort("C"), ans: 0 }
    );
}

#[test]
fn oracle_answer_does_not_depend_on_the_asker() {
    let c = letters();
    let d = straight();
    for s in ["A", "B"] {
        for to in 0..3 {
            let by_one = answer(&c, &d, query(to, s), Player(0));
            let by_other = answer(&c, &d, query(to, s), Player(2));
            match (by_one, by_other) {
                (MoveAns::Query { ans: a, .. }, MoveAns::Query { ans: b, .. }) => assert_eq!(a, b),
                _ => panic!("a query is answered by a count"),
            }
        }
    }
}

#[test]
fn oracle_repeats_itself() {
    let c = letters();
    let d = straight();
    for m in [query(1, "B"), declare(&[4]), declare(&[3])] {
        assert_eq!(answer(&c, &d, m.clone(), Player(1)), answer(&c, &d, m, Player(1)));
    }
}

#[test]
fn declare_is_right_for_the_own_head_only() {
    let c = letters();
    let d = straight();
    for p in 0..3 {
        for card in 0..6 {
            let right = card == p + 3;
            assert_eq!(
                answer(&c, &d, declare(&[card]), Player(p)),
                MoveAns::Declare { who: Player(p), declare: vec![Card(card)], ans: right }
            );
        }
    }
    assert_eq!(
        answer(&c, &d, declare(&[3, 4]), Player(0)),
        MoveAns::Declare { who: Player(0), declare: vec![Card(3), Card(4)], ans: false }
    );
    assert_eq!(
        answer(&c, &d, declare(&[]), Player(0)),
        MoveAns::Declare { who: Player(0), declare: vec![], ans: false }
    );
}

#[test]
fn declare_is_compared_as_a_set() {
    let wide = GameConfig::new(vec![sort("A")], vec![vec![], vec![], vec![], vec![]], 1, 2, 2)
        .unwrap();
    let d = Distr::new(vec![PlCard { hand: vec![Card(1), Card(2)], head: vec![Card(0), Card(3)] }]);
    assert_eq!(
        answer(&wide, &d, declare(&[3, 0]), Player(0)),
        MoveAns::Declare { who: Player(0), declare: vec![Card(3), Card(0)], ans: true }
    );
    assert_eq!(
        answer(&wide, &d, declare(&[0, 3]), Player(0)),
        MoveAns::Declare { who: Player(0), declare: vec![Card(0), Card(3)], ans: true }
    );
    assert_eq!(
        answer(&wide, &d, declare(&[0, 1]), Player(0)),
        MoveAns::Declare { who: Player(0), declare: vec![Card(0), Card(1)], ans: false }
    );
}

#[test]
fn move_of_an_entry() {
    let e = MoveAns::Query { who: Player(0), query_to: Player(1), query_sort: sort("B"), ans: 2 };
    assert_eq!(e.move_of_this(), query(1, "B"));
    assert_eq!(e.actor(), Player(0));
    let e = MoveAns::Declare { who: Player(2), declare: vec![Card(4)], ans: false };
    assert_eq!(e.move_of_this(), declare(&[4]));
    assert_eq!(e.actor(), Player(2));
    assert_eq!(e.clone(), e);
}

#[test]
fn all_queries_go_sort_by_sort() {
    assert_eq!(
        all_query(&letters()),
        vec![
            query(0, "A"),
            query(1, "A"),
            query(2, "A"),
            query(0, "B"),
            query(1, "B"),
            query(2, "B"),
        ]
    );
}

#[test]
fn first_turn_moves() {
    let game = Game::new(letters(), straight()).unwrap();
    let (info, moves) = game.info_and_move_now();
    assert_eq!(info.config, letters());
    assert_eq!(info.query_answer, vec![]);
    assert_eq!(info.view, straight().cards_from_player(Player(0)));
    assert_eq!(info.player_turn(), Player(0));
    assert_eq!(
        info.movable_query(),
        vec![query(1, "A"), query(1, "B"), query(2, "A"), query(2, "B")]
    );
    assert_eq!(info.movable_declare(), (0..6).map(|c| declare(&[c])).collect::<Vec<_>>());
    let mut expected = info.movable_query();
    expected.extend(info.movable_declare());
    assert_eq!(moves, expected);
    assert_eq!(moves.len(), 10);
}

#[test]
fn declarations_of_two_cards_come_as_sets() {
    let wide = GameConfig::new(vec![sort("A")], vec![vec![], vec![], vec![], vec![]], 1, 2, 2)
        .unwrap();
    let d = Distr::new(vec![PlCard { hand: vec![Card(1), Card(2)], head: vec![Card(0), Card(3)] }]);
    let game = Game::new(wide, d).unwrap();
    let (info, moves) = game.info_and_move_now();
    assert_eq!(info.movable_query(), vec![]);
    assert_eq!(
        moves,
        vec![
            declare(&[0, 1]),
            declare(&[0, 2]),
            declare(&[0, 3]),
            declare(&[1, 2]),
            declare(&[1, 3]),
            declare(&[2, 3]),
        ]
    );
}

#[test]
fn asking_twice_tells_the_same() {
    let mut game = Game::new(letters(), straight()).unwrap();
    assert_eq!(game.info_and_move_now(), game.info_and_move_now());
    assert!(game.move_game(query(2, "A")));
    let first = game.info_and_move_now();
    let second = game.info_and_move_now();
    assert_eq!(first, second);
    assert_eq!(game.history().len(), 1);
}

#[test]
fn illegal_moves_change_nothing() {
    let mut game = Game::new(letters(), straight()).unwrap();
    let start = game.clone();
    assert!(!game.move_game(query(0, "A")));
    assert!(!game.move_game(query(3, "A")));
    assert!(!game.move_game(query(1, "C")));
    assert!(!game.move_game(declare(&[])));
    assert!(!game.move_game(declare(&[1, 2])));
    assert!(!game.move_game(declare(&[6])));
    assert_eq!(game, start);
    assert!(game.move_game(query(1, "A")));
    assert_eq!(game.history().len(), 1);
    assert!(game.move_game(query(0, "A")));
    assert_eq!(game.history().len(), 2);
    assert!(game.move_game(declare(&[0])));
    assert_eq!(game.history().len(), 3);
    assert_eq!(game.is_win(), None);
    let before = game.clone();
    assert!(!game.move_game(query(1, "A")));
    assert_eq!(game, before);
    assert!(game.move_game(query(1, "B")));
    assert!(game.move_game(query(2, "A")));
    assert!(!game.move_game(declare(&[0])));
    assert!(game.move_game(declare(&[1])));
    assert_eq!(game.history().len(), 6);
    assert_eq!(game.player_turn(), Player(0));
    assert_eq!(game.player_number(), 3);
}

#[test]
fn declarations_are_written_in_increasing_order() {
    let wide = GameConfig::new(vec![sort("A")], vec![vec![], vec![], vec![], vec![]], 1, 2, 2)
        .unwrap();
    let d = Distr::new(vec![PlCard { hand: vec![Card(1), Card(2)], head: vec![Card(0), Card(3)] }]);
    let mut game = Game::new(wide, d).unwrap();
    assert!(!game.move_game(declare(&[3, 0])));
    assert!(!game.move_game(declare(&[0, 0])));
    assert!(game.move_game(declare(&[0, 3])));
    assert_eq!(game.winner(), Some(Player(0)));
    assert_eq!(game.is_win(), Some(vec![1]));
}

#[test]
fn a_won_game_takes_no_move() {
    let mut game = Game::new(letters(), straight()).unwrap();
    assert!(game.move_game(declare(&[3])));
    assert_eq!(game.winner(), Some(Player(0)));
    assert_eq!(game.is_win(), Some(vec![1, 0, 0]));
    assert_eq!(game.info_and_move_now().1, vec![]);
    assert!(!game.move_game(query(2, "A")));
    assert!(!game.move_game(declare(&[4])));
    assert_eq!(game.history().len(), 1);
}

#[test]
fn a_wrong_declaration_passes_the_turn() {
    let mut game = Game::new(letters(), straight()).unwrap();
    assert!(game.move_game(declare(&[4])));
    assert_eq!(
        game.history()[0],
        MoveAns::Declare { who: Player(0), declare: vec![Card(4)], ans: false }
    );
    assert_eq!(game.winner(), None);
    assert_eq!(game.player_turn(), Player(1));
    assert_eq!(game.config(), &letters());
}

#[test]
fn moves_of_each_player() {
    let mut game = Game::new(letters(), straight()).unwrap();
    for m in [query(1, "A"), query(2, "A"), query(0, "A"), query(1, "B"), declare(&[0])] {
        assert!(game.move_game(m));
    }
    let info: Info = game.info_and_move_now().0;
    assert_eq!(info.moves_of_player(Player(0)), vec![query(1, "A"), query(1, "B")]);
    assert_eq!(info.moves_of_player(Player(1)), vec![query(2, "A"), declare(&[0])]);
    assert_eq!(info.moves_of_player(Player(2)), vec![query(0, "A")]);
    assert_eq!(info.moves_of_player(Player(7)), vec![]);
    assert_eq!(info.player_turn(), Player(2));
    assert_eq!(
        info.movable_query(),
        vec![query(0, "B"), query(1, "A"), query(1, "B")]
    );
    assert_eq!(
        movable_query_ref(&info.config, &info.query_answer, Player(0)),
        vec![query(2, "A"), query(2, "B")]
    );
    assert_eq!(
        movable_query_ref(&info.config, &info.query_answer, Player(1)),
        vec![query(0, "A"), query(0, "B"), query(2, "B")]
    );
    assert_eq!(info.clone(), info);
}

#[test]
fn histories_compare_entry_by_entry() {
    let e = MoveAns::Declare { who: Player(2), declare: vec![Card(4)], ans: false };
    let f = MoveAns::Declare { who: Player(2), declare: vec![Card(4)], ans: true };
    assert!(History(vec![e.clone()]) == History(vec![e.clone()]));
    assert!(History(vec![e.clone()]) != History(vec![f]));
    assert!(History(vec![e.clone()]) != History(vec![e.clone(), e.clone()]));
    assert!(History(vec![e.clone()]).clone() == History(vec![e]));
}

#[test]
fn apply_says_why_it_refuses() {
    let mut game = Game::new(letters(), straight()).unwrap();
    let start = game.clone();
    assert_eq!(game.apply(query(3, "A")), Err(IllegalMove::NoSuchPlayer));
    assert_eq!(game.apply(query(0, "A")), Err(IllegalMove::SelfQuery));
    assert_eq!(game.apply(query(0, "C")), Err(IllegalMove::SelfQuery));
    assert_eq!(game.apply(query(1, "C")), Err(IllegalMove::NoSuchSort));
    assert_eq!(game.apply(declare(&[])), Err(IllegalMove::WrongSize));
    assert_eq!(game.apply(declare(&[1, 2])), Err(IllegalMove::WrongSize));
    assert_eq!(game.apply(declare(&[6])), Err(IllegalMove::NoSuchCard));
    assert_eq!(game, start);
    assert_eq!(game.apply(query(1, "A")), Ok(()));
    assert_eq!(game.apply(query(0, "A")), Ok(()));
    assert_eq!(game.apply(declare(&[0])), Ok(()));
    assert_eq!(game.history().len(), 3);
    let before = game.clone();
    assert_eq!(game.apply(query(1, "A")), Err(IllegalMove::Repeated));
    assert_eq!(game, before);
    assert_eq!(game.apply(query(1, "B")), Ok(()));
    assert_eq!(game.apply(query(2, "A")), Ok(()));
    assert_eq!(game.apply(declare(&[0])), Err(IllegalMove::Repeated));
    assert_eq!(game.apply(declare(&[5])), Ok(()));
    assert_eq!(game.winner(), Some(Player(2)));
    let over = game.clone();
    assert_eq!(game.apply(query(1, "A")), Err(IllegalMove::Finished));
    assert_eq!(game.apply(declare(&[9, 9])), Err(IllegalMove::Finished));
    assert_eq!(game, over);
    assert_eq!(game.history().len(), 6);
}

#[test]
fn apply_wants_the_cards_in_order() {
    let wide = GameConfig::new(vec![sort("A")], vec![vec![], vec![], vec![], vec![]], 1, 2, 2)
        .unwrap();
    let d = Distr::new(vec![PlCard { hand: vec![Card(1), Card(2)], head: vec![Card(0), Card(3)] }]);
    let mut game = Game::new(wide, d).unwrap();
    assert_eq!(game.apply(declare(&[3, 0])), Err(IllegalMove::NotInOrder));
    assert_eq!(game.apply(declare(&[0, 0])), Err(IllegalMove::NotInOrder));
    assert_eq!(game.apply(declare(&[4, 0])), Err(IllegalMove::NoSuchCard));
    assert_eq!(game.apply(declare(&[1, 3])), Ok(()));
    assert_eq!(game.apply(declare(&[1, 3])), Err(IllegalMove::Repeated));
    assert_eq!(game.apply(declare(&[0, 3])), Ok(()));
    assert_eq!(game.is_win(), Some(vec![1]));
}

#[test]
fn apply_and_move_game_agree() {
    let moves = [
        query(0, "A"),
        query(1, "A"),
        query(1, "C"),
        declare(&[3]),
        declare(&[7]),
        query(1, "A"),
        declare(&[1, 2]),
        query(2, "B"),
        declare(&[4]),
        query(0, "B"),
    ];
    let mut by_apply = Game::new(letters(), straight()).unwrap();
    let mut by_move = by_apply.clone();
    for m in moves {
        let took = by_move.move_game(m.clone());
        assert_eq!(by_apply.apply(m).is_ok(), took);
        assert_eq!(by_apply, by_move);
    }
    assert_eq!(by_apply.history().len(), 5);
    assert_eq!(by_apply.winner(), Some(Player(1)));
}

#[test]
fn try_new_says_why_it_refuses() {
    let cards = || vec![vec![sort("A")], vec![sort("C")]];
    assert_eq!(
        GameConfig::try_new(vec![sort("A"), sort("B")], cards(), 1, 1, 1),
        Err(InvalidConfiguration::UnknownSort)
    );
    assert_eq!(
        GameConfig::try_new(vec![sort("A"), sort("C"), sort("A")], cards(), 1, 1, 1),
        Err(InvalidConfiguration::SortTwice)
    );
    assert_eq!(
        GameConfig::try_new(vec![sort("A"), sort("A")], cards(), 3, 1, 1),
        Err(InvalidConfiguration::TooFewCards)
    );
    assert_eq!(
        GameConfig::try_new(vec![sort("B")], cards(), 1, 2, 1),
        Err(InvalidConfiguration::TooFewCards)
    );
    assert_eq!(
        GameConfig::try_new(vec![sort("A")], cards(), usize::MAX, usize::MAX, 1),
        Err(InvalidConfiguration::TooFewCards)
    );
    let made = GameConfig::try_new(vec![sort("C"), sort("A")], cards(), 2, 1, 0);
    assert_eq!(made, Ok(GameConfig::new(vec![sort("C"), sort("A")], cards(), 2, 1, 0).unwrap()));
    assert!(made.unwrap().is_wf());
}
