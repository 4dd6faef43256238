use game::abstract_game::{ImperfectInfoGame, Player};
use game::defs::{Card, Distr, Game, GameConfig, Move, MoveAns, PlCard, Sort};

fn sort(s: &str) -> Sort {
    Sort(s.to_string())
}

fn two_sort_config() -> GameConfig {
    let a = || vec![sort("A")];
    let b = || vec![sort("B")];
    GameConfig::new(vec![sort("A"), sort("B")], vec![a(), a(), a(), b(), b(), b()], 3, 1, 1)
        .unwrap()
}

fn straight_deal() -> Distr {
    Distr::new(vec![
        PlCard { hand: vec![Card(0)], head: vec![Card(3)] },
        PlCard { hand: vec![Card(1)], head: vec![Card(4)] },
        PlCard { hand: vec![Card(2)], head: vec![Card(5)] },
    ])
}

#[test]
fn query_then_right_declare_wins() {
    let mut game = Game::new(two_sort_config(), straight_deal()).unwrap();
    assert_eq!(game.player_turn(), Player(0));
    assert_eq!(game.is_win(), None);
    assert!(game.move_game(Move::Query { query_to: Player(1), query_sort: sort("B") }));
    assert_eq!(
        game.history()[0],
        MoveAns::Query { who: Player(0), query_to: Player(1), query_sort: sort("B"), ans: 2 }
    );
    assert_eq!(game.player_turn(), Player(1));
    assert!(game.move_game(Move::Declare { declare: vec![Card(4)] }));
    assert_eq!(
        game.history()[1],
        MoveAns::Declare { who: Player(1), declare: vec![Card(4)], ans: true }
    );
    assert_eq!(game.winner(), Some(Player(1)));
    assert_eq!(game.is_win(), Some(vec![0, 1, 0]));
    assert_eq!(game.info_and_move_now().1, Vec::<Move>::new());
}
