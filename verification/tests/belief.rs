use game::abstract_game::{Agent, ImperfectInfoGame, Player};
use game::agent::{
    count_head, entropy_candidates, entropy_plan, is_all_same, likeliest_declare, query_answers,
    search_branches, tally, unfair_plan, EntropyPlan, RandomPlayer, SearchPlayer, UnfairPlan,
    UseEntropyPlayer,
};
use game::defs::answer;
use game::defs::{Card, Distr, Game, GameConfig, Info, Move, MoveAns, PlCard, Sort, View};
use game::utils::{
    answerable, answerable_among, answerable_info, default_config, four_midium, hidden_from,
    info_is_ready, is_determined, pick, possible_states, random_vec, slots_total,
    states_from_arrangements, three_midium, EmptyBeliefSet,
};
use rand::rngs::SmallRng;
use rand::SeedableRng;

fn sort(s: &str) -> Sort {
    Sort(s.to_string())
}

fn letters() -> GameConfig {
    let a = || vec![sort("A")];
    let b = || vec![sort("B")];
    GameConfig::new(vec![sort("A"), sort("B")], vec![a(), a(), a(), b(), b(), b()], 3, 1, 1)
        .unwrap()
}

fn deal(cards: [(usize, usize); 3]) -> Distr {
    Distr::new(
        cards.iter().map(|(hand, head)| PlCard { hand: vec![Card(*hand)], head: vec![Card(*head)] }).collect(),
    )
}

fn straight() -> Distr {
    deal([(0, 3), (1, 4), (2, 5)])
}

fn query(to: usize, s: &str) -> Move {
    Move::Query { query_to: Player(to), query_sort: sort(s) }
}

fn declare(cards: &[usize]) -> Move {
    Move::Declare { declare: cards.iter().map(|c| Card(*c)).collect() }
}

fn first_belief() -> Vec<Distr> {
    vec![
        deal([(0, 1), (2, 4), (3, 5)]),
        deal([(0, 1), (3, 4), (2, 5)]),
        deal([(0, 2), (1, 4), (3, 5)]),
        deal([(0, 2), (3, 4), (1, 5)]),
        deal([(0, 3), (1, 4), (2, 5)]),
        deal([(0, 3), (2, 4), (1, 5)]),
    ]
}

#[test]
fn belief_at_the_start_holds_every_lay_of_the_hidden_cards() {
    let game = Game::new(letters(), straight()).unwrap();
    let info = game.info_and_move_now().0;
    assert_eq!(hidden_from(&info.config, &info.view), vec![Card(1), Card(2), Card(3)]);
    assert_eq!(slots_total(&info.config, Player(0)), 3);
    let states = possible_states(&info.config, &info.query_answer, &info.view);
    assert_eq!(states, first_belief());
    assert!(states.contains(&straight()));
    assert_eq!(answerable(&info.config, &info.query_answer, &info.view), None);
    assert_eq!(answerable_info(&info), None);
}

#[test]
fn belief_follows_the_arrangements_it_is_given() {
    let game = Game::new(letters(), straight()).unwrap();
    let info = game.info_and_move_now().0;
    let arrs = vec![vec![2, 0, 1], vec![0, 1, 2]];
    assert_eq!(
        states_from_arrangements(&info.config, &info.query_answer, &info.view, &arrs),
        vec![deal([(0, 3), (1, 4), (2, 5)]), deal([(0, 1), (2, 4), (3, 5)])]
    );
    assert_eq!(
        states_from_arrangements(&info.config, &info.query_answer, &info.view, &vec![]),
        vec![]
    );
}

#[test]
fn belief_narrows_with_the_history() {
    let mut game = Game::new(letters(), straight()).unwrap();
    assert!(game.move_game(query(1, "A")));
    assert!(game.move_game(query(2, "A")));
    assert!(game.move_game(query(0, "A")));
    assert_eq!(
        game.history(),
        &vec![
            MoveAns::Query { who: Player(0), query_to: Player(1), query_sort: sort("A"), ans: 1 },
            MoveAns::Query { who: Player(1), query_to: Player(2), query_sort: sort("A"), ans: 1 },
            MoveAns::Query { who: Player(2), query_to: Player(0), query_sort: sort("A"), ans: 1 },
        ]
    );
    let info = game.info_and_move_now().0;
    let states = possible_states(&info.config, &info.query_answer, &info.view);
    assert_eq!(states, vec![deal([(0, 3), (1, 4), (2, 5)]), deal([(0, 3), (2, 4), (1, 5)])]);
    assert_eq!(answerable_info(&info), Some(declare(&[3])));
    assert_eq!(answerable_among(&states, Player(0)), Some(declare(&[3])));
    assert_eq!(answerable_among(&states, Player(1)), Some(declare(&[4])));
    assert_eq!(answerable_among(&first_belief(), Player(0)), None);
}

#[test]
fn belief_holds_the_deal_at_every_turn() {
    let mut rng = SmallRng::seed_from_u64(11);
    for config in [default_config(), letters()] {
        for _ in 0..5 {
            let mut game = config.gen_random(&mut rng);
            let mut turns = 0;
            while game.is_win().is_none() && turns < 12 {
                let (info, moves) = game.info_and_move_now();
                let states = possible_states(&info.config, &info.query_answer, &info.view);
                let me = info.player_turn();
                assert!(states.iter().any(|d| d.cards_from_player(me) == info.view));
                for d in &states {
                    assert!(d.is_valid(&config));
                    assert_eq!(d.cards_from_player(me), info.view);
                }
                let m = random_vec(&mut rng, moves.into_iter().filter(|m| matches!(m, Move::Query { .. })).chain([declare(&[0])]).collect());
                game.move_game(m);
                turns += 1;
            }
        }
    }
}

#[test]
fn belief_of_a_game_is_that_of_its_player_on_turn() {
    let mut game = Game::new(letters(), straight()).unwrap();
    assert_eq!(game.belief_now(), first_belief());
    assert!(game.move_game(query(1, "A")));
    assert!(game.move_game(query(2, "A")));
    assert!(game.move_game(query(0, "A")));
    let info = game.info_and_move_now().0;
    assert_eq!(game.belief_now(), possible_states(&info.config, &info.query_answer, &info.view));
    assert!(game.belief_now().contains(&straight()));
}

#[test]
fn belief_of_a_corrupt_history_is_empty() {
    let c = letters();
    let view = straight().cards_from_player(Player(1));
    let history =
        vec![MoveAns::Query { who: Player(0), query_to: Player(1), query_sort: sort("B"), ans: 0 }];
    assert_eq!(possible_states(&c, &history, &view), vec![]);
    assert_eq!(answerable(&c, &history, &view), None);
    assert_eq!(is_determined(&c, &history, &view), Err(EmptyBeliefSet));
    let info = sure_info();
    assert_eq!(
        is_determined(&info.config, &info.query_answer, &info.view),
        Ok(Some(declare(&[3])))
    );
    let view = straight().cards_from_player(Player(0));
    assert_eq!(is_determined(&c, &vec![], &view), Ok(None));
}

#[test]
fn nothing_hidden_leaves_one_deal() {
    let c = GameConfig::new(vec![sort("A")], vec![vec![sort("A")], vec![]], 2, 1, 0).unwrap();
    let truth = Distr::new(vec![
        PlCard { hand: vec![], head: vec![Card(1)] },
        PlCard { hand: vec![], head: vec![Card(0)] },
    ]);
    let game = Game::new(c, truth).unwrap();
    let info = game.info_and_move_now().0;
    assert_eq!(hidden_from(&info.config, &info.view), vec![Card(1)]);
    let lone = GameConfig::new(vec![sort("A")], vec![vec![sort("A")], vec![]], 1, 0, 2).unwrap();
    let truth = Distr::new(vec![PlCard { hand: vec![Card(0), Card(1)], head: vec![] }]);
    let game = Game::new(lone, truth.clone()).unwrap();
    let info = game.info_and_move_now().0;
    assert_eq!(hidden_from(&info.config, &info.view), vec![]);
    assert_eq!(possible_states(&info.config, &info.query_answer, &info.view), vec![truth]);
    assert_eq!(answerable_info(&info), Some(declare(&[])));
}

#[test]
fn one_hidden_card_is_the_head() {
    let c = GameConfig::new(vec![sort("A")], vec![vec![sort("A")], vec![]], 1, 1, 1).unwrap();
    let view = View { hand: vec![Card(0)], other: vec![None] };
    assert_eq!(answerable(&c, &vec![], &view), Some(declare(&[1])));
}

#[test]
fn spare_cards_may_lie_anywhere() {
    let c = GameConfig::new(vec![sort("A")], vec![vec![], vec![], vec![]], 1, 1, 1).unwrap();
    let view = View { hand: vec![Card(1)], other: vec![None] };
    let with = |head: usize| Distr::new(vec![PlCard { hand: vec![Card(1)], head: vec![Card(head)] }]);
    assert_eq!(possible_states(&c, &vec![], &view), vec![with(0), with(2)]);
}

#[test]
fn answers_and_tallies() {
    let c = letters();
    let states = first_belief();
    assert_eq!(query_answers(&c, &states, &query(1, "A"), Player(0)), vec![2, 1, 2, 1, 1, 1]);
    assert_eq!(query_answers(&c, &states, &query(1, "B"), Player(0)), vec![1, 2, 1, 2, 2, 2]);
    assert_eq!(query_answers(&c, &states, &query(0, "B"), Player(1)), vec![2; 6]);
    assert_eq!(tally(&vec![2, 0, 2, 1]), vec![1, 1, 2]);
    assert_eq!(tally(&vec![3]), vec![0, 0, 0, 1]);
    assert_eq!(tally(&vec![]), vec![]);
    assert!(is_all_same(&vec![]));
    assert!(is_all_same(&vec![4]));
    assert!(is_all_same(&vec![2, 2, 2]));
    assert!(!is_all_same(&vec![2, 2, 1]));
}

#[test]
fn questions_worth_asking() {
    let game = Game::new(letters(), straight()).unwrap();
    let info = game.info_and_move_now().0;
    assert_eq!(
        entropy_candidates(&info, &first_belief()),
        vec![
            (query(1, "A"), vec![0, 4, 2]),
            (query(1, "B"), vec![0, 2, 4]),
            (query(2, "A"), vec![0, 4, 2]),
            (query(2, "B"), vec![0, 2, 4]),
        ]
    );
    let sure = vec![deal([(0, 3), (1, 4), (2, 5)])];
    assert_eq!(entropy_candidates(&info, &sure), vec![]);
    assert_eq!(entropy_candidates(&info, &vec![]), vec![]);
    let two = vec![deal([(0, 3), (1, 4), (2, 5)]), deal([(0, 3), (2, 4), (1, 5)])];
    assert_eq!(entropy_candidates(&info, &two), vec![]);
}

#[test]
fn likeliest_head() {
    let states = first_belief();
    let open: Vec<Move> = (0..6).map(|c| declare(&[c])).collect();
    assert_eq!(likeliest_declare(&states, Player(0), &open), Some((declare(&[1]), 2, 6)));
    assert_eq!(
        likeliest_declare(&states, Player(0), &vec![declare(&[3]), declare(&[2])]),
        Some((declare(&[2]), 2, 4))
    );
    assert_eq!(likeliest_declare(&states, Player(0), &vec![declare(&[5])]), None);
    assert_eq!(likeliest_declare(&vec![], Player(0), &open), None);
    let uneven = vec![
        deal([(0, 1), (2, 4), (3, 5)]),
        deal([(0, 3), (1, 4), (2, 5)]),
        deal([(0, 3), (2, 4), (1, 5)]),
    ];
    assert_eq!(likeliest_declare(&uneven, Player(0), &open), Some((declare(&[3]), 2, 3)));
    assert_eq!(count_head(&uneven, Player(0), &vec![Card(3)]), 2);
    assert_eq!(count_head(&uneven, Player(1), &vec![Card(4)]), 3);
    assert_eq!(count_head(&uneven, Player(1), &vec![Card(5)]), 0);
}

#[test]
fn random_draws_stay_in_the_list() {
    let mut rng = SmallRng::seed_from_u64(5);
    let mut seen = [false; 3];
    for _ in 0..200 {
        let x = random_vec(&mut rng, vec![7, 8, 9]);
        assert!((7..=9).contains(&x));
        seen[x - 7] = true;
    }
    assert_eq!(seen, [true; 3]);
    assert_eq!(random_vec(&mut rng, vec![4]), 4);
    assert_eq!(pick(vec![4, 5, 6], 1), 5);
}

#[test]
fn random_games_start_from_a_fresh_history() {
    let mut rng = SmallRng::seed_from_u64(3);
    for config in [default_config(), three_midium(), letters()] {
        let game = config.gen_random(&mut rng);
        assert_eq!(game.history(), &vec![]);
        assert_eq!(game.config(), &config);
        assert_eq!(game.winner(), None);
        let info = game.info_and_move_now().0;
        assert_eq!(info.view.hand.len(), config.hand_num());
        let mut cards: Vec<Card> = info.view.hand.clone();
        for head in info.view.other.iter().flatten() {
            assert_eq!(head.len(), config.head_num());
            cards.extend(head.iter().copied());
        }
        assert!(info.view.other[0].is_none());
        let n = cards.len();
        cards.sort();
        cards.dedup();
        assert_eq!(cards.len(), n);
        assert!(cards.iter().all(|c| c.0 < config.cards_num()));
    }
}

fn test_player_with_config(config: GameConfig, mut players: Vec<RandomPlayer>, seed: u64) -> usize {
    let mut rng = SmallRng::seed_from_u64(seed);
    let mut game = GameConfig::gen_random(&config, &mut rng);
    assert_eq!(players.len(), config.player_num());
    let mut i = 0;
    while game.is_win().is_none() {
        let player: usize = game.player_turn().into();
        let agent = &mut players[player];
        let info = game.info_and_move_now();
        let legal = info.1.clone();
        let m = agent.use_info(info.0, info.1);
        assert!(legal.contains(&m));
        i += 1;
        if !game.move_game(m) {
            panic!("the agent made a move that is not open");
        }
    }
    i
}

fn random_players(seed: u64) -> Vec<RandomPlayer> {
    (0..3).map(|k| RandomPlayer::new(SmallRng::seed_from_u64(seed * 3 + k))).collect()
}

#[test]
fn test_randoms() {
    let config = default_config();
    test_player_with_config(config, random_players(1), 1);
}

#[test]
fn find4() {
    let config = default_config();
    let mut t = 0;
    loop {
        t += 1;
        let i = test_player_with_config(config.clone(), random_players(t), t);
        if i == 4 {
            break;
        }
    }
    println!("{t}");
}

#[test]
fn test() {
    let config = default_config();
    let mut rng = SmallRng::seed_from_u64(7);
    let game = config.gen_random(&mut rng);
    let info = game.info_and_move_now().0;
    let p = possible_states(&info.config, &info.query_answer, &info.view);
    assert_eq!(p.len(), 6);
    for p in p {
        println!("{:?}", p);
    }
    let _ = answerable(&info.config, &info.query_answer, &info.view);
}

fn entropy(hist: &[usize]) -> f64 {
    let total: usize = hist.iter().sum();
    let mut h = 0.0;
    for c in hist.iter().filter(|c| **c > 0) {
        let p = *c as f64 / total as f64;
        h -= p * p.log2();
    }
    h
}

fn entropy_move(info: Info, possible_moves: Vec<Move>) -> Move {
    if let Some(sure) = answerable_info(&info) {
        return sure;
    }
    let states = possible_states(&info.config, &info.query_answer, &info.view);
    let mut best: Option<(f64, Move)> = None;
    for (q, hist) in entropy_candidates(&info, &states) {
        let h = entropy(&hist);
        assert!(h >= 0.0);
        assert!(hist.iter().filter(|c| **c > 0).count() > 1);
        if best.as_ref().map_or(true, |(least, _)| h < *least) {
            best = Some((h, q));
        }
    }
    match best {
        Some((_, q)) => q,
        None => match likeliest_declare(&states, info.player_turn(), &info.movable_declare()) {
            Some((m, _, _)) => m,
            None => possible_moves.into_iter().next().unwrap(),
        },
    }
}

#[test]
fn test_entropy() {
    let config = default_config();
    let _agents = [UseEntropyPlayer::default(); 3];
    let mut rng = SmallRng::seed_from_u64(2);
    let mut game = config.gen_random(&mut rng);
    let mut turns = 0;
    while game.is_win().is_none() {
        let (info, moves) = game.info_and_move_now();
        let m = entropy_move(info, moves.clone());
        assert!(moves.contains(&m));
        assert!(game.move_game(m));
        turns += 1;
        assert!(turns <= 48);
    }
}

#[test]
fn search_player_keeps_its_depth() {
    assert_eq!(SearchPlayer::new(3).depth, 3);
    assert_eq!(SearchPlayer::new(0), SearchPlayer { depth: 0 });
}

fn corrupt_info() -> Info {
    Info {
        config: letters(),
        query_answer: vec![MoveAns::Query {
            who: Player(0),
            query_to: Player(1),
            query_sort: sort("B"),
            ans: 0,
        }],
        view: straight().cards_from_player(Player(1)),
    }
}

fn mute_info() -> Info {
    let config = GameConfig::new(vec![], vec![vec![]; 6], 3, 1, 1).unwrap();
    Game::new(config, straight()).unwrap().info_and_move_now().0
}

fn sure_info() -> Info {
    let mut game = Game::new(letters(), straight()).unwrap();
    assert!(game.move_game(query(1, "A")));
    assert!(game.move_game(query(2, "A")));
    assert!(game.move_game(query(0, "A")));
    game.info_and_move_now().0
}

#[test]
fn plan_of_the_entropy_player() {
    let start = Game::new(letters(), straight()).unwrap().info_and_move_now().0;
    assert_eq!(
        entropy_plan(&start),
        EntropyPlan::Weigh(vec![
            (query(1, "A"), vec![0, 4, 2]),
            (query(1, "B"), vec![0, 2, 4]),
            (query(2, "A"), vec![0, 4, 2]),
            (query(2, "B"), vec![0, 2, 4]),
        ])
    );
    assert_eq!(entropy_plan(&sure_info()), EntropyPlan::Sure(declare(&[3])));
    assert_eq!(entropy_plan(&mute_info()), EntropyPlan::Guess(declare(&[1])));
    assert_eq!(entropy_plan(&corrupt_info()), EntropyPlan::Stuck);
}

#[test]
fn plan_of_the_attacking_player() {
    let start = Game::new(letters(), straight()).unwrap().info_and_move_now().0;
    assert_eq!(unfair_plan(&start, true), UnfairPlan::Ask);
    assert_eq!(unfair_plan(&start, false), UnfairPlan::Attack(declare(&[1]), 2, 6));
    assert_eq!(unfair_plan(&sure_info(), true), UnfairPlan::Sure(declare(&[3])));
    assert_eq!(unfair_plan(&sure_info(), false), UnfairPlan::Sure(declare(&[3])));
    assert_eq!(unfair_plan(&corrupt_info(), true), UnfairPlan::Ask);
    assert_eq!(unfair_plan(&corrupt_info(), false), UnfairPlan::Stuck);
    let mut game = Game::new(letters(), straight()).unwrap();
    assert!(game.move_game(declare(&[1])));
    assert!(game.move_game(query(0, "A")));
    assert!(game.move_game(query(0, "A")));
    let info = game.info_and_move_now().0;
    assert_eq!(unfair_plan(&info, false), UnfairPlan::Attack(declare(&[2]), 2, 4));
}

#[test]
fn readiness_of_what_a_player_is_told() {
    assert!(info_is_ready(&sure_info()));
    assert!(info_is_ready(&corrupt_info()));
    assert!(info_is_ready(&mute_info()));
    for config in [default_config(), three_midium(), four_midium(), letters()] {
        assert!(config.is_wf());
    }
    let with = |change: &dyn Fn(&mut Info)| {
        let mut info = sure_info();
        change(&mut info);
        info_is_ready(&info)
    };
    assert!(with(&|_| ()));
    assert!(!with(&|i| i.view.other.push(None)));
    assert!(!with(&|i| i.view.other[1] = None));
    assert!(with(&|i| i.view.other[0] = Some(vec![])));
    assert!(!with(&|i| i.view.other[2] = Some(vec![Card(6)])));
    assert!(!with(&|i| i.view.other[2] = Some(vec![Card(4), Card(5)])));
    assert!(!with(&|i| i.view.hand = vec![Card(0), Card(1)]));
    assert!(!with(&|i| i.view.hand = vec![Card(9)]));
    assert!(!with(&|i| {
        i.query_answer[0] = MoveAns::Declare { who: Player(3), declare: vec![], ans: false }
    }));
    assert!(!with(&|i| {
        i.query_answer[1] =
            MoveAns::Query { who: Player(1), query_to: Player(3), query_sort: sort("A"), ans: 0 }
    }));
    assert!(!with(&|i| {
        i.config = GameConfig::new(vec![], vec![vec![]; 6], 0, 1, 1).unwrap();
        i.view.other = vec![];
    }));
    assert!(!with(&|i| i.query_answer.pop().map_or((), |_| ())));
}

#[test]
fn random_player_without_a_choice() {
    let mut agent = RandomPlayer::new(SmallRng::seed_from_u64(9));
    assert_eq!(agent.use_info(sure_info(), vec![]), declare(&[]));
    let mut unfit = sure_info();
    unfit.view.other[1] = None;
    assert_eq!(agent.use_info(unfit, vec![query(2, "B"), query(1, "B")]), query(2, "B"));
    assert_eq!(agent.use_info(sure_info(), vec![query(2, "B")]), declare(&[3]));
    let start = Game::new(letters(), straight()).unwrap().info_and_move_now();
    for _ in 0..20 {
        let m = agent.use_info(start.0.clone(), start.1.clone());
        assert!(start.0.movable_query().contains(&m));
    }
    let mute = Game::new(GameConfig::new(vec![], vec![vec![]; 6], 3, 1, 1).unwrap(), straight())
        .unwrap()
        .info_and_move_now();
    assert_eq!(agent.use_info(mute.0, mute.1), declare(&[0]));
}

#[test]
fn look_ahead_follows_every_deal_of_the_belief() {
    let c = letters();
    let info = Game::new(letters(), straight()).unwrap().info_and_move_now().0;
    let questions = vec![query(1, "A"), query(2, "B")];
    let branches = search_branches(&info.config, &info.query_answer, &info.view, &questions);
    assert_eq!(branches.len(), 2);
    for (i, (q, outcomes)) in branches.iter().enumerate() {
        assert_eq!(q, &questions[i]);
        assert_eq!(outcomes.len(), 6);
        for (j, d) in first_belief().iter().enumerate() {
            assert_eq!(outcomes[j].0, answer(&c, d, q.clone(), Player(0)));
            assert_eq!(outcomes[j].1, d.cards_from_player(Player(1)));
        }
    }
    assert_eq!(
        branches[0].1[0],
        (
            MoveAns::Query { who: Player(0), query_to: Player(1), query_sort: sort("A"), ans: 2 },
            View { hand: vec![Card(2)], other: vec![Some(vec![Card(1)]), None, Some(vec![Card(5)])] }
        )
    );
    assert_eq!(
        branches[1].1[1],
        (
            MoveAns::Query { who: Player(0), query_to: Player(2), query_sort: sort("B"), ans: 1 },
            View { hand: vec![Card(3)], other: vec![Some(vec![Card(1)]), None, Some(vec![Card(5)])] }
        )
    );
    assert_eq!(search_branches(&info.config, &info.query_answer, &info.view, &vec![]), vec![]);
    let corrupt = corrupt_info();
    assert_eq!(
        search_branches(&corrupt.config, &corrupt.query_answer, &corrupt.view, &questions),
        vec![(query(1, "A"), vec![]), (query(2, "B"), vec![])]
    );
}
