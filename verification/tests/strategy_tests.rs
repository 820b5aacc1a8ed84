use guess_engine::game_params::GameParams;
use guess_engine::histogram::distribution;
use guess_engine::number::Number;
use guess_engine::strategy::min_avg::MinAvgFunc;
use guess_engine::strategy::minmax::{lex_smaller, MinMaxFunc};
use guess_engine::strategy::naive::NaiveStrategy;
use guess_engine::strategy::{
    create_strategy, AnyStrategy, BasicStrategy, CandidatePool, Strategy, StrategyType,
    TargetFunc,
};

fn texts(values: &[Number]) -> Vec<String> {
    values.iter().map(|x| x.to_string()).collect()
}

fn num(s: &str) -> Number {
    Number::from(s)
}

#[test]
fn integer_strategies_are_built() {
    let g = GameParams::new(2).with_base(4);
    assert!(matches!(create_strategy(StrategyType::Naive, &g), Some(AnyStrategy::Naive(_))));
    assert!(matches!(create_strategy(StrategyType::MinMax, &g), Some(AnyStrategy::MinMax(_))));
    assert!(matches!(create_strategy(StrategyType::MinAvg, &g), Some(AnyStrategy::MinAvg(_))));
    assert!(create_strategy(StrategyType::AmountInformation, &g).is_none());
    assert!(create_strategy(StrategyType::Landy, &g).is_none());
}

#[test]
fn naive_vocabulary_is_sorted() {
    let g = GameParams::new(2).with_base(3);
    let s = NaiveStrategy::new(g);
    assert_eq!(
        texts(s.candidate_pool().all_values()),
        ["01", "02", "10", "12", "20", "21"]
    );
    assert!(s.candidate_pool().candidates().is_empty());
    let other = BasicStrategy::<MinMaxFunc>::new(&g);
    assert_eq!(
        texts(other.candidate_pool().all_values()),
        ["12", "21", "02", "20", "01", "10"]
    );
}

#[test]
fn a_strategy_without_a_game_is_exhausted() {
    let g = GameParams::new(2).with_base(3);
    let mut s = create_strategy(StrategyType::MinAvg, &g).unwrap();
    assert!(s.make_guess().is_none());
    s.init();
    assert!(s.make_guess().is_some());
}

#[test]
fn naive_guesses_the_first_candidate() {
    let g = GameParams::new(3).with_base(4);
    let mut s = NaiveStrategy::new(g);
    s.init();
    assert_eq!(s.make_guess().unwrap().to_string(), "012");
    assert_eq!(s.candidate_pool().last_guess().unwrap().to_string(), "012");
    // the hidden value is 103
    s.respond_to_guess(0, 2);
    assert_eq!(
        texts(s.candidate_pool().candidates()),
        ["103", "123", "130", "203", "230", "231", "301", "320", "321"]
    );
    assert_eq!(s.make_guess().unwrap().to_string(), "103");
}

#[test]
fn minmax_game_against_a_hidden_value() {
    let g = GameParams::new(3).with_base(4);
    let mut s = BasicStrategy::<MinMaxFunc>::new(&g);
    let hidden = num("321");
    s.init();
    let mut guesses = Vec::new();
    loop {
        let guess = s.make_guess().unwrap();
        guesses.push(guess.to_string());
        if guess == hidden {
            break;
        }
        let (b, c) = g.calc_bc(&guess, &hidden);
        s.respond_to_guess(b, c);
    }
    assert_eq!(guesses, ["123", "132", "213", "321"]);
}

#[test]
fn response_keeps_exactly_the_candidates_with_that_score() {
    let g = GameParams::new(3).with_base(4);
    let mut s = BasicStrategy::<MinAvgFunc>::new(&g);
    s.init();
    let before = texts(s.candidate_pool().candidates());
    let guess = s.make_guess().unwrap();
    s.respond_to_guess(1, 1);
    let after = texts(s.candidate_pool().candidates());
    let expected: Vec<String> = before
        .iter()
        .filter(|x| g.calc_bc(&guess, &num(x)) == (1, 1))
        .cloned()
        .collect();
    assert_eq!(after, expected);
    assert_eq!(after.len(), 6);
    assert!(s.candidate_pool().last_guess().is_none());
}

#[test]
fn inconsistent_responses_exhaust_the_pool() {
    let g = GameParams::new(2).with_base(3);
    let mut s = create_strategy(StrategyType::MinMax, &g).unwrap();
    s.init();
    assert!(s.make_guess().is_some());
    s.respond_to_guess(2, 2);
    assert!(s.make_guess().is_none());
    s.init();
    assert!(s.make_guess().is_some());
}

#[test]
fn the_only_candidate_is_guessed_unweighed() {
    let g = GameParams::new(1).with_base(1);
    for t in [StrategyType::Naive, StrategyType::MinMax, StrategyType::MinAvg] {
        let mut s = create_strategy(t, &g).unwrap();
        s.init();
        assert_eq!(s.make_guess().unwrap().to_string(), "0");
    }
}

#[test]
fn histogram_of_a_guess() {
    let g = GameParams::new(3).with_base(4);
    let mut pool = CandidatePool::new(g, guess_engine::generator::collect_numbers(&g));
    assert!(pool.distribution(&num("123")).is_empty());
    pool.init();
    // by bulls, then cows: (0,2) (0,3) (1,1) (1,2) (2,0) (3,0)
    assert_eq!(pool.distribution(&num("123")), [9, 2, 6, 3, 3, 1]);
    assert_eq!(
        distribution(&num("00"), &vec![num("00"), num("01"), num("11"), num("10")], 2, 2),
        [1, 2, 1]
    );
    let order: Vec<String> = pool.scan_list().iter().map(|x| x.to_string()).collect();
    assert_eq!(order, texts(pool.all_values()));
}

#[test]
fn scan_list_holds_the_pool_first() {
    let g = GameParams::new(2).with_base(3);
    let mut pool = CandidatePool::new(g, guess_engine::generator::collect_numbers(&g));
    assert!(pool.scan_list().is_empty());
    pool.init();
    pool.commit_guess(num("01"));
    pool.respond_to_guess(0, 1);
    let order: Vec<String> = pool.scan_list().iter().map(|x| x.to_string()).collect();
    assert_eq!(order, ["12", "20", "21", "02", "01", "10"]);
    assert!(!pool.is_exhausted());
    pool.exhaust();
    assert!(pool.is_exhausted());
    assert_eq!(pool.game().base(), 3);
}

#[test]
fn minmax_score_is_the_histogram_in_falling_order() {
    let f = MinMaxFunc::new(4);
    assert_eq!(f.evaluate_distribution(&[1, 3, 2, 3], 9), [3, 3, 2, 1]);
    assert!(f.evaluate_distribution(&[], 0).is_empty());
    assert!(f.is_better(&vec![3, 1], &vec![3, 2]));
    assert!(f.is_better(&vec![3], &vec![3, 1]));
    assert!(!f.is_better(&vec![3, 1], &vec![3, 1]));
    assert!(!f.is_better(&vec![4], &vec![3, 9, 9]));
    assert!(lex_smaller(&vec![], &vec![0]));
}

#[test]
fn min_avg_score_is_the_sum_of_squares() {
    let f = MinAvgFunc::new(4);
    assert_eq!(f.evaluate_distribution(&[1, 2, 3], 6), 14);
    assert_eq!(f.evaluate_distribution(&[], 0), 0);
    assert_eq!(
        f.evaluate_distribution(&[usize::MAX], usize::MAX),
        (usize::MAX as u128) * (usize::MAX as u128)
    );
    assert!(f.is_better(&13, &14));
    assert!(!f.is_better(&14, &14));
}

#[test]
fn a_copy_plays_a_game_of_its_own() {
    let g = GameParams::new(2).with_base(3);
    let mut s = create_strategy(StrategyType::Naive, &g).unwrap();
    s.init();
    let mut copy = s.clone_strategy();
    let first = s.make_guess().unwrap();
    s.respond_to_guess(0, 0);
    assert!(s.make_guess().is_none());
    assert_eq!(copy.make_guess().unwrap(), first);
    assert_eq!(copy.game().number_len(), 2);
}

#[test]
fn the_guess_over_the_whole_vocabulary_is_kept() {
    let g = GameParams::new(3).with_base(5);
    let mut s = BasicStrategy::<MinAvgFunc>::new(&g);
    let mut fresh = BasicStrategy::<MinAvgFunc>::new(&g);
    for round in 0..3 {
        s.init();
        let first = s.make_guess().unwrap();
        assert_eq!(first.to_string(), "234");
        s.respond_to_guess(0, round);
        let second = s.make_guess();
        // a strategy that has played no game before guesses the same
        fresh = BasicStrategy::<MinAvgFunc>::new(&g);
        fresh.init();
        assert_eq!(fresh.make_guess().unwrap(), first);
        fresh.respond_to_guess(0, round);
        assert_eq!(fresh.make_guess(), second);
    }
    let mut copy = s.clone_strategy();
    copy.init();
    assert_eq!(copy.make_guess().unwrap().to_string(), "234");
    assert_eq!(fresh.game().base(), 5);
}
