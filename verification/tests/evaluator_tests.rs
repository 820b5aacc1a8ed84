use guess_engine::evaluator::{
    evaluate_values, judge_guess, play_one_game, record_game, take_chunk, EvaluationError,
    EvaluationResult, GameStep, CHUNK_SIZE, GUESS_LIMIT,
};
use guess_engine::game_params::GameParams;
use guess_engine::generator::collect_numbers;
use guess_engine::number::Number;
use guess_engine::strategy::min_avg::MinAvgFunc;
use guess_engine::strategy::minmax::MinMaxFunc;
use guess_engine::strategy::naive::NaiveStrategy;
use guess_engine::strategy::{create_strategy, BasicStrategy, Strategy, StrategyType};

// A strategy that never narrows its pool: it always guesses the same value.
struct Stubborn {
    game: GameParams,
    guess: Number,
    responses: usize,
}

impl Strategy for Stubborn {
    fn game(&self) -> GameParams {
        self.game
    }

    fn init(&mut self) {}

    fn make_guess(&mut self) -> Option<Number> {
        Some(self.guess.clone())
    }

    fn respond_to_guess(&mut self, _bulls: u8, _cows: u8) {
        self.responses += 1;
    }

    fn clone_strategy(&self) -> Self {
        Stubborn { game: self.game, guess: self.guess.clone(), responses: 0 }
    }
}

// A strategy whose pool is always empty.
struct Empty {
    game: GameParams,
}

impl Strategy for Empty {
    fn game(&self) -> GameParams {
        self.game
    }

    fn init(&mut self) {}

    fn make_guess(&mut self) -> Option<Number> {
        None
    }

    fn respond_to_guess(&mut self, _bulls: u8, _cows: u8) {}

    fn clone_strategy(&self) -> Self {
        Empty { game: self.game }
    }
}

#[test]
fn stubborn_strategy_does_not_converge() {
    let g = GameParams::new(2).with_base(3);
    let values = collect_numbers(&g);
    let mut s = Stubborn { game: g, guess: Number::from("12"), responses: 0 };
    // the first hidden value is the guess itself: one guess; the second is never found
    let r = evaluate_values(&mut s, &values, EvaluationResult::new());
    match r {
        Err(EvaluationError::NonConvergence(n)) => assert_eq!(n.to_string(), "21"),
        other => panic!("unexpected {:?}", other),
    }
    assert_eq!(s.responses, GUESS_LIMIT as usize - 1);
    let e = play_one_game(&mut s, &Number::from("01")).unwrap_err();
    assert_eq!(
        e.message(),
        "Probably it is an infinite loop. Problem number: 01"
    );
    assert_eq!(e.problem_number().to_string(), "01");
}

#[test]
fn exhausted_strategy_is_reported() {
    let g = GameParams::new(2).with_base(3);
    let mut s = Empty { game: g };
    let e = play_one_game(&mut s, &Number::from("20")).unwrap_err();
    assert!(matches!(e, EvaluationError::Exhausted(_)));
    assert_eq!(e.message(), "The strategy returned None. Problem number: 20");
}

#[test]
fn a_hidden_value_outside_the_vocabulary_exhausts_the_pool() {
    let g = GameParams::new(2).with_base(3);
    let mut s = NaiveStrategy::new(g);
    // 11 repeats a digit: no value of the vocabulary scores like it throughout
    let r = play_one_game(&mut s, &Number::from("11"));
    assert!(matches!(r, Err(EvaluationError::Exhausted(_))));
}

#[test]
fn games_are_counted() {
    let g = GameParams::new(3).with_base(4);
    let mut s = BasicStrategy::<MinMaxFunc>::new(&g);
    assert_eq!(play_one_game(&mut s, &Number::from("123")).unwrap(), 1);
    assert_eq!(play_one_game(&mut s, &Number::from("321")).unwrap(), 4);
    let values = collect_numbers(&g);
    let r = evaluate_values(&mut s, &values, EvaluationResult::new()).unwrap();
    assert_eq!(r.total, 72);
    assert_eq!(r.worst_guess_count, 4);
    assert_eq!(r.worst_number.unwrap().to_string(), "321");
}

#[test]
fn strategies_compared_on_a_larger_universe() {
    let g = GameParams::new(3).with_base(6);
    let values = collect_numbers(&g);
    assert_eq!(values.len(), 120);
    let mut s = BasicStrategy::<MinAvgFunc>::new(&g);
    let r = evaluate_values(&mut s, &values, EvaluationResult::new()).unwrap();
    assert_eq!((r.total, r.worst_guess_count), (447, 5));
    assert_eq!(r.worst_number.unwrap().to_string(), "502");
    let mut s = create_strategy(StrategyType::MinMax, &g).unwrap();
    let r = evaluate_values(&mut s, &values, EvaluationResult::new()).unwrap();
    assert_eq!((r.total, r.worst_guess_count), (447, 5));
}

#[test]
fn naive_strategy_on_every_hidden_value() {
    let g = GameParams::new(3).with_base(4);
    let mut values = collect_numbers(&g);
    values.sort();
    let mut s = NaiveStrategy::new(g);
    let acc = EvaluationResult { total: 100, worst_guess_count: 2, worst_number: None };
    let r = evaluate_values(&mut s, &values, acc).unwrap();
    assert_eq!(r.total, 174);
    assert_eq!(r.worst_guess_count, 4);
    assert_eq!(r.worst_number.unwrap().to_string(), "203");
}

#[test]
fn a_longer_game_before_keeps_its_record() {
    let g = GameParams::new(2).with_base(3);
    let values = collect_numbers(&g);
    let mut s = NaiveStrategy::new(g);
    let acc = EvaluationResult {
        total: u64::MAX - 1,
        worst_guess_count: 29,
        worst_number: Some(Number::from("99")),
    };
    let r = evaluate_values(&mut s, &values, acc).unwrap();
    assert_eq!(r.total, u64::MAX);
    assert_eq!(r.worst_guess_count, 29);
    assert_eq!(r.worst_number.unwrap().to_string(), "99");
}

#[test]
fn results_are_merged() {
    let a = EvaluationResult { total: 10, worst_guess_count: 4, worst_number: Some(Number::from("12")) };
    let b = EvaluationResult { total: 5, worst_guess_count: 4, worst_number: Some(Number::from("21")) };
    let c = EvaluationResult { total: 1, worst_guess_count: 6, worst_number: Some(Number::from("30")) };
    let r = a.merge(b);
    assert_eq!(r.total, 15);
    assert_eq!(r.worst_guess_count, 4);
    // on a tie the first result keeps its record
    assert_eq!(r.worst_number.as_ref().unwrap().to_string(), "12");
    let r = r.merge(c);
    assert_eq!((r.total, r.worst_guess_count), (16, 6));
    assert_eq!(r.worst_number.as_ref().unwrap().to_string(), "30");
    let big = EvaluationResult { total: u64::MAX, worst_guess_count: 0, worst_number: None };
    let r = r.merge(big);
    assert_eq!(r.total, u64::MAX);
    assert_eq!(r.worst_guess_count, 6);
    let none = EvaluationResult::new();
    assert_eq!((none.total, none.worst_guess_count), (0, 0));
    assert!(none.worst_number.is_none());
}

#[test]
fn chunks_come_from_the_end_of_the_queue() {
    let g = GameParams::new(2).with_base(6);
    let mut queue = collect_numbers(&g);
    let all: Vec<String> = queue.iter().map(|x| x.to_string()).collect();
    assert_eq!(all.len(), 30);
    let chunk = take_chunk(&mut queue, CHUNK_SIZE);
    assert_eq!(chunk.len(), 20);
    assert_eq!(queue.len(), 10);
    let got: Vec<String> = chunk.iter().map(|x| x.to_string()).collect();
    assert_eq!(got, all[10..]);
    let chunk = take_chunk(&mut queue, CHUNK_SIZE);
    let got: Vec<String> = chunk.iter().map(|x| x.to_string()).collect();
    assert_eq!(got, all[..10]);
    assert!(queue.is_empty());
    assert!(take_chunk(&mut queue, CHUNK_SIZE).is_empty());
}

#[test]
fn the_limit_of_guesses_ends_a_game() {
    // one digit out of 36: the naive strategy tries them in rising order
    let g = GameParams::new(1).with_base(36);
    let mut s = NaiveStrategy::new(g);
    assert_eq!(play_one_game(&mut s, &Number::from("0")).unwrap(), 1);
    assert_eq!(play_one_game(&mut s, &Number::from("T")).unwrap(), GUESS_LIMIT);
    let e = play_one_game(&mut s, &Number::from("U")).unwrap_err();
    assert!(matches!(e, EvaluationError::NonConvergence(_)));
    let mut values = collect_numbers(&g);
    values.sort();
    match evaluate_values(&mut s, &values, EvaluationResult::new()) {
        Err(EvaluationError::NonConvergence(n)) => assert_eq!(n.to_string(), "U"),
        other => panic!("unexpected {:?}", other),
    }
    // the strategy can be used again after a game that was given up
    assert_eq!(play_one_game(&mut s, &Number::from("5")).unwrap(), 6);
}

#[test]
fn a_guess_is_judged() {
    let hidden = Number::from("0123");
    assert!(matches!(judge_guess(Some(&hidden), &hidden, 1, 10), GameStep::Won(1)));
    assert!(matches!(judge_guess(Some(&Number::from("0123")), &hidden, 30, 10), GameStep::Won(30)));
    let wrong = Number::from("0432");
    assert!(matches!(judge_guess(Some(&wrong), &hidden, 1, 10), GameStep::Answer(1, 2, 2)));
    assert!(matches!(judge_guess(Some(&wrong), &hidden, 29, 10), GameStep::Answer(1, 2, 30)));
    match judge_guess(Some(&wrong), &hidden, 30, 10) {
        GameStep::GivenUp(EvaluationError::NonConvergence(n)) => assert_eq!(n, hidden),
        other => panic!("unexpected {:?}", other),
    }
    match judge_guess(None, &hidden, 7, 10) {
        GameStep::GivenUp(EvaluationError::Exhausted(n)) => assert_eq!(n, hidden),
        other => panic!("unexpected {:?}", other),
    }
    match judge_guess(None, &hidden, 30, 10) {
        GameStep::GivenUp(EvaluationError::Exhausted(n)) => assert_eq!(n, hidden),
        other => panic!("unexpected {:?}", other),
    }
}

#[test]
fn a_game_is_recorded() {
    let r = record_game(EvaluationResult::new(), &Number::from("12"), 3);
    assert_eq!((r.total, r.worst_guess_count), (3, 3));
    assert_eq!(r.worst_number.as_ref().unwrap().to_string(), "12");
    // a game that is as long as the longest leaves the record where it is
    let r = record_game(r, &Number::from("21"), 3);
    assert_eq!((r.total, r.worst_guess_count), (6, 3));
    assert_eq!(r.worst_number.as_ref().unwrap().to_string(), "12");
    let r = record_game(r, &Number::from("30"), 2);
    assert_eq!((r.total, r.worst_guess_count), (8, 3));
    assert_eq!(r.worst_number.as_ref().unwrap().to_string(), "12");
    let r = record_game(r, &Number::from("03"), 4);
    assert_eq!((r.total, r.worst_guess_count), (12, 4));
    assert_eq!(r.worst_number.as_ref().unwrap().to_string(), "03");
    let full = EvaluationResult { total: u64::MAX - 2, worst_guess_count: 9, worst_number: None };
    let r = record_game(full, &Number::from("03"), 5);
    assert_eq!((r.total, r.worst_guess_count), (u64::MAX, 9));
    assert!(r.worst_number.is_none());
}

#[test]
fn the_only_value_of_the_vocabulary_is_found_at_once() {
    let g = GameParams::new(1).with_base(1);
    let values = collect_numbers(&g);
    assert_eq!(values.len(), 1);
    for t in [StrategyType::Naive, StrategyType::MinMax, StrategyType::MinAvg] {
        let mut s = create_strategy(t, &g).unwrap();
        assert_eq!(play_one_game(&mut s, &values[0]).unwrap(), 1);
        let r = evaluate_values(&mut s, &values, EvaluationResult::new()).unwrap();
        assert_eq!((r.total, r.worst_guess_count), (1, 1));
        assert_eq!(r.worst_number.unwrap(), values[0]);
    }
}

#[test]
fn an_empty_vocabulary_exhausts_every_game() {
    // more digits than the alphabet has: no value at all
    let g = GameParams::new(2).with_base(1);
    let mut s = NaiveStrategy::new(g);
    let none: Vec<Number> = Vec::new();
    let r = evaluate_values(&mut s, &none, EvaluationResult::new()).unwrap();
    assert_eq!((r.total, r.worst_guess_count), (0, 0));
    assert!(r.worst_number.is_none());
    let rep = GameParams::new(2).with_base(0).with_repetitions(true);
    let mut s = create_strategy(StrategyType::MinMax, &rep).unwrap();
    let r = evaluate_values(&mut s, &none, EvaluationResult::new()).unwrap();
    assert_eq!(r.total, 0);
}

#[test]
fn the_error_names_the_value_at_which_the_run_stopped() {
    let g = GameParams::new(1).with_base(36);
    let mut s = NaiveStrategy::new(g);
    // "3" and "T" are found; "V" is the first that is not; "W" is never tried
    let values = vec![Number::from("3"), Number::from("T"), Number::from("V"), Number::from("W")];
    match evaluate_values(&mut s, &values, EvaluationResult::new()) {
        Err(EvaluationError::NonConvergence(n)) => assert_eq!(n.to_string(), "V"),
        other => panic!("unexpected {:?}", other),
    }
    let found = vec![Number::from("3"), Number::from("T"), Number::from("0")];
    let r = evaluate_values(&mut s, &found, EvaluationResult::new()).unwrap();
    assert_eq!((r.total, r.worst_guess_count), (4 + 30 + 1, 30));
    assert_eq!(r.worst_number.unwrap().to_string(), "T");
}
