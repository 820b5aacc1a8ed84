use guess_engine::word_feedback::CharResult;
use guess_engine::words_chooser::{ChoiseState, WordsChooser, WordsContainer};

fn words(list: &[&str]) -> Vec<String> {
    list.iter().map(|x| x.to_string()).collect()
}

#[test]
fn test_no_choise() {
    let vocabulary: Vec<_> = ["abc", "abd", "bad"]
        .iter()
        .map(|x| x.to_string())
        .collect();
    let mut w = WordsChooser::new(vocabulary, 3);

    assert!(w.make_guess().is_some());
    assert_eq!(w.state(), ChoiseState::WaitForRespond);
    w.respond_to_guess(&[
        CharResult::NotPresented,
        CharResult::NotPresented,
        CharResult::NotPresented,
    ]);

    assert!(w.candidates().is_empty());
    assert!(w.make_guess().is_none());
}

#[test]
fn test_one_choise() {
    let vocabulary: Vec<_> = ["abc", "abd"].iter().map(|x| x.to_string()).collect();
    let mut w = WordsChooser::new(vocabulary, 3);

    let attempt1 = w.make_guess().unwrap().to_owned();
    assert_eq!(w.last_word().unwrap(), &attempt1);
    assert!(attempt1 == "abc" || attempt1 == "abd");
    w.respond_to_guess(&[
        CharResult::FullMatch,
        CharResult::FullMatch,
        CharResult::NotPresented,
    ]);
    assert_eq!(w.candidates().len(), 1);
    let attempt2 = w.make_guess().unwrap();
    assert_ne!(attempt1, attempt2);
}

// The most reasonable first attempt is "abc" or "cbg": each of their
// responses leaves one word, while "bde" and "fcb" have a response that
// leaves two.
#[test]
fn test_smartest_choise() {
    let vocabulary: Vec<_> = ["bde", "fcb", "abc", "cbg"]
        .iter()
        .map(|x| x.to_string())
        .collect();
    let mut w = WordsChooser::new(vocabulary, 3);

    let attempt1 = w.make_guess().unwrap();
    // Check for the best options
    assert!(attempt1 == "abc" || attempt1 == "cbg");

    // Let's assume the hidden word is "bde"
    w.respond_to_guess(&[
        CharResult::NotPresented,
        CharResult::PartialMatch,
        CharResult::NotPresented,
    ]);

    assert_eq!(w.candidates().len(), 1);
    assert_eq!(w.make_guess().unwrap(), "bde");
}

#[test]
fn first_of_the_best_attempts_is_guessed() {
    let mut w = WordsChooser::new(words(&["bde", "fcb", "abc", "cbg"]), 3);
    assert_eq!(w.make_guess().unwrap(), "abc");
    let mut w = WordsChooser::new(words(&["bde", "cbg", "fcb", "abc"]), 3);
    assert_eq!(w.make_guess().unwrap(), "cbg");
}

#[test]
fn the_only_best_attempt_is_guessed_first() {
    // "bfc" tells the four words apart; each other word leaves two together
    let mut w = WordsChooser::new(words(&["eac", "eaf", "bfc", "eab"]), 3);
    assert_eq!(w.state(), ChoiseState::ReadyToMakeGuess);
    assert_eq!(w.make_guess().unwrap(), "bfc");
    assert_eq!(w.last_word().unwrap(), "bfc");
    assert_eq!(w.state(), ChoiseState::WaitForRespond);
}

#[test]
fn a_word_outside_the_pool_wins_when_strictly_better() {
    let vocabulary = words(&["dca", "acf", "hbf", "dga", "chd", "ced", "cbd", "cad"]);
    let mut w = WordsChooser::new(vocabulary, 3);
    assert_eq!(w.make_guess().unwrap(), "dca");
    w.respond_to_guess(&[
        CharResult::PartialMatch,
        CharResult::PartialMatch,
        CharResult::NotPresented,
    ]);
    assert_eq!(w.candidates(), &words(&["chd", "ced", "cbd"]));
    // each word of the pool leaves the other two together; "hbf" tells all three apart
    assert_eq!(w.make_guess().unwrap(), "hbf");
}

#[test]
fn a_response_that_no_word_allows_empties_the_pool() {
    let mut w = WordsChooser::new(words(&["aax", "aay", "aaz", "xyz"]), 3);
    assert_eq!(w.make_guess().unwrap(), "xyz");
    w.respond_to_guess(&[
        CharResult::NotPresented,
        CharResult::NotPresented,
        CharResult::NotPresented,
    ]);
    assert!(w.candidates().is_empty());
    let mut w = WordsChooser::new(words(&["aax", "aay", "aaz", "xyz", "aaa"]), 3);
    assert_eq!(w.make_guess().unwrap(), "xyz");
    w.respond_to_guess(&[
        CharResult::PartialMatch,
        CharResult::NotPresented,
        CharResult::NotPresented,
    ]);
    assert_eq!(w.candidates(), &words(&["aax"]));
}

#[test]
fn response_keeps_exactly_the_words_that_allow_it() {
    let mut w = WordsChooser::new(words(&["abc", "abd", "bad", "cab", "xyz"]), 3);
    let guess = w.make_guess().unwrap().to_owned();
    assert_eq!(guess, "abc");
    w.respond_to_guess(&[
        CharResult::PartialMatch,
        CharResult::PartialMatch,
        CharResult::NotPresented,
    ]);
    assert_eq!(w.candidates(), &words(&["bad"]));
    assert_eq!(w.state(), ChoiseState::ReadyToMakeGuess);
}

#[test]
fn response_with_repeated_symbols_keeps_every_reading() {
    let mut w = WordsChooser::new(words(&["abba", "babb", "bbbb", "aaaa"]), 4);
    assert_eq!(w.make_guess().unwrap(), "abba");
    // either "a" of the attempt may be the partial match of "babb"
    w.respond_to_guess(&[
        CharResult::NotPresented,
        CharResult::PartialMatch,
        CharResult::FullMatch,
        CharResult::PartialMatch,
    ]);
    assert_eq!(w.candidates(), &words(&["babb"]));
}

#[test]
fn empty_vocabulary_is_exhausted_at_once() {
    let mut w = WordsChooser::new(Vec::new(), 5);
    assert!(w.make_guess().is_none());
    assert_eq!(w.state(), ChoiseState::NoMoreWords);
    assert!(w.last_word().is_none());
}

#[test]
fn list_of_words_holds_the_pool_first() {
    let c = WordsContainer::new(words(&["abc", "abd", "bad"]));
    assert_eq!(c.construct_list_of_words(), ["abc", "abd", "bad"]);
    let empty = WordsContainer::new(Vec::new());
    assert!(empty.construct_list_of_words().is_empty());
}
