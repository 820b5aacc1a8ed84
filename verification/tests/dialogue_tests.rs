use guess_engine::colored_string::{Color, ColoredString};
use guess_engine::input_getter::{
    parse_line, parse_score, parse_u8, Command, Input, InputGetter, ResponseCheck, ScoreLine,
};
use guess_engine::text::{char_count, same_text, string_of, text_precedes, trim};
use guess_engine::word_feedback::CharResult;

#[test]
fn trim_takes_the_white_space_off_both_ends() {
    assert_eq!(trim("  a b \t\n"), "a b");
    assert_eq!(trim("\u{a0}\u{2003}x\u{3000}"), "x");
    assert_eq!(trim(" \t "), "");
    assert_eq!(trim(""), "");
    assert_eq!(trim("word"), "word");
    for s in [" x", "y\r\n", " \u{85}z\u{1680} ", "a\u{200b}"] {
        assert_eq!(trim(s), s.trim());
    }
}

#[test]
fn texts_are_counted_and_compared_by_symbols() {
    assert_eq!(char_count("caf\u{e9}"), 4);
    assert_eq!(char_count(""), 0);
    assert!(same_text("ab", "ab"));
    assert!(!same_text("ab", "abc"));
    assert!(!same_text("ab", "aB"));
    assert!(text_precedes("a", "ab"));
    assert!(text_precedes("ab", "b"));
    assert!(text_precedes("z", "\u{e9}"));
    assert!(!text_precedes("b", "b"));
    assert!(!text_precedes("b", "ab"));
    for (a, b) in [("abc", "abd"), ("", "a"), ("B", "a"), ("\u{4e16}", "\u{1f600}"), ("x", "x")] {
        assert_eq!(text_precedes(a, b), a < b);
        assert_eq!(text_precedes(b, a), b < a);
    }
    assert_eq!(string_of(&vec!['a', 'b', 'c', 'd'], 1, 3), "bc");
}

#[test]
fn lines_are_commands_or_values() {
    assert!(matches!(parse_line("-quit\n"), Input::Cmd(Command::Quit)));
    assert!(matches!(parse_line("  -stop  "), Input::Cmd(Command::StopGame)));
    match parse_line("  HeLLo \n") {
        Input::Value(s) => assert_eq!(s, "hello"),
        other => panic!("unexpected {:?}", other),
    }
    match parse_line("-Quit") {
        Input::Value(s) => assert_eq!(s, "-quit"),
        other => panic!("unexpected {:?}", other),
    }
    match parse_line("") {
        Input::Value(s) => assert_eq!(s, ""),
        other => panic!("unexpected {:?}", other),
    }
}

#[test]
fn responses_are_judged() {
    let getter = InputGetter::new(4);
    assert_eq!(getter.word_len(), 4);
    assert!(getter.accepts_word("abcd"));
    assert!(getter.accepts_word("caf\u{e9}"));
    assert!(!getter.accepts_word("abc"));
    assert!(matches!(getter.check_response("012"), ResponseCheck::WrongLength));
    assert!(matches!(getter.check_response("01234"), ResponseCheck::WrongLength));
    assert!(matches!(getter.check_response("0123"), ResponseCheck::ForbiddenSymbol));
    assert!(matches!(getter.check_response("01a2"), ResponseCheck::ForbiddenSymbol));
    match getter.check_response("0122") {
        ResponseCheck::Accepted(v) => assert_eq!(
            v,
            [
                CharResult::NotPresented,
                CharResult::PartialMatch,
                CharResult::FullMatch,
                CharResult::FullMatch
            ]
        ),
        other => panic!("unexpected {:?}", other),
    }
}

fn runs(s: &ColoredString) -> Vec<(Color, usize, usize)> {
    s.color_ranges().iter().map(|r| (r.color, r.start, r.end)).collect()
}

#[test]
fn attempt_is_coloured_by_its_response() {
    let s = InputGetter::color_attempt(
        "abcd",
        &[
            CharResult::FullMatch,
            CharResult::FullMatch,
            CharResult::PartialMatch,
            CharResult::NotPresented,
        ],
    );
    assert_eq!(s.plain(), "abcd");
    assert_eq!(s.len(), 4);
    assert_eq!(
        runs(&s),
        [(Color::Green, 0, 2), (Color::Yellow, 2, 3), (Color::Gray, 3, 4)]
    );
}

#[test]
fn stretches_of_one_colour() {
    let mut s = ColoredString::new("hello".to_string());
    assert_eq!(runs(&s), [(Color::Default, 0, 5)]);
    s.set_color(1, Color::Green);
    s.set_color(2, Color::Green);
    s.set_color(4, Color::Yellow);
    assert_eq!(
        runs(&s),
        [
            (Color::Default, 0, 1),
            (Color::Green, 1, 3),
            (Color::Default, 3, 4),
            (Color::Yellow, 4, 5)
        ]
    );
    s.set_color(1, Color::Default);
    s.set_color(2, Color::Default);
    s.set_color(4, Color::Default);
    assert_eq!(runs(&s), [(Color::Default, 0, 5)]);
    assert!(runs(&ColoredString::new(String::new())).is_empty());
}

#[test]
fn plain_text_is_rendered_as_it_is() {
    colored::control::set_override(true);
    let s = ColoredString::new("h\u{e9}llo".to_string());
    assert_eq!(s.render(), "h\u{e9}llo");
    assert_eq!(ColoredString::new(String::new()).render(), "");
}

#[test]
fn colours_are_rendered_as_escape_sequences() {
    colored::control::set_override(true);
    let mut s = ColoredString::new("abcd".to_string());
    s.set_color(0, Color::Green);
    s.set_color(1, Color::Green);
    s.set_color(2, Color::Yellow);
    s.set_color(3, Color::Gray);
    assert_eq!(
        s.render(),
        "\u{1b}[32mab\u{1b}[0m\u{1b}[33mc\u{1b}[0m\u{1b}[37md\u{1b}[0m"
    );
    let mut s = ColoredString::new("xy".to_string());
    s.set_color(1, Color::Gray);
    assert_eq!(s.render(), "x\u{1b}[37my\u{1b}[0m");
}

#[test]
fn numbers_are_read_as_std_reads_them() {
    let texts = [
        "0", "7", "42", "255", "256", "300", "007", "0000000000000000000255", "+5", "+", "",
        "-1", "-0", "1 ", " 1", "1a", "a", "++1", "+-1", "12345678901234567890", "\u{661}", "1_0",
    ];
    for t in texts {
        assert_eq!(parse_u8(t), t.parse::<u8>().ok(), "{:?}", t);
    }
    assert_eq!(parse_u8("199"), Some(199));
    assert_eq!(parse_u8("+255"), Some(255));
}

fn score_as_std_reads_it(line: &str) -> ScoreLine {
    let parts: Vec<Option<u8>> = line.split(' ').map(|x| x.trim().parse().ok()).collect();
    if parts.iter().any(|x| x.is_none()) {
        ScoreLine::Malformed
    } else if parts.len() != 2 {
        ScoreLine::WrongCount
    } else {
        ScoreLine::Score(parts[0].unwrap(), parts[1].unwrap())
    }
}

#[test]
fn score_lines_are_judged() {
    assert_eq!(parse_score("1 2\n"), ScoreLine::Score(1, 2));
    assert_eq!(parse_score("0 0"), ScoreLine::Score(0, 0));
    assert_eq!(parse_score("\t4 0\r\n"), ScoreLine::Score(4, 0));
    assert_eq!(parse_score("4"), ScoreLine::WrongCount);
    assert_eq!(parse_score("1 2 3"), ScoreLine::WrongCount);
    assert_eq!(parse_score("1  2"), ScoreLine::Malformed);
    assert_eq!(parse_score(""), ScoreLine::Malformed);
    assert_eq!(parse_score("1 x"), ScoreLine::Malformed);
    assert_eq!(parse_score("1 2 "), ScoreLine::Malformed);
    assert_eq!(parse_score("1 256"), ScoreLine::Malformed);
    for line in ["3 1\n", " 3 1", "3\t1", "+3 +1", "3 1 ", "a b", "12", "1 2 3 4", " ", "  "] {
        assert_eq!(parse_score(line), score_as_std_reads_it(line), "{:?}", line);
    }
}
