use guess_engine::word_feedback::{calc_all_answers, convert_res, is_full_match, CharResult};

fn calc_all_answers_test(attempt_word: &str, hidden_word: &str) -> Vec<u32> {
    let mut res = Vec::new();
    calc_all_answers(attempt_word, hidden_word, &mut res);
    res
}

#[test]
fn test_calc_matching_1() {
    let s1 = "abcd";
    let s2 = "xyzw";
    assert_eq!(
        calc_all_answers_test(s1, s2),
        [convert_res(&[CharResult::NotPresented; 4])]
    )
}

#[test]
fn test_calc_matching_2() {
    let s1 = "abcd";
    let s2 = "abcd";
    assert_eq!(
        calc_all_answers_test(s1, s2),
        [convert_res(&[CharResult::FullMatch; 4])]
    )
}

#[test]
fn test_calc_matching_3() {
    let s1 = "abcd";
    let s2 = "dcba";
    assert_eq!(
        calc_all_answers_test(s1, s2),
        [convert_res(&[CharResult::PartialMatch; 4])]
    )
}

#[test]
fn test_calc_matching_4() {
    let s1 = "abcd";
    let s2 = "acba";
    assert_eq!(
        calc_all_answers_test(s1, s2),
        [convert_res(&[
            CharResult::FullMatch,
            CharResult::PartialMatch,
            CharResult::PartialMatch,
            CharResult::NotPresented
        ])]
    )
}

#[test]
fn test_calc_matching_5() {
    let s1 = "dbca";
    let s2 = "acba";
    assert_eq!(
        calc_all_answers_test(s1, s2),
        [convert_res(&[
            CharResult::NotPresented,
            CharResult::PartialMatch,
            CharResult::PartialMatch,
            CharResult::FullMatch
        ])]
    )
}

fn tag(x: &i32) -> CharResult {
    match x {
        0 => CharResult::NotPresented,
        1 => CharResult::PartialMatch,
        2 => CharResult::FullMatch,
        _ => panic!("Invalid argument: {}", x),
    }
}

#[test]
fn test_calc_matching_6() {
    let s1 = "abba";
    let s2 = "babb";
    let mut r = calc_all_answers_test(s1, s2);
    assert_eq!(r.len(), 2);
    r.sort();
    let r = r;

    let res_expected = vec![
        [0, 1, 2, 1].iter().map(tag).collect::<Vec<_>>(),
        [1, 1, 2, 0].iter().map(tag).collect::<Vec<_>>(),
    ];
    let mut res_expected: Vec<_> = res_expected
        .iter()
        .map(|x| convert_res(x.as_slice()))
        .collect();
    res_expected.sort();
    assert_eq!(r, res_expected);
}

#[test]
fn test_calc_matching_7() {
    // Two of "a"-s and one of "b" is PartialMatch
    let s1 = "ddaaabb";
    let s2 = "aabcccc";

    let res_expected = vec![
        [0, 0, 1, 1, 0, 1, 0],
        [0, 0, 1, 0, 1, 1, 0],
        [0, 0, 0, 1, 1, 1, 0],
        [0, 0, 1, 1, 0, 0, 1],
        [0, 0, 1, 0, 1, 0, 1],
        [0, 0, 0, 1, 1, 0, 1],
    ];
    let mut res_expected: Vec<_> = res_expected
        .into_iter()
        .map(|arr| arr.iter().map(tag).collect::<Vec<_>>())
        .map(|x| convert_res(&x))
        .collect();
    res_expected.sort();

    let mut r = calc_all_answers_test(s1, s2);
    r.sort();
    assert_eq!(r, res_expected);
}

#[test]
fn convert_res_weighs_the_places_by_powers_of_three() {
    assert_eq!(convert_res(&[]), 0);
    assert_eq!(convert_res(&[CharResult::PartialMatch]), 1);
    assert_eq!(convert_res(&[CharResult::FullMatch]), 2);
    assert_eq!(
        convert_res(&[
            CharResult::NotPresented,
            CharResult::PartialMatch,
            CharResult::FullMatch
        ]),
        3 + 2 * 9
    );
    assert_eq!(convert_res(&[CharResult::FullMatch; 20]), 3486784400);
}

#[test]
fn feedbacks_of_empty_words() {
    assert_eq!(calc_all_answers_test("", ""), [0]);
}

#[test]
fn feedbacks_replace_what_the_vector_held() {
    let mut res = vec![7, 7, 7];
    calc_all_answers("ab", "ba", &mut res);
    assert_eq!(res, [convert_res(&[CharResult::PartialMatch; 2])]);
}

#[test]
fn repeated_symbol_with_one_partner() {
    // the hidden word has one "a" left for three unmatched "a" of the attempt
    let mut r = calc_all_answers_test("aaab", "bbba");
    r.sort();
    let mut expected: Vec<u32> = vec![
        [1, 0, 0, 1].iter().map(tag).collect::<Vec<_>>(),
        [0, 1, 0, 1].iter().map(tag).collect::<Vec<_>>(),
        [0, 0, 1, 1].iter().map(tag).collect::<Vec<_>>(),
    ]
    .iter()
    .map(|x| convert_res(x))
    .collect();
    expected.sort();
    assert_eq!(r, expected);
}

#[test]
fn exact_matches_use_up_the_hidden_symbols() {
    // both "a" of the hidden word are matched exactly: the third "a" is absent
    assert_eq!(
        calc_all_answers_test("aaa", "aab"),
        [convert_res(&[
            CharResult::FullMatch,
            CharResult::FullMatch,
            CharResult::NotPresented
        ])]
    );
}

#[test]
fn every_feedback_of_a_long_pair_is_distinct() {
    let r = calc_all_answers_test("aabbccddeeffgghhiijj", "jjiihhggffeeddccbbaa");
    assert_eq!(r.len(), 1);
    assert_eq!(r[0], convert_res(&[CharResult::PartialMatch; 20]));
    let r = calc_all_answers_test("aaaabbbb", "bbccaadd");
    // two of four "a" and two of four "b": 6 * 6 choices
    assert_eq!(r.len(), 36);
    let distinct: std::collections::HashSet<_> = r.iter().collect();
    assert_eq!(distinct.len(), 36);
}

#[test]
fn symbols_outside_ascii_are_symbols_like_any_other() {
    assert_eq!(
        calc_all_answers_test("\u{e9}a\u{4e16}", "a\u{e9}\u{4e16}"),
        [convert_res(&[
            CharResult::PartialMatch,
            CharResult::PartialMatch,
            CharResult::FullMatch
        ])]
    );
}

#[test]
fn only_full_matches_throughout_are_a_win() {
    assert!(is_full_match(&[CharResult::FullMatch; 5]));
    assert!(is_full_match(&[]));
    assert!(!is_full_match(&[
        CharResult::FullMatch,
        CharResult::PartialMatch,
        CharResult::FullMatch
    ]));
    assert!(!is_full_match(&[CharResult::NotPresented]));
}

// Every tag vector that the rule allows, found by trying all of them.
fn feedbacks_by_the_rule(attempt: &[char], hidden: &[char]) -> Vec<u32> {
    let n = attempt.len();
    let mut found = Vec::new();
    for code in 0..3u32.pow(n as u32) {
        let tags: Vec<u32> = (0..n).map(|i| code / 3u32.pow(i as u32) % 3).collect();
        let exact_ok = (0..n).all(|i| (tags[i] == 2) == (attempt[i] == hidden[i]));
        let quota_ok = attempt.iter().all(|c| {
            let in_attempt = (0..n).filter(|&i| attempt[i] == *c && hidden[i] != *c).count();
            let in_hidden = (0..n).filter(|&i| hidden[i] == *c && attempt[i] != *c).count();
            let partial = (0..n).filter(|&i| attempt[i] == *c && tags[i] == 1).count();
            partial == in_attempt.min(in_hidden)
        });
        let partial_only_where_known = (0..n).all(|i| tags[i] != 1 || attempt[i] != hidden[i]);
        if exact_ok && quota_ok && partial_only_where_known {
            found.push(code);
        }
    }
    found
}

fn all_words(alphabet: &[char], n: usize) -> Vec<Vec<char>> {
    let mut words = vec![Vec::new()];
    for _ in 0..n {
        let mut longer = Vec::new();
        for w in words.iter() {
            for c in alphabet {
                let mut x = w.clone();
                x.push(*c);
                longer.push(x);
            }
        }
        words = longer;
    }
    words
}

#[test]
fn feedbacks_agree_with_the_rule_on_all_short_words() {
    for n in 0..=4 {
        let words = all_words(&['a', 'b', 'c'], n);
        for attempt in words.iter() {
            for hidden in words.iter() {
                let a: String = attempt.iter().collect();
                let h: String = hidden.iter().collect();
                let mut got = calc_all_answers_test(&a, &h);
                got.sort();
                assert_eq!(got, feedbacks_by_the_rule(attempt, hidden), "{} {}", a, h);
            }
        }
    }
}

#[test]
fn convert_res_agrees_with_the_digits() {
    let tags = [CharResult::NotPresented, CharResult::PartialMatch, CharResult::FullMatch];
    for code in 0..3u32.pow(5) {
        let v: Vec<CharResult> = (0..5).map(|i| tags[(code / 3u32.pow(i) % 3) as usize]).collect();
        assert_eq!(convert_res(&v), code);
    }
}
