use guess_engine::game_params::GameParams;
use guess_engine::number::Number;
use guess_engine::oracle::{calc_bc, calc_bc_with_size};

#[test]
fn common_test_calc_bc() {
    assert_eq!(calc_bc("0123", "0432"), (1, 2));
    assert_eq!(calc_bc("1234", "5678"), (0, 0));
    assert_eq!(calc_bc("12304", "43210"), (0, 5));
    assert_eq!(calc_bc("123456", "123456"), (6, 0));
    assert_eq!(calc_bc("1234", "7893"), (0, 1));
}

#[test]
fn game_utils_test_calc_bc() {
    assert_eq!(
        calc_bc_with_size(&Number::from("0123"), &Number::from("0432"), 5),
        (1, 2)
    );
    assert_eq!(
        calc_bc_with_size(&Number::from("1234"), &Number::from("5678"), 10),
        (0, 0)
    );
    assert_eq!(
        calc_bc_with_size(&Number::from("12304"), &Number::from("43210"), 10),
        (0, 5)
    );
    assert_eq!(
        calc_bc_with_size(&Number::from("123456"), &Number::from("123456"), 10),
        (6, 0)
    );
    assert_eq!(
        calc_bc_with_size(&Number::from("1234"), &Number::from("7893"), 10),
        (0, 1)
    );
}

#[test]
fn score_is_symmetric() {
    let pairs = [("0123", "0432"), ("1123", "2311"), ("9012", "1290"), ("5555", "5055")];
    for (g, h) in pairs {
        assert_eq!(calc_bc(g, h), calc_bc(h, g));
        assert_eq!(
            calc_bc_with_size(&Number::from(g), &Number::from(h), 10),
            calc_bc_with_size(&Number::from(h), &Number::from(g), 10)
        );
    }
}

#[test]
fn score_of_a_value_against_itself() {
    for g in ["", "7", "0123", "112233", "9876543210"] {
        assert_eq!(calc_bc(g, g), (g.len() as i32, 0));
        assert_eq!(
            calc_bc_with_size(&Number::from(g), &Number::from(g), 10),
            (g.len() as u8, 0)
        );
    }
}

#[test]
fn overlap_counts_repeated_digits() {
    // min(2, 2) for the digit 1, one each for 2 and 3, no exact match
    assert_eq!(calc_bc("1123", "2311"), (0, 4));
    assert_eq!(
        calc_bc_with_size(&Number::from("1123"), &Number::from("2311"), 4),
        (0, 4)
    );
    // the second 1 of the guess has no partner left
    assert_eq!(calc_bc("1100", "2221"), (0, 1));
    assert_eq!(calc_bc("1122", "1221"), (2, 2));
}

#[test]
fn score_compares_the_common_places_only() {
    assert_eq!(calc_bc("12", "1234"), (2, 0));
    assert_eq!(calc_bc("2199", "12"), (0, 2));
    assert_eq!(
        calc_bc_with_size(&Number::new(vec![1, 2, 3]), &Number::new(vec![3]), 10),
        (0, 0)
    );
}

#[test]
fn score_ignores_what_stands_at_exact_matches() {
    assert_eq!(calc_bc("a1", "a2"), (1, 0));
    assert_eq!(calc_bc("x12", "x21"), (1, 2));
}

#[test]
fn game_params_score_uses_its_base() {
    let g = GameParams::new(4).with_base(16).with_repetitions(true);
    let a = Number::from("0AF1");
    let b = Number::from("A0F1");
    assert_eq!(g.calc_bc(&a, &b), (2, 2));
}

// The score by the formula of the counts: what the digits have in common,
// with multiplicity, less the exact matches.
fn score_by_counts(g: &[u8], h: &[u8]) -> (u8, u8) {
    let bulls = g.iter().zip(h.iter()).filter(|(a, b)| a == b).count();
    let mut common = 0;
    for d in 0..=255u8 {
        let in_g = g.iter().filter(|x| **x == d).count();
        let in_h = h.iter().filter(|x| **x == d).count();
        common += in_g.min(in_h);
    }
    (bulls as u8, (common - bulls) as u8)
}

#[test]
fn score_agrees_with_the_formula_of_the_counts() {
    let mut values: Vec<Vec<u8>> = vec![Vec::new()];
    for _ in 0..4 {
        let mut longer = Vec::new();
        for v in values.iter() {
            for d in 0..3u8 {
                let mut x = v.clone();
                x.push(d);
                longer.push(x);
            }
        }
        values = longer;
    }
    for g in values.iter() {
        for h in values.iter() {
            let got = calc_bc_with_size(&Number::new(g.clone()), &Number::new(h.clone()), 3);
            assert_eq!(got, score_by_counts(g, h));
            let tg: String = g.iter().map(|d| (b'0' + d) as char).collect();
            let th: String = h.iter().map(|d| (b'0' + d) as char).collect();
            assert_eq!(calc_bc(&tg, &th), (got.0 as i32, got.1 as i32));
        }
    }
}

#[test]
fn score_of_two_pairs_exchanged() {
    assert_eq!(calc_bc("1122", "2211"), (0, 4));
    assert_eq!(calc_bc("2211", "1122"), (0, 4));
    assert_eq!(
        calc_bc_with_size(&Number::from("1122"), &Number::from("2211"), 3),
        (0, 4)
    );
}
