use guess_engine::game_params::GameParams;
use guess_engine::generator::{collect_numbers, get_numbers_iter, NumbersIter, RefIter};
use guess_engine::number::Number;

fn drain(it: &mut NumbersIter) -> Vec<String> {
    let mut v = Vec::new();
    while let Some(x) = it.next_number() {
        v.push(x.to_string());
    }
    v
}

#[test]
fn test_gen_numbers() {
    {
        let g = GameParams::new(1).with_base(5);
        let mut it = get_numbers_iter(&g);
        let mut v = drain(&mut it);
        v.sort();
        assert_eq!(v, ["0", "1", "2", "3", "4"]);
    }

    {
        let g = GameParams::new(2).with_base(3);
        let mut it = get_numbers_iter(&g);
        let mut v = drain(&mut it);
        v.sort();

        let mut expected = ["01", "10", "21", "12", "20", "02"];
        expected.sort();
        assert_eq!(v, expected);
    }

    {
        let g = GameParams::new(3).with_base(3);
        let mut it = get_numbers_iter(&g);
        let mut v = drain(&mut it);
        v.sort();

        let mut expected = ["012", "021", "102", "120", "210", "201"];
        expected.sort();
        assert_eq!(v, expected);
    }
}

fn texts(values: &[Number]) -> Vec<String> {
    values.iter().map(|x| x.to_string()).collect()
}

fn falling(base: u64, len: u64) -> u64 {
    let mut r = 1;
    for k in 0..len {
        r *= base - k;
    }
    r
}

#[test]
fn generation_order_without_repetition() {
    let g = GameParams::new(2).with_base(3);
    // digit sets by mask, smallest mask first: {1,2}, {0,2}, {0,1}
    assert_eq!(texts(&collect_numbers(&g)), ["12", "21", "02", "20", "01", "10"]);
}

#[test]
fn generation_order_with_repetition() {
    let g = GameParams::new(2).with_base(3).with_repetitions(true);
    assert_eq!(
        texts(&collect_numbers(&g)),
        ["00", "01", "02", "10", "11", "12", "20", "21", "22"]
    );
}

#[test]
fn universe_sizes_without_repetition() {
    for base in 0..=7u8 {
        for len in 0..=base.min(5) {
            let g = GameParams::new(len).with_base(base);
            let all = collect_numbers(&g);
            assert_eq!(all.len() as u64, falling(base as u64, len as u64));
            let mut seen = std::collections::HashSet::new();
            for x in all.iter() {
                let d = x.digits();
                assert_eq!(d.len(), len as usize);
                let distinct: std::collections::HashSet<_> = d.iter().collect();
                assert_eq!(distinct.len(), d.len());
                assert!(d.iter().all(|v| *v < base));
                assert!(seen.insert(d.clone()));
            }
        }
    }
    assert_eq!(collect_numbers(&GameParams::new(4)).len(), 5040);
}

#[test]
fn universe_sizes_with_repetition() {
    for base in 0..=5u8 {
        for len in 0..=4u8 {
            let g = GameParams::new(len).with_base(base).with_repetitions(true);
            let all = collect_numbers(&g);
            assert_eq!(all.len() as u64, (base as u64).pow(len as u32));
            let mut seen = std::collections::HashSet::new();
            for (k, x) in all.iter().enumerate() {
                let d = x.digits();
                assert_eq!(d.len(), len as usize);
                assert!(d.iter().all(|v| *v < base));
                let value = d.iter().fold(0usize, |acc, v| acc * base as usize + *v as usize);
                assert_eq!(value, k);
                assert!(seen.insert(d.clone()));
            }
        }
    }
}

#[test]
fn length_zero_yields_one_empty_value() {
    for rep in [false, true] {
        for base in [0u8, 1, 10] {
            let g = GameParams::new(0).with_base(base).with_repetitions(rep);
            let all = collect_numbers(&g);
            assert_eq!(all.len(), 1);
            assert_eq!(all[0].len(), 0);
        }
    }
}

#[test]
fn longer_than_the_alphabet_yields_nothing() {
    let g = GameParams::new(4).with_base(3);
    assert!(collect_numbers(&g).is_empty());
    let mut it = get_numbers_iter(&g);
    assert!(it.next_number().is_none());
    assert!(it.next_number().is_none());
    let g = GameParams::new(36).with_base(35);
    assert!(g.get_numbers_iter().next_number().is_none());
}

#[test]
fn no_digits_yield_nothing() {
    let g = GameParams::new(2).with_base(0).with_repetitions(true);
    assert!(collect_numbers(&g).is_empty());
}

#[test]
fn generation_is_idempotent() {
    for rep in [false, true] {
        let g = GameParams::new(3).with_base(5).with_repetitions(rep);
        let first = texts(&collect_numbers(&g));
        let second = texts(&collect_numbers(&g));
        assert_eq!(first, second);
        let same = GameParams::new(3).with_total_digits_number(5).with_repetitions(rep);
        assert_eq!(first, texts(&collect_numbers(&same)));
    }
}

#[test]
fn walk_starts_again_after_its_end() {
    let g = GameParams::new(1).with_base(2);
    let mut it = get_numbers_iter(&g);
    assert_eq!(drain(&mut it), ["1", "0"]);
    assert_eq!(drain(&mut it), ["1", "0"]);
    let g = g.with_repetitions(true);
    let mut it = g.get_numbers_iter();
    assert_eq!(drain(&mut it), ["0", "1"]);
    assert_eq!(drain(&mut it), ["0", "1"]);
}

#[test]
fn next_hands_out_a_reference() {
    let g = GameParams::new(2).with_base(2);
    let mut it = get_numbers_iter(&g);
    assert_eq!(it.next().unwrap().to_string(), "01");
    assert_eq!(it.next().unwrap().to_string(), "10");
    assert!(it.next().is_none());
}

#[test]
fn largest_digits_are_letters() {
    let g = GameParams::new(1).with_base(12);
    let all = texts(&collect_numbers(&g));
    assert_eq!(all, ["B", "A", "9", "8", "7", "6", "5", "4", "3", "2", "1", "0"]);
    let all = texts(&collect_numbers(&g.with_repetitions(true)));
    assert_eq!(all, ["0", "1", "2", "3", "4", "5", "6", "7", "8", "9", "A", "B"]);
}
