use guess_engine::db_reader::{sorted_unique, WordsDb};

// The file of the database, held in memory: `None` while it does not exist.
type FileLines = Option<Vec<String>>;

fn open_db(file: &FileLines, word_len: usize) -> WordsDb {
    match file {
        Some(lines) => WordsDb::new_from_lines(lines, word_len),
        None => WordsDb::new(word_len),
    }
}

// What happens when a database goes out of use: it is flushed if it needs to be.
fn close_db(mut db: WordsDb, file: &mut FileLines) {
    if db.needs_flush() {
        let existing = file.clone().unwrap_or_default();
        *file = Some(db.merged_for_flush(&existing));
        db.mark_flushed();
        assert!(db.added_words().is_empty());
        assert!(!db.needs_flush());
    }
}

fn words(list: &[&str]) -> Vec<String> {
    list.iter().map(|x| x.to_string()).collect()
}

#[test]
fn db_reader_test_init() {
    let mut file: FileLines = None;
    {
        let db = open_db(&file, 5);
        assert!(!db.needs_flush());
        assert!(db.known_words().is_empty());
        close_db(db, &mut file);
    }
    assert!(file.is_none());
}

#[test]
fn db_reader_test_read() {
    let lines = words(&["bar", "baz", "foo"]);
    {
        let db = WordsDb::new_from_lines(&lines, 3);
        assert_eq!(db.known_words(), &["bar", "baz", "foo"]);
    }
}

#[test]
fn db_reader_test_read_and_write() {
    let mut file: FileLines = None;
    let mut all_words = Vec::new();

    {
        let mut db = open_db(&file, 3);
        let words = ["foo", "bar", "baz"];
        for word in words {
            db.add_word(word);
            all_words.push(word.to_owned());
        }
        close_db(db, &mut file);
    }
    all_words.sort();

    {
        let mut db = open_db(&file, 3);
        assert_eq!(db.known_words(), &all_words);
        db.add_word("qwe");
        all_words.push("qwe".to_owned());
        close_db(db, &mut file);
    }
    all_words.sort();

    {
        let db = open_db(&file, 3);
        assert_eq!(db.known_words(), &all_words);
    }
}

#[test]
fn db_reader_test_multiple_len() {
    let mut file: FileLines = None;
    {
        let mut db = open_db(&file, 3);

        let words = ["foo", "bar", "baz"];
        for word in words {
            db.add_word(word);
        }
        close_db(db, &mut file);
    }

    {
        let mut db = open_db(&file, 4);

        assert!(db.known_words().is_empty());
        db.add_word("abcd");
        close_db(db, &mut file);
    }

    {
        let db = open_db(&file, 3);

        assert_eq!(db.known_words(), &["bar", "baz", "foo"]);
    }

    {
        let db = open_db(&file, 4);

        assert_eq!(db.known_words(), &["abcd"]);
    }
}

#[test]
fn test_flush_with_multiple_len() {
    let mut file: FileLines = None;
    {
        let mut db = open_db(&file, 3);

        let words = ["foo", "bar", "baz"];
        for word in words {
            db.add_word(word);
        }
        close_db(db, &mut file);
    }

    {
        let mut db = open_db(&file, 4);

        assert!(db.known_words().is_empty());
        assert!(!db.needs_flush());
        db.add_word("abcd");
        assert!(db.needs_flush());
        close_db(db, &mut file);
    }

    {
        let mut db = open_db(&file, 3);

        assert_eq!(db.known_words(), &["bar", "baz", "foo"]);

        db.add_word("qwe");
        assert!(db.needs_flush());
        let existing = file.clone().unwrap();
        file = Some(db.merged_for_flush(&existing));
        db.mark_flushed();

        assert!(db.added_words().is_empty());
        assert_eq!(db.known_words(), &["bar", "baz", "foo", "qwe"]);
        assert!(!db.needs_flush());
    }
    assert_eq!(file.unwrap(), ["bar", "baz", "foo", "qwe", "abcd"]);
}

#[test]
fn test_sync_new_words() {
    let mut db = WordsDb::new_from_lines(&words(&["abc", "bcd"]), 3);
    db.add_word("efc");
    db.add_word("abc");
    db.sync_new_words();
    assert!(db.added_words().is_empty());
    assert_eq!(db.known_words(), &["abc", "bcd", "efc"]);
    assert!(db.needs_flush());
}

#[test]
fn sync_without_new_words_changes_nothing() {
    let mut db = WordsDb::new_from_lines(&words(&["zzz", "abc", "zzz"]), 3);
    db.sync_new_words();
    assert_eq!(db.known_words(), &["zzz", "abc", "zzz"]);
    assert!(!db.needs_flush());
}

#[test]
fn lines_are_trimmed_and_sifted_by_length() {
    let lines = words(&["  foo ", "\tbarn", "", "ba z", "baz\r", "\u{a0}qux\u{2003}", "caf\u{e9}"]);
    let db = WordsDb::new_from_lines(&lines, 3);
    assert_eq!(db.known_words(), &["foo", "baz", "qux"]);
    let db = WordsDb::new_from_lines(&lines, 4);
    assert_eq!(db.known_words(), &["barn", "ba z", "caf\u{e9}"]);
}

#[test]
fn added_words_are_trimmed_and_lowered() {
    let mut db = WordsDb::new(3);
    db.add_word(" FoO\n");
    db.add_word("\u{c9}t\u{c9}");
    assert_eq!(db.added_words(), &["foo", "\u{e9}t\u{e9}"]);
    let all: Vec<String> = db.words_iter().into_iter().cloned().collect();
    assert_eq!(all, ["foo", "\u{e9}t\u{e9}"]);
    assert_eq!(db.all_words(), ["foo", "\u{e9}t\u{e9}"]);
}

#[test]
fn words_iter_gives_known_words_first() {
    let mut db = WordsDb::new_from_lines(&words(&["foo", "bar"]), 3);
    db.add_word("baz");
    db.add_word("abc");
    let all: Vec<&String> = db.words_iter();
    assert_eq!(all, ["foo", "bar", "baz", "abc"]);
}

#[test]
fn flush_orders_by_length_first() {
    let mut db = WordsDb::new_from_lines(&words(&["pear", "fig"]), 3);
    db.add_word("a\u{e9}z");
    db.add_word("abz");
    let file = words(&["pear", "fig ", " kiwi", "fig", "plum", "zz", "apple"]);
    // "aéz" takes four bytes, so it stands with the words of four bytes
    assert_eq!(
        db.merged_for_flush(&file),
        ["zz", "abz", "fig", "a\u{e9}z", "kiwi", "pear", "plum", "apple"]
    );
}

#[test]
fn sorted_unique_in_the_order_of_texts() {
    let list = words(&["b", "ab", "a", "", "b", "B", "\u{e9}", "z", "ab"]);
    assert_eq!(sorted_unique(list.clone(), false), ["", "B", "a", "ab", "b", "z", "\u{e9}"]);
    assert_eq!(sorted_unique(list, true), ["", "B", "a", "b", "z", "ab", "\u{e9}"]);
    assert!(sorted_unique(Vec::new(), true).is_empty());
}

#[test]
fn a_word_of_another_length_is_not_added() {
    let mut db = WordsDb::new_from_lines(&words(&["foo"]), 3);
    assert!(!db.try_add_word("toolong"));
    assert!(!db.try_add_word(""));
    assert!(!db.try_add_word("  ab  "));
    assert!(db.added_words().is_empty());
    assert!(!db.needs_flush());
    assert_eq!(db.known_words(), &["foo"]);
    assert!(db.try_add_word(" BaR\n"));
    assert!(db.try_add_word("\u{c9}t\u{c9}"));
    assert_eq!(db.added_words(), &["bar", "\u{e9}t\u{e9}"]);
    assert!(db.needs_flush());
    assert!(!db.try_add_word("quux"));
    assert_eq!(db.added_words(), &["bar", "\u{e9}t\u{e9}"]);
    assert_eq!(db.known_words(), &["foo"]);
}
