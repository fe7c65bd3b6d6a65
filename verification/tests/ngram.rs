use keyswitch::text::letter_runs;
use keyswitch::ngram::{CharNgram, BOUNDARY, ORDER};
use keyswitch::text::{normalize, tokenize};

#[test]
fn tokenizer_splits_on_non_letters() {
    assert_eq!(tokenize("git push --force"), vec!["git", "push", "force"]);
}

#[test]
fn untrained_model_is_flagged() {
    assert!(!CharNgram::new().is_trained());
}

#[test]
fn tokenizer_lowercases_and_keeps_unicode_letters() {
    assert_eq!(tokenize("Привет, МИР! x2y"), vec!["привет", "мир", "x", "y"]);
    assert_eq!(tokenize(""), Vec::<String>::new());
    assert_eq!(tokenize("123 -- !!"), Vec::<String>::new());
    assert_eq!(tokenize("  Hello"), vec!["hello"]);
}

#[test]
fn normalize_drops_non_letters() {
    assert_eq!(normalize("Ab1-C"), "abc");
    assert_eq!(normalize("123"), "");
    assert_eq!(normalize("İ"), "i\u{307}");
}

#[test]
fn training_on_letters_makes_trained() {
    let mut m = CharNgram::new();
    m.train("123 ...");
    assert!(!m.is_trained());
    m.train("123 abc");
    assert!(m.is_trained());
}

#[test]
fn window_counts_of_a_trained_model() {
    let mut m = CharNgram::new();
    m.train("ab ab b");
    let expected: Vec<(u32, u32)> = vec![
        (2, 8), (2, 3), (2, 3), (2, 3),
        (3, 8), (2, 2), (2, 2), (2, 2),
        (3, 8), (3, 3), (2, 2), (2, 2),
    ];
    assert_eq!(m.window_counts("ab"), Some(expected.clone()));
    // Scoring normalizes the token first.
    assert_eq!(m.window_counts("Ab1"), Some(expected));
    assert_eq!(m.window_counts("123"), None);
    assert_eq!(m.alphabet(), 2);
}

#[test]
fn counts_accumulate_over_calls() {
    let mut once = CharNgram::new();
    once.train("ab ab b");
    let mut twice = CharNgram::new();
    twice.train("ab");
    twice.train("ab b");
    assert_eq!(once.window_counts("ab"), twice.window_counts("ab"));
    let mut reversed = CharNgram::new();
    reversed.train("ab b");
    reversed.train("ab");
    assert_eq!(once.window_counts("ab"), reversed.window_counts("ab"));
    assert_eq!(once.window_counts("b"), reversed.window_counts("b"));
}

#[test]
fn untrained_counts_are_zero() {
    let m = CharNgram::new();
    let counts = m.window_counts("xy").unwrap();
    assert_eq!(counts.len(), 3 * ORDER);
    assert!(counts.iter().all(|&(g, c)| g == 0 && c == 0));
    assert_eq!(m.alphabet(), 0);
}

#[test]
fn alphabet_counts_every_letter_seen() {
    let mut m = CharNgram::new();
    m.train("abc");
    assert_eq!(m.alphabet(), 3);
    m.train("de");
    assert_eq!(m.alphabet(), 5);
    m.train("Abcd, EF");
    assert_eq!(m.alphabet(), 6);
    assert_eq!(BOUNDARY, '\u{2}');
}

#[test]
fn alphabet_joins_letters_of_separate_calls() {
    let mut m = CharNgram::new();
    m.train("ab");
    m.train("cd");
    assert_eq!(m.alphabet(), 4);
    let mut other = CharNgram::new();
    other.train("cd");
    other.train("ab");
    assert_eq!(other.alphabet(), 4);
}

#[test]
fn try_train_trains_like_train() {
    let mut checked = CharNgram::new();
    assert!(checked.try_train("ab ab b"));
    let mut plain = CharNgram::new();
    plain.train("ab ab b");
    assert_eq!(checked.window_counts("ab"), plain.window_counts("ab"));
    assert_eq!(checked.window_counts("b"), plain.window_counts("b"));
    assert_eq!(checked.alphabet(), 2);
    assert!(checked.try_train("ba"));
    assert_eq!(checked.window_counts("ba").unwrap()[0], (4, 11));
}

#[test]
fn text_without_letters_changes_nothing() {
    let mut m = CharNgram::new();
    m.train("ab ab b");
    let before = m.window_counts("ab");
    m.train("123 -- !");
    assert!(m.try_train("42"));
    assert_eq!(m.window_counts("ab"), before);
    assert_eq!(m.alphabet(), 2);
    assert!(m.is_trained());
    let mut empty = CharNgram::new();
    assert!(empty.try_train("123 -- !"));
    assert!(!empty.is_trained());
    assert_eq!(empty.alphabet(), 0);
}

#[test]
fn no_gram_is_counted_more_than_its_context() {
    let mut m = CharNgram::new();
    m.train("the quick brown fox jumps over the lazy dog the the there then");
    for token in ["then", "qxzjv", "the", "dog", "e"] {
        let counts = m.window_counts(token).unwrap();
        assert!(counts.iter().all(|&(g, c)| g <= c));
    }
}

#[test]
fn default_model_is_untrained() {
    let m = CharNgram::default();
    assert!(!m.is_trained());
    assert_eq!(m.alphabet(), 0);
}

#[test]
fn training_on_tokens_counts_their_windows() {
    let mut by_text = CharNgram::new();
    by_text.train("Ab, b!");
    let mut by_words = CharNgram::new();
    by_words.train_words(&["ab".to_string(), "b".to_string()]);
    assert_eq!(by_text.window_counts("ab"), by_words.window_counts("ab"));
    assert_eq!(by_words.word_window_counts("b"), vec![
        (2, 5), (1, 2), (1, 2), (1, 2),
        (2, 5), (2, 2), (1, 1), (1, 1),
    ]);
    assert_eq!(by_words.alphabet(), 2);
}

#[test]
fn letter_runs_split_at_gaps() {
    let classes = [Some('a'), None, None, Some('b'), Some('c'), None];
    assert_eq!(letter_runs(&classes), vec!["a", "bc"]);
    assert_eq!(letter_runs(&[Some('x')]), vec!["x"]);
    assert_eq!(letter_runs(&[None, None]), Vec::<String>::new());
}
