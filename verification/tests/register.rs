use keyswitch::register::{RegisterModel, MIN_CONTEXT_FREQ};

fn words(s: &str) -> Vec<String> {
    s.split_whitespace().map(str::to_string).collect()
}

#[test]
fn counts_and_vocabularies() {
    let model = RegisterModel::new(
        &words("переменная окружения конфиг сборка модуль конфиг сборка модуль"),
        &words("вода свет рука вечер вода свет рука вечер"),
    );
    assert_eq!(model.vocab_sizes(), (5, 4));
    assert_eq!(model.totals(), (8, 8));
    assert_eq!(model.word_evidence("конфиг"), Some((2, 0)));
    assert_eq!(model.word_evidence("вода"), Some((0, 2)));
    assert_eq!(model.word_evidence("переменная"), None);
    assert_eq!(model.word_evidence("абракадабра"), None);
}

#[test]
fn unknown_context_has_no_evidence() {
    let model = RegisterModel::new(&words("сборка сборка"), &words("вода вода"));
    assert!(model.informative_words(&words("абракадабра")).is_empty());
    assert_eq!(model.coverage(&words("абракадабра")), (0, 1));
}

#[test]
fn coverage_counts_the_informative_words() {
    let model = RegisterModel::new(&words("сборка сборка лог"), &words("вода вода лог"));
    let context = words("сборка лог вода кот лог");
    assert_eq!(model.coverage(&context), (4, 5));
    assert_eq!(
        model.informative_words(&context),
        vec![(2, 0), (1, 1), (0, 2), (1, 1)]
    );
    assert_eq!(MIN_CONTEXT_FREQ, 2);
}

#[test]
fn empty_corpora_have_unit_totals() {
    let model = RegisterModel::new(&[], &[]);
    assert_eq!(model.totals(), (1, 1));
    assert_eq!(model.vocab_sizes(), (0, 0));
    assert_eq!(model.coverage(&[]), (0, 0));
}

#[test]
fn try_new_builds_the_same_model() {
    let tech = words("сборка сборка лог");
    let common = words("вода вода лог");
    let model = RegisterModel::try_new(&tech, &common).unwrap();
    let plain = RegisterModel::new(&tech, &common);
    let context = words("сборка лог вода кот лог");
    assert_eq!(model.coverage(&context), plain.coverage(&context));
    assert_eq!(model.informative_words(&context), plain.informative_words(&context));
    assert_eq!(model.totals(), (3, 3));
    assert_eq!(model.vocab_sizes(), (2, 2));
    assert!(RegisterModel::try_new(&[], &[]).is_some());
}
