use keyswitch::eval::extend_limited;
use keyswitch::collisions::{find_collisions, FreqTable, MIN_FREQ};
use keyswitch::eval::{extend_tokens, split, Counts, Decision};

fn strings(v: &[&str]) -> Vec<String> {
    v.iter().map(|s| s.to_string()).collect()
}

#[test]
fn counts_record_each_outcome() {
    let mut c = Counts::new();
    c.record(Decision::Switch, Decision::Switch);
    c.record(Decision::Keep, Decision::Switch);
    c.record(Decision::Switch, Decision::Keep);
    c.record(Decision::Keep, Decision::Keep);
    c.record(Decision::Keep, Decision::Keep);
    assert_eq!(c, Counts { tp: 1, fp: 1, fn_: 1, tn: 2 });
    assert_eq!(c.total(), 5);
}

#[test]
fn split_holds_out_every_fifth_type() {
    let tokens = strings(&["e", "b", "a", "e", "c", "j", "d", "a"]);
    let (train, test) = split(&tokens);
    assert_eq!(train, strings(&["b", "a", "c", "j", "d", "a"]));
    assert_eq!(test, strings(&["e"]));
}

#[test]
fn split_keeps_each_test_type_once() {
    let mut tokens = Vec::new();
    for w in ["k", "j", "i", "h", "g", "f", "e", "d", "c", "b", "a", "j", "e", "e"] {
        tokens.push(w.to_string());
    }
    let (train, test) = split(&tokens);
    assert_eq!(test, strings(&["j", "e"]));
    assert_eq!(train, strings(&["k", "i", "h", "g", "f", "d", "c", "b", "a"]));
    let (train, test) = split(&[]);
    assert!(train.is_empty() && test.is_empty());
}

#[test]
fn split_orders_types_by_code_point() {
    let tokens = strings(&["я", "b", "Z", "ё", "a", "а"]);
    // Sorted: Z a b а я ё; the fifth is "я".
    let (train, test) = split(&tokens);
    assert_eq!(test, strings(&["я"]));
    assert_eq!(train, strings(&["b", "Z", "ё", "a", "а"]));
}

#[test]
fn extend_tokens_stops_at_the_limit() {
    let mut out = Vec::new();
    assert!(!extend_tokens(&mut out, "one two", 3));
    assert_eq!(out, strings(&["one", "two"]));
    assert!(extend_tokens(&mut out, "three four", 3));
    assert_eq!(out, strings(&["one", "two", "three"]));
    assert!(extend_tokens(&mut out, "five", 3));
    assert!(!extend_tokens(&mut out, "7 8", 3));
    assert_eq!(out.len(), 3);
}

#[test]
fn frequency_tables_count_and_merge() {
    let mut a = FreqTable::new();
    a.add_text("Мир мир, дом");
    assert_eq!(a.get("мир"), Some(2));
    assert_eq!(a.get("дом"), Some(1));
    assert_eq!(a.get("кот"), None);
    assert_eq!(a.len(), 2);
    assert_eq!(a.entry(0), ("мир", 2));
    let mut b = FreqTable::new();
    b.add_text("дом кот");
    a.merge(&b);
    assert_eq!(a.get("дом"), Some(2));
    assert_eq!(a.get("кот"), Some(1));
    assert_eq!(a.len(), 3);
}

#[test]
fn collisions_are_found_and_ranked() {
    let mut ru = FreqTable::new();
    ru.add_text("руку руку руку ты ты ты ты ты мир мир мир я");
    let mut en = FreqTable::new();
    en.add_text("here here here ns ns ns ns z z z z vbh");
    let found = find_collisions(&ru, &en, 4);
    let pairs: Vec<(String, String, u32, u32)> = found
        .iter()
        .map(|c| (c.ru.clone(), c.en.clone(), c.ru_freq, c.en_freq))
        .collect();
    assert_eq!(
        pairs,
        vec![
            ("ты".to_string(), "ns".to_string(), 5, 4),
            ("руку".to_string(), "here".to_string(), 3, 3),
        ]
    );
    assert!(find_collisions(&ru, &en, 3).iter().all(|c| c.ru != "руку"));
    assert_eq!(MIN_FREQ, 3);
}

#[test]
fn extend_limited_takes_what_fits() {
    let mut out = strings(&["a"]);
    assert!(extend_limited(&mut out, strings(&["b", "c", "d"]), 3));
    assert_eq!(out, strings(&["a", "b", "c"]));
    let mut out = Vec::new();
    assert!(!extend_limited(&mut out, strings(&["x"]), 1));
    assert_eq!(out, strings(&["x"]));
}

#[test]
fn frequency_tables_count_tokens() {
    let mut t = FreqTable::new();
    t.add_tokens(&strings(&["b", "a", "b"]));
    assert_eq!(t.get("b"), Some(2));
    assert_eq!(t.entry(0), ("b", 2));
    assert_eq!(t.entry(1), ("a", 1));
}

#[test]
fn try_add_text_counts_like_add_text() {
    let mut checked = FreqTable::new();
    assert!(checked.try_add_text("Мир мир, дом"));
    assert!(checked.try_add_text("дом"));
    assert_eq!(checked.get("мир"), Some(2));
    assert_eq!(checked.get("дом"), Some(2));
    assert_eq!(checked.len(), 2);
    assert!(checked.try_add_text("123"));
    assert_eq!(checked.len(), 2);
}

#[test]
fn split_does_not_depend_on_token_order() {
    let tokens = strings(&["e", "b", "a", "e", "c", "j", "d", "a"]);
    let permuted = strings(&["a", "d", "j", "e", "c", "a", "b", "e"]);
    let (mut train, mut test) = split(&tokens);
    let (mut train_p, mut test_p) = split(&permuted);
    train.sort();
    train_p.sort();
    test.sort();
    test_p.sort();
    assert_eq!(train, train_p);
    assert_eq!(test, test_p);
    assert_eq!(test, strings(&["e"]));
}
