use keyswitch::layout::{
    detect_direction, en_to_ru_char, is_cyrillic, ru_to_en_char, transliterate, Direction,
};

/// Key pairs: the QWERTY key and the JCUKEN character of the same physical press.
const PAIRS: &[(char, char)] = &[
    // top row
    ('q', 'й'), ('w', 'ц'), ('e', 'у'), ('r', 'к'), ('t', 'е'), ('y', 'н'),
    ('u', 'г'), ('i', 'ш'), ('o', 'щ'), ('p', 'з'), ('[', 'х'), (']', 'ъ'),
    // home row
    ('a', 'ф'), ('s', 'ы'), ('d', 'в'), ('f', 'а'), ('g', 'п'), ('h', 'р'),
    ('j', 'о'), ('k', 'л'), ('l', 'д'), (';', 'ж'), ('\'', 'э'),
    // bottom row
    ('z', 'я'), ('x', 'ч'), ('c', 'с'), ('v', 'м'), ('b', 'и'), ('n', 'т'),
    ('m', 'ь'), (',', 'б'), ('.', 'ю'), ('/', '.'),
    // number row
    ('`', 'ё'),
    // shifted
    ('Q', 'Й'), ('W', 'Ц'), ('E', 'У'), ('R', 'К'), ('T', 'Е'), ('Y', 'Н'),
    ('U', 'Г'), ('I', 'Ш'), ('O', 'Щ'), ('P', 'З'), ('{', 'Х'), ('}', 'Ъ'),
    ('A', 'Ф'), ('S', 'Ы'), ('D', 'В'), ('F', 'А'), ('G', 'П'), ('H', 'Р'),
    ('J', 'О'), ('K', 'Л'), ('L', 'Д'), (':', 'Ж'), ('"', 'Э'),
    ('Z', 'Я'), ('X', 'Ч'), ('C', 'С'), ('V', 'М'), ('B', 'И'), ('N', 'Т'),
    ('M', 'Ь'), ('<', 'Б'), ('>', 'Ю'), ('?', ','),
    ('~', 'Ё'),
    // number-row symbols that differ
    ('@', '"'), ('#', '№'), ('$', ';'), ('^', ':'), ('&', '?'),
];

#[test]
fn classic_cases() {
    assert_eq!(transliterate("ghbdtn", Direction::EnToRu).unwrap(), "привет");
    assert_eq!(transliterate("руддщ", Direction::RuToEn).unwrap(), "hello");
}

#[test]
fn mapping_is_reversible() {
    for (en, ru) in PAIRS {
        assert_eq!(ru_to_en_char(*ru), Some(*en), "ru->en broken for {ru}");
        assert_eq!(en_to_ru_char(*en), Some(*ru), "en->ru broken for {en}");
    }
}

#[test]
fn round_trip() {
    let token = "ghbdtn";
    let ru = transliterate(token, Direction::EnToRu).unwrap();
    assert_eq!(transliterate(&ru, Direction::RuToEn).unwrap(), token);
}

/// Pairs where both readings make sense: the Latin token occurs in technical text
/// and its Cyrillic twin is a real Russian word. Without context no decision is
/// possible on exactly these.
#[test]
fn ambiguous_pairs_are_what_we_claim() {
    let pairs = [
        ("vs", "мы"),
        ("ns", "ты"),
        ("he", "ру"),
        ("ds", "вы"),
        ("z", "я"),
        ("b", "и"),
        ("d", "в"),
        ("c", "с"),
        // Case decides: the same presses.
        ("VUE", "МГУ"),
        ("here", "руку"),
        ("keys", "луны"),
        ("of", "ща"),
        ("in", "шт"),
        ("us", "гы"),
        ("exe", "учу"),
        ("ids", "швы"),
        ("by", "ин"),
        ("cd", "св"),
        ("db", "ви"),
        // The whole string coincides, case included.
        ("NP", "ТЗ"),
    ];
    for (en, ru) in pairs {
        assert_eq!(
            transliterate(en, Direction::EnToRu).as_deref(),
            Some(ru),
            "pair {en} / {ru} is claimed wrongly"
        );
    }
}

#[test]
fn digits_are_not_mapped() {
    assert_eq!(transliterate("test1", Direction::EnToRu), None);
}

#[test]
fn direction_detection() {
    assert_eq!(detect_direction("hello"), Some(Direction::EnToRu));
    assert_eq!(detect_direction("привет"), Some(Direction::RuToEn));
    assert_eq!(detect_direction("при"), Some(Direction::RuToEn));
    assert_eq!(detect_direction("123"), None);
    assert_eq!(detect_direction("миrror"), None);
}

#[test]
fn every_pair_round_trips_through_transliterate() {
    for (en, ru) in PAIRS {
        let typed: String = [*en].iter().collect();
        let mapped = transliterate(&typed, Direction::EnToRu).unwrap();
        assert_eq!(mapped.chars().collect::<Vec<_>>(), vec![*ru]);
        assert_eq!(transliterate(&mapped, Direction::RuToEn).unwrap(), typed);
    }
}

#[test]
fn round_trip_from_cyrillic() {
    let ru = "Съешь же ещё этих мягких французских булок";
    let words: Vec<&str> = ru.split(' ').collect();
    for w in words {
        let en = transliterate(w, Direction::RuToEn).unwrap();
        assert_eq!(transliterate(&en, Direction::EnToRu).unwrap(), w);
    }
}

#[test]
fn unmapped_characters() {
    assert_eq!(en_to_ru_char('1'), None);
    assert_eq!(ru_to_en_char('q'), None);
    assert_eq!(en_to_ru_char('й'), None);
    assert_eq!(transliterate("a b", Direction::EnToRu), None);
    assert_eq!(transliterate("", Direction::EnToRu).as_deref(), Some(""));
    assert_eq!(transliterate("№", Direction::RuToEn).as_deref(), Some("#"));
    assert_eq!(transliterate("/.", Direction::EnToRu).as_deref(), Some(".ю"));
}

#[test]
fn cyrillic_letters() {
    assert!(is_cyrillic('а'));
    assert!(is_cyrillic('Я'));
    assert!(is_cyrillic('ё'));
    assert!(is_cyrillic('Ё'));
    assert!(!is_cyrillic('a'));
    assert!(!is_cyrillic('і'));
    assert!(!is_cyrillic('№'));
}

#[test]
fn direction_of_edge_tokens() {
    assert_eq!(detect_direction(""), None);
    assert_eq!(detect_direction("Ёж"), Some(Direction::RuToEn));
    assert_eq!(detect_direction("git-push2"), Some(Direction::EnToRu));
    assert_eq!(detect_direction("ёlka"), None);
}
