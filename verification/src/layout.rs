//! Reversible mapping between the QWERTY and JCUKEN keyboard layouts.
//!
//! A token typed in one layout determines, key press by key press, what the same
//! presses produce in the other layout. The two tables below describe one mapping:
//! `lemma_mapping_reversible` proves that each is the inverse of the other.

use vstd::prelude::*;

use crate::text::push_char;

verus! {

/// What a key typed in QWERTY would have produced in JCUKEN.
pub open spec fn qwerty_to_jcuken(c: char) -> Option<char> {
    match c {
        // top letter row
        'q' => Some('й'),
        'w' => Some('ц'),
        'e' => Some('у'),
        'r' => Some('к'),
        't' => Some('е'),
        'y' => Some('н'),
        'u' => Some('г'),
        'i' => Some('ш'),
        'o' => Some('щ'),
        'p' => Some('з'),
        '[' => Some('х'),
        ']' => Some('ъ'),
        // home row
        'a' => Some('ф'),
        's' => Some('ы'),
        'd' => Some('в'),
        'f' => Some('а'),
        'g' => Some('п'),
        'h' => Some('р'),
        'j' => Some('о'),
        'k' => Some('л'),
        'l' => Some('д'),
        ';' => Some('ж'),
        '\'' => Some('э'),
        // bottom row
        'z' => Some('я'),
        'x' => Some('ч'),
        'c' => Some('с'),
        'v' => Some('м'),
        'b' => Some('и'),
        'n' => Some('т'),
        'm' => Some('ь'),
        ',' => Some('б'),
        '.' => Some('ю'),
        '/' => Some('.'),
        // number row
        '`' => Some('ё'),
        // shifted letters
        'Q' => Some('Й'),
        'W' => Some('Ц'),
        'E' => Some('У'),
        'R' => Some('К'),
        'T' => Some('Е'),
        'Y' => Some('Н'),
        'U' => Some('Г'),
        'I' => Some('Ш'),
        'O' => Some('Щ'),
        'P' => Some('З'),
        '{' => Some('Х'),
        '}' => Some('Ъ'),
        'A' => Some('Ф'),
        'S' => Some('Ы'),
        'D' => Some('В'),
        'F' => Some('А'),
        'G' => Some('П'),
        'H' => Some('Р'),
        'J' => Some('О'),
        'K' => Some('Л'),
        'L' => Some('Д'),
        ':' => Some('Ж'),
        '"' => Some('Э'),
        'Z' => Some('Я'),
        'X' => Some('Ч'),
        'C' => Some('С'),
        'V' => Some('М'),
        'B' => Some('И'),
        'N' => Some('Т'),
        'M' => Some('Ь'),
        '<' => Some('Б'),
        '>' => Some('Ю'),
        '?' => Some(','),
        '~' => Some('Ё'),
        // number-row symbols that differ between the layouts
        '@' => Some('"'),
        '#' => Some('№'),
        '$' => Some(';'),
        '^' => Some(':'),
        '&' => Some('?'),
        _ => None,
    }
}

/// What a key typed in JCUKEN would have produced in QWERTY.
pub open spec fn jcuken_to_qwerty(c: char) -> Option<char> {
    match c {
        // top letter row
        'й' => Some('q'),
        'ц' => Some('w'),
        'у' => Some('e'),
        'к' => Some('r'),
        'е' => Some('t'),
        'н' => Some('y'),
        'г' => Some('u'),
        'ш' => Some('i'),
        'щ' => Some('o'),
        'з' => Some('p'),
        'х' => Some('['),
        'ъ' => Some(']'),
        // home row
        'ф' => Some('a'),
        'ы' => Some('s'),
        'в' => Some('d'),
        'а' => Some('f'),
        'п' => Some('g'),
        'р' => Some('h'),
        'о' => Some('j'),
        'л' => Some('k'),
        'д' => Some('l'),
        'ж' => Some(';'),
        'э' => Some('\''),
        // bottom row
        'я' => Some('z'),
        'ч' => Some('x'),
        'с' => Some('c'),
        'м' => Some('v'),
        'и' => Some('b'),
        'т' => Some('n'),
        'ь' => Some('m'),
        'б' => Some(','),
        'ю' => Some('.'),
        '.' => Some('/'),
        // number row
        'ё' => Some('`'),
        // shifted letters
        'Й' => Some('Q'),
        'Ц' => Some('W'),
        'У' => Some('E'),
        'К' => Some('R'),
        'Е' => Some('T'),
        'Н' => Some('Y'),
        'Г' => Some('U'),
        'Ш' => Some('I'),
        'Щ' => Some('O'),
        'З' => Some('P'),
        'Х' => Some('{'),
        'Ъ' => Some('}'),
        'Ф' => Some('A'),
        'Ы' => Some('S'),
        'В' => Some('D'),
        'А' => Some('F'),
        'П' => Some('G'),
        'Р' => Some('H'),
        'О' => Some('J'),
        'Л' => Some('K'),
        'Д' => Some('L'),
        'Ж' => Some(':'),
        'Э' => Some('"'),
        'Я' => Some('Z'),
        'Ч' => Some('X'),
        'С' => Some('C'),
        'М' => Some('V'),
        'И' => Some('B'),
        'Т' => Some('N'),
        'Ь' => Some('M'),
        'Б' => Some('<'),
        'Ю' => Some('>'),
        ',' => Some('?'),
        'Ё' => Some('~'),
        // number-row symbols that differ between the layouts
        '"' => Some('@'),
        '№' => Some('#'),
        ';' => Some('$'),
        ':' => Some('^'),
        '?' => Some('&'),
        _ => None,
    }
}

/// The direction in which a token would be retyped.
#[derive(Debug, Clone, Copy, PartialEq, Eq, Structural)]
pub enum Direction {
    /// Typed in QWERTY, JCUKEN was meant.
    EnToRu,
    /// Typed in JCUKEN, QWERTY was meant.
    RuToEn,
}

impl Direction {
    /// The direction that undoes this one.
    pub open spec fn reversed(self) -> Direction {
        match self {
            Direction::EnToRu => Direction::RuToEn,
            Direction::RuToEn => Direction::EnToRu,
        }
    }
}

/// The key mapping used for one direction.
pub open spec fn map_key(c: char, dir: Direction) -> Option<char> {
    match dir {
        Direction::EnToRu => qwerty_to_jcuken(c),
        Direction::RuToEn => jcuken_to_qwerty(c),
    }
}

/// Every character of `s` has a counterpart in the other layout.
pub open spec fn maps_whole(s: Seq<char>, dir: Direction) -> bool {
    forall|i: int| 0 <= i < s.len() ==> (#[trigger] map_key(s[i], dir)) is Some
}

/// The same key presses read in the other layout, or `None` when some character
/// of the token has no counterpart there.
pub open spec fn transliteration(s: Seq<char>, dir: Direction) -> Option<Seq<char>> {
    if maps_whole(s, dir) {
        Some(s.map_values(|c: char| map_key(c, dir)->0))
    } else {
        None
    }
}

/// A letter of the Latin alphabet (what `char::is_ascii_alphabetic` accepts).
pub open spec fn is_latin_letter(c: char) -> bool {
    ('a' <= c && c <= 'z') || ('A' <= c && c <= 'Z')
}

/// A letter of the Russian alphabet.
pub open spec fn is_cyrillic_letter(c: char) -> bool {
    ('а' <= c && c <= 'я') || ('А' <= c && c <= 'Я') || c == 'ё' || c == 'Ё'
}

pub open spec fn has_latin(s: Seq<char>) -> bool {
    exists|i: int| 0 <= i < s.len() && #[trigger] is_latin_letter(s[i])
}

pub open spec fn has_cyrillic(s: Seq<char>) -> bool {
    exists|i: int| 0 <= i < s.len() && #[trigger] is_cyrillic_letter(s[i])
}

/// The layout a token was typed in, judged by its alphabet: Latin letters only means
/// QWERTY, Cyrillic letters only means JCUKEN; a mixed token, or one without letters,
/// gives no decision.
pub open spec fn detected_direction(s: Seq<char>) -> Option<Direction> {
    if has_latin(s) && !has_cyrillic(s) {
        Some(Direction::EnToRu)
    } else if has_cyrillic(s) && !has_latin(s) {
        Some(Direction::RuToEn)
    } else {
        None
    }
}

/// Character typed in QWERTY -> what it would have been in JCUKEN.
pub fn en_to_ru_char(c: char) -> (r: Option<char>)
    ensures
        r == qwerty_to_jcuken(c),
{
    match c {
        // top letter row
        'q' => Some('й'),
        'w' => Some('ц'),
        'e' => Some('у'),
        'r' => Some('к'),
        't' => Some('е'),
        'y' => Some('н'),
        'u' => Some('г'),
        'i' => Some('ш'),
        'o' => Some('щ'),
        'p' => Some('з'),
        '[' => Some('х'),
        ']' => Some('ъ'),
        // home row
        'a' => Some('ф'),
        's' => Some('ы'),
        'd' => Some('в'),
        'f' => Some('а'),
        'g' => Some('п'),
        'h' => Some('р'),
        'j' => Some('о'),
        'k' => Some('л'),
        'l' => Some('д'),
        ';' => Some('ж'),
        '\'' => Some('э'),
        // bottom row
        'z' => Some('я'),
        'x' => Some('ч'),
        'c' => Some('с'),
        'v' => Some('м'),
        'b' => Some('и'),
        'n' => Some('т'),
        'm' => Some('ь'),
        ',' => Some('б'),
        '.' => Some('ю'),
        '/' => Some('.'),
        // number row
        '`' => Some('ё'),
        // shifted letters
        'Q' => Some('Й'),
        'W' => Some('Ц'),
        'E' => Some('У'),
        'R' => Some('К'),
        'T' => Some('Е'),
        'Y' => Some('Н'),
        'U' => Some('Г'),
        'I' => Some('Ш'),
        'O' => Some('Щ'),
        'P' => Some('З'),
        '{' => Some('Х'),
        '}' => Some('Ъ'),
        'A' => Some('Ф'),
        'S' => Some('Ы'),
        'D' => Some('В'),
        'F' => Some('А'),
        'G' => Some('П'),
        'H' => Some('Р'),
        'J' => Some('О'),
        'K' => Some('Л'),
        'L' => Some('Д'),
        ':' => Some('Ж'),
        '"' => Some('Э'),
        'Z' => Some('Я'),
        'X' => Some('Ч'),
        'C' => Some('С'),
        'V' => Some('М'),
        'B' => Some('И'),
        'N' => Some('Т'),
        'M' => Some('Ь'),
        '<' => Some('Б'),
        '>' => Some('Ю'),
        '?' => Some(','),
        '~' => Some('Ё'),
        // number-row symbols that differ between the layouts
        '@' => Some('"'),
        '#' => Some('№'),
        '$' => Some(';'),
        '^' => Some(':'),
        '&' => Some('?'),
        _ => None,
    }
}

/// Character typed in JCUKEN -> what it would have been in QWERTY.
pub fn ru_to_en_char(c: char) -> (r: Option<char>)
    ensures
        r == jcuken_to_qwerty(c),
{
    match c {
        // top letter row
        'й' => Some('q'),
        'ц' => Some('w'),
        'у' => Some('e'),
        'к' => Some('r'),
        'е' => Some('t'),
        'н' => Some('y'),
        'г' => Some('u'),
        'ш' => Some('i'),
        'щ' => Some('o'),
        'з' => Some('p'),
        'х' => Some('['),
        'ъ' => Some(']'),
        // home row
        'ф' => Some('a'),
        'ы' => Some('s'),
        'в' => Some('d'),
        'а' => Some('f'),
        'п' => Some('g'),
        'р' => Some('h'),
        'о' => Some('j'),
        'л' => Some('k'),
        'д' => Some('l'),
        'ж' => Some(';'),
        'э' => Some('\''),
        // bottom row
        'я' => Some('z'),
        'ч' => Some('x'),
        'с' => Some('c'),
        'м' => Some('v'),
        'и' => Some('b'),
        'т' => Some('n'),
        'ь' => Some('m'),
        'б' => Some(','),
        'ю' => Some('.'),
        '.' => Some('/'),
        // number row
        'ё' => Some('`'),
        // shifted letters
        'Й' => Some('Q'),
        'Ц' => Some('W'),
        'У' => Some('E'),
        'К' => Some('R'),
        'Е' => Some('T'),
        'Н' => Some('Y'),
        'Г' => Some('U'),
        'Ш' => Some('I'),
        'Щ' => Some('O'),
        'З' => Some('P'),
        'Х' => Some('{'),
        'Ъ' => Some('}'),
        'Ф' => Some('A'),
        'Ы' => Some('S'),
        'В' => Some('D'),
        'А' => Some('F'),
        'П' => Some('G'),
        'Р' => Some('H'),
        'О' => Some('J'),
        'Л' => Some('K'),
        'Д' => Some('L'),
        'Ж' => Some(':'),
        'Э' => Some('"'),
        'Я' => Some('Z'),
        'Ч' => Some('X'),
        'С' => Some('C'),
        'М' => Some('V'),
        'И' => Some('B'),
        'Т' => Some('N'),
        'Ь' => Some('M'),
        'Б' => Some('<'),
        'Ю' => Some('>'),
        ',' => Some('?'),
        'Ё' => Some('~'),
        // number-row symbols that differ between the layouts
        '"' => Some('@'),
        '№' => Some('#'),
        ';' => Some('$'),
        ':' => Some('^'),
        '?' => Some('&'),
        _ => None,
    }
}

fn map_key_exec(c: char, dir: Direction) -> (r: Option<char>)
    ensures
        r == map_key(c, dir),
{
    match dir {
        Direction::EnToRu => en_to_ru_char(c),
        Direction::RuToEn => ru_to_en_char(c),
    }
}

/// The alternative hypothesis for a token: the same key presses in the other layout.
///
/// Returns `None` when the token does not map as a whole, e.g. because it holds
/// digits or characters that both layouts share.
pub fn transliterate(token: &str, dir: Direction) -> (res: Option<String>)
    ensures
        res is Some <==> transliteration(token@, dir) is Some,
        res matches Some(s) ==> transliteration(token@, dir) == Some(s@),
{
    let mut out = String::new();
    for c in it: token.chars()
        invariant
            it.seq() == token@,
            out@.len() == it.index(),
            forall|j: int| 0 <= j < it.index() ==> (#[trigger] map_key(token@[j], dir)) is Some,
            forall|j: int|
                0 <= j < it.index() ==> out@[j] == (#[trigger] map_key(token@[j], dir))->0,
    {
        match map_key_exec(c, dir) {
            Some(m) => push_char(&mut out, m),
            None => {
                return None;
            },
        }
    }
    assert(out@ =~= token@.map_values(|c: char| map_key(c, dir)->0));
    Some(out)
}

/// A Cyrillic letter of the Russian alphabet, either case, `ё` included.
pub fn is_cyrillic(c: char) -> (r: bool)
    ensures
        r == is_cyrillic_letter(c),
{
    ('а' <= c && c <= 'я') || ('А' <= c && c <= 'Я') || c == 'ё' || c == 'Ё'
}

fn is_latin(c: char) -> (r: bool)
    ensures
        r == is_latin_letter(c),
{
    ('a' <= c && c <= 'z') || ('A' <= c && c <= 'Z')
}

/// Decides which layout a token was typed in, by the alphabet it holds.
///
/// `None`: the token is mixed, empty or holds no letters, and no decision is made.
pub fn detect_direction(token: &str) -> (res: Option<Direction>)
    ensures
        res == detected_direction(token@),
{
    let mut latin = false;
    let mut cyrillic = false;
    for c in it: token.chars()
        invariant
            it.seq() == token@,
            latin <==> exists|j: int| 0 <= j < it.index() && #[trigger] is_latin_letter(token@[j]),
            cyrillic <==> exists|j: int|
                0 <= j < it.index() && #[trigger] is_cyrillic_letter(token@[j]),
    {
        if is_latin(c) {
            latin = true;
        } else if is_cyrillic(c) {
            cyrillic = true;
        }
    }
    if latin && !cyrillic {
        Some(Direction::EnToRu)
    } else if cyrillic && !latin {
        Some(Direction::RuToEn)
    } else {
        None
    }
}

/// The two tables describe one mapping: a key maps from QWERTY to JCUKEN exactly when
/// the JCUKEN character maps back to the same QWERTY key.
pub proof fn lemma_mapping_reversible(en: char, ru: char)
    ensures
        qwerty_to_jcuken(en) == Some(ru) <==> jcuken_to_qwerty(ru) == Some(en),
{
}

/// Retyping a key and retyping the result the other way gives the key back.
pub proof fn lemma_map_key_reversible(c: char, dir: Direction)
    ensures
        map_key(c, dir) matches Some(m) ==> map_key(m, dir.reversed()) == Some(c),
{
    if let Some(m) = map_key(c, dir) {
        lemma_mapping_reversible(c, m);
        lemma_mapping_reversible(m, c);
    }
}

/// A token that maps as a whole, mapped and then mapped back in the opposite
/// direction, is the token itself.
pub proof fn lemma_transliteration_round_trip(s: Seq<char>, dir: Direction)
    ensures
        transliteration(s, dir) matches Some(t) ==> transliteration(t, dir.reversed()) == Some(s),
{
    if let Some(t) = transliteration(s, dir) {
        assert forall|i: int| 0 <= i < t.len() implies (#[trigger] map_key(t[i], dir.reversed())) is Some
            && map_key(t[i], dir.reversed())->0 == s[i] by {
            assert(map_key(s[i], dir) is Some);
            lemma_map_key_reversible(s[i], dir);
        }
        assert(t.map_values(|c: char| map_key(c, dir.reversed())->0) =~= s);
    }
}

/// Digits have no counterpart in either layout, so a token that holds one is not
/// retyped.
pub proof fn lemma_digits_not_mapped(s: Seq<char>, i: int, dir: Direction)
    requires
        0 <= i < s.len(),
        '0' <= s[i] <= '9',
    ensures
        transliteration(s, dir) is None,
{
    assert(map_key(s[i], dir) is None);
}

/// No key reads as itself in the other layout: a character that maps at all maps
/// to a different one.
pub proof fn lemma_no_key_maps_to_itself(c: char, dir: Direction)
    ensures
        map_key(c, dir) matches Some(m) ==> m != c,
{
}

/// A retyped token differs from the token at every position.
pub proof fn lemma_retyping_changes_every_character(s: Seq<char>, dir: Direction)
    ensures
        transliteration(s, dir) matches Some(t) ==> t.len() == s.len() && forall|i: int|
            0 <= i < s.len() ==> #[trigger] t[i] != s[i],
{
    if let Some(t) = transliteration(s, dir) {
        assert forall|i: int| 0 <= i < s.len() implies #[trigger] t[i] != s[i] by {
            assert(map_key(s[i], dir) is Some);
            lemma_no_key_maps_to_itself(s[i], dir);
        }
    }
}

/// A character that both layouts put on the same key.
pub open spec fn shared_character(c: char) -> bool {
    ||| '0' <= c <= '9'
    ||| c == ' '
    ||| c == '-'
    ||| c == '='
    ||| c == '_'
    ||| c == '+'
    ||| c == '!'
    ||| c == '*'
    ||| c == '('
    ||| c == ')'
    ||| c == '%'
    ||| c == '\\'
}

/// A token that holds a character common to both layouts is not retyped, in either
/// direction.
pub proof fn lemma_shared_characters_not_mapped(s: Seq<char>, i: int, dir: Direction)
    requires
        0 <= i < s.len(),
        shared_character(s[i]),
    ensures
        map_key(s[i], dir) is None,
        transliteration(s, dir) is None,
{
}

/// Every JCUKEN character that a QWERTY key produces lies outside the Latin
/// alphabet, and every Latin letter produces a Cyrillic letter.
proof fn lemma_qwerty_images(c: char)
    ensures
        qwerty_to_jcuken(c) matches Some(r) ==> !is_latin_letter(r),
        is_latin_letter(c) ==> (qwerty_to_jcuken(c) matches Some(r) && is_cyrillic_letter(r)),
{
}

/// A Latin token retyped in JCUKEN reads as a Cyrillic token: the retyping of a
/// token detected as QWERTY is detected as JCUKEN.
pub proof fn lemma_retyped_latin_reads_cyrillic(t: Seq<char>)
    requires
        detected_direction(t) == Some(Direction::EnToRu),
        transliteration(t, Direction::EnToRu) is Some,
    ensures
        detected_direction(transliteration(t, Direction::EnToRu)->0) == Some(Direction::RuToEn),
{
    let m = transliteration(t, Direction::EnToRu)->0;
    let i = choose|i: int| 0 <= i < t.len() && #[trigger] is_latin_letter(t[i]);
    lemma_qwerty_images(t[i]);
    assert(map_key(t[i], Direction::EnToRu) is Some);
    assert(is_cyrillic_letter(m[i]));
    assert forall|j: int| 0 <= j < m.len() implies !#[trigger] is_latin_letter(m[j]) by {
        assert(map_key(t[j], Direction::EnToRu) is Some);
        lemma_qwerty_images(t[j]);
    }
}

} // verus!
