use keyswitch::context_corpus::render_marked;
use keyswitch::context_corpus::{render_context, RenderError};
use keyswitch::eval::{is_short, labelled_cases, switch_hypothesis, Decision};
use keyswitch::layout::{detect_direction, transliterate, Direction};
use keyswitch::text::has_at_most_chars;

#[test]
fn renders_sentences_headers_and_comments() {
    let source = "# service header\n# --- Family A ---\nСвет [луны] падал\n\n  Все [keys] лежат  \n";
    let r = match render_context(source) {
        Ok(r) => r,
        Err(_) => panic!("rendering failed"),
    };
    assert_eq!(r.text, "\n# --- Family A ---\nСвет {keys} падал\nВсе {луны} лежат\n");
    assert_eq!((r.sentences, r.switch_tokens, r.keep_tokens), (2, 2, 4));
}

#[test]
fn renders_crlf_and_missing_final_newline() {
    let r = match render_context("x\r\n[ghbdtn]   y\t[VUE]") {
        Ok(r) => r,
        Err(_) => panic!("rendering failed"),
    };
    assert_eq!(r.text, "x\n{привет} y {МГУ}\n");
    assert_eq!((r.sentences, r.switch_tokens, r.keep_tokens), (2, 2, 2));
    let empty = match render_context("") {
        Ok(r) => r,
        Err(_) => panic!("rendering failed"),
    };
    assert_eq!(empty.text, "");
    assert_eq!(empty.sentences, 0);
}

#[test]
fn lone_brackets_are_kept() {
    let r = match render_context("[ ] [x y]") {
        Ok(r) => r,
        Err(_) => panic!("rendering failed"),
    };
    assert_eq!(r.text, "[ ] [x y]\n");
    assert_eq!(r.keep_tokens, 4);
}

#[test]
fn mixed_token_has_no_direction() {
    match render_context("ok\na [миrror] b [test1]\n") {
        Err(RenderError::NoDirection { token, line }) => {
            assert_eq!(token, "миrror");
            assert_eq!(line, "a [миrror] b [test1]");
        }
        _ => panic!("expected a missing direction"),
    }
    match render_context("[]") {
        Err(RenderError::NoDirection { token, .. }) => assert_eq!(token, ""),
        _ => panic!("expected a missing direction"),
    }
}

#[test]
fn token_with_digits_is_not_mappable() {
    match render_context("a [test1] [миrror]") {
        Err(RenderError::NotMappable { token }) => assert_eq!(token, "test1"),
        _ => panic!("expected an unmappable token"),
    }
}

#[test]
fn rendered_tokens_round_trip() {
    let r = match render_context("[руку] [ns]") {
        Ok(r) => r,
        Err(_) => panic!("rendering failed"),
    };
    assert_eq!(r.text, "{here} {ты}\n");
    assert_eq!(transliterate("here", Direction::EnToRu).unwrap(), "руку");
    assert_eq!(transliterate("ты", Direction::RuToEn).unwrap(), "ns");
}

#[test]
fn labelled_cases_pair_tokens_with_their_retyping() {
    let tokens = vec!["привет".to_string(), "сто1".to_string()];
    let cases = labelled_cases(&tokens, Direction::RuToEn);
    assert_eq!(
        cases,
        vec![
            ("привет".to_string(), Decision::Keep),
            ("ghbdtn".to_string(), Decision::Switch),
            ("сто1".to_string(), Decision::Keep),
        ]
    );
}

#[test]
fn switch_hypotheses() {
    assert_eq!(
        switch_hypothesis("ghbdtn"),
        Some((Direction::EnToRu, "привет".to_string()))
    );
    assert_eq!(switch_hypothesis("руддщ"), Some((Direction::RuToEn, "hello".to_string())));
    assert_eq!(switch_hypothesis("test1"), None);
    assert_eq!(switch_hypothesis("миrror"), None);
    assert_eq!(switch_hypothesis("..."), None);
}

#[test]
fn retyped_latin_reads_as_cyrillic() {
    for token in ["ghbdtn", "VUE", "a/", "keys", "NP"] {
        let retyped = transliterate(token, Direction::EnToRu).unwrap();
        assert_eq!(detect_direction(token), Some(Direction::EnToRu));
        assert_eq!(detect_direction(&retyped), Some(Direction::RuToEn));
    }
}

#[test]
fn short_tokens() {
    assert!(is_short(""));
    assert!(is_short("при"));
    assert!(!is_short("прив"));
    assert!(has_at_most_chars("ёж", 2));
    assert!(!has_at_most_chars("ёжик", 3));
    assert!(has_at_most_chars("", 0));
}

#[test]
fn marked_rendering_follows_the_marks() {
    // A character marked as whitespace separates fields whatever it is.
    let source: Vec<(char, bool)> = "a_[ghbdtn]".chars().map(|c| (c, c == '_')).collect();
    let r = match render_marked(&source) {
        Ok(r) => r,
        Err(_) => panic!("rendering failed"),
    };
    assert_eq!(r.text, "a {привет}\n");
    assert_eq!((r.sentences, r.switch_tokens, r.keep_tokens), (1, 1, 1));
}
