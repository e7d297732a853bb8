//! Tokens and the values that take their place.

use envoy_render::error::RenderError;
use envoy_render::tokens::substitute;

fn vars(name: &str) -> Option<String> {
    match name {
        "GM" => Some("plain".to_owned()),
        "GM_" | "GM_A_" => Some("odd".to_owned()),
        "GM_1" => Some("digit".to_owned()),
        "GM_A" => Some("one".to_owned()),
        "GM_B_2" => Some("two".to_owned()),
        "GM_TOKEN" => Some("__GM_A__".to_owned()),
        "GM_HALF" => Some("__GM_".to_owned()),
        "GM_EMPTY" => Some(String::new()),
        _ => None,
    }
}

fn expanded(text: &str) -> String {
    substitute(text, &vars, "file").expect("every variable is set")
}

#[test]
fn tokens_are_replaced_from_left_to_right() {
    assert_eq!(expanded("<__GM_A__|__GM_B_2__>"), "<one|two>");
    assert_eq!(expanded("__GM_A____GM_A__"), "oneone");
    assert_eq!(expanded("a__GM_EMPTY__b"), "ab");
}

#[test]
fn values_are_not_expanded_again() {
    assert_eq!(expanded("__GM_TOKEN__"), "__GM_A__");
    assert_eq!(expanded("__GM_HALF__A__"), "__GM_A__");
}

#[test]
fn text_without_tokens_stays() {
    for text in ["", "_", "__", "__GM", "__GM_", "__GM_A", "__GM_A_", "GM_A__", "__gm_A__", "__GMA__"] {
        assert_eq!(expanded(text), text);
    }
}

#[test]
fn name_with_another_character_is_no_token() {
    assert_eq!(expanded("__GM_a__"), "__GM_a__");
    assert_eq!(expanded("__GM_A-B__"), "__GM_A-B__");
    assert_eq!(expanded("__GM_\u{c9}__"), "__GM_\u{c9}__");
}

#[test]
fn token_can_start_where_another_fails() {
    assert_eq!(expanded("__GM_x__GM_A__"), "__GM_xone");
    assert_eq!(expanded("___GM_A__"), "_one");
    assert_eq!(expanded("__GM_ __GM_A__"), "__GM_ one");
}

#[test]
fn token_needs_a_name_behind_gm() {
    for text in ["__GM__", "__GM___", "__GM____", "__GM___A__", "__GM_____"] {
        assert_eq!(expanded(text), text);
    }
    assert_eq!(expanded("__GM____GM_A__"), "__GM__one");
    assert_eq!(expanded("__GM_A___"), "one_");
    assert_eq!(expanded("__GM_1__"), "digit");
}

#[test]
fn text_that_is_not_ascii_is_kept() {
    assert_eq!(expanded("\u{e9}__GM_A__\u{1f600}"), "\u{e9}one\u{1f600}");
}

#[test]
fn first_variable_without_a_value_is_named() {
    let err = substitute("__GM_A__ __GM_X__ __GM_Y__", &vars, "dir/file").expect_err("GM_X");
    assert!(matches!(
        &err,
        RenderError::Unset { path, name } if path == "dir/file" && name == "GM_X"
    ));
    assert_eq!(
        err.message(),
        "dir/file uses __GM_X__ but GM_X is not set"
    );
}

#[test]
fn only_the_names_in_the_text_are_asked_for() {
    let picky = |name: &str| -> Option<String> {
        assert_eq!(name, "GM_A");
        Some("v".to_owned())
    };
    assert_eq!(
        substitute("__GM_A__ __GM_b__ GM_C", &picky, "f").expect("set"),
        "v __GM_b__ GM_C"
    );
}

#[test]
fn error_names_a_token_of_the_text_whatever_is_answered() {
    let turn = std::cell::Cell::new(false);
    let fickle = |_: &str| {
        turn.set(!turn.get());
        if turn.get() {
            Some("v".to_owned())
        } else {
            None
        }
    };
    let err = substitute("__GM_A__ __GM_A__", &fickle, "f").expect_err("the second time");
    assert!(matches!(&err, RenderError::Unset { name, .. } if name == "GM_A"));
}

#[test]
fn lookups_are_made_token_by_token() {
    let asked = std::cell::RefCell::new(Vec::new());
    let env = |name: &str| {
        asked.borrow_mut().push(name.to_owned());
        match name {
            "GM_A" => Some("1".to_owned()),
            "GM_B" => Some("2".to_owned()),
            _ => None,
        }
    };
    assert_eq!(
        substitute("__GM_B__-__GM_A__-__GM_B__", &env, "base.yaml").expect("set"),
        "2-1-2"
    );
    assert_eq!(asked.take(), ["GM_B", "GM_A", "GM_B"]);
    assert_eq!(
        substitute("__GM_x__GM_A__GM_B__", &env, "base.yaml").expect("set"),
        "__GM_x1GM_B__"
    );
    assert_eq!(asked.take(), ["GM_A"]);
}

#[test]
fn changing_answers_are_used_one_by_one() {
    let count = std::cell::Cell::new(0);
    let env = |_: &str| {
        count.set(count.get() + 1);
        Some(count.get().to_string())
    };
    assert_eq!(
        substitute("__GM_A__ __GM_A__ __GM_B__", &env, "f").expect("set"),
        "1 2 3"
    );
}
