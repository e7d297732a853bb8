//! Lua strings and the slot table.

use envoy_render::lua::{lua_string, slot_config_lua};
use envoy_render::upstream::{Slots, Upstream, UpstreamFile};

fn none(_: &str) -> Option<String> {
    None
}

fn upstream(provider: &str, slots: Option<Slots>) -> Upstream {
    Upstream {
        provider: provider.to_owned(),
        file: UpstreamFile {
            slots,
            routes: Vec::new(),
            clusters: Vec::new(),
        },
    }
}

fn slots(direct_env: &str) -> Slots {
    Slots {
        direct_env: direct_env.to_owned(),
        cloud: false,
        disabled: false,
        auth_header: None,
        auth_prefix: String::new(),
    }
}

#[test]
fn plain_text_is_only_quoted() {
    assert_eq!(lua_string(""), "\"\"");
    assert_eq!(lua_string("abc \u{e9}"), "\"abc \u{e9}\"");
}

#[test]
fn quotes_and_backslashes_are_escaped() {
    assert_eq!(lua_string("a\"b\\c"), "\"a\\\"b\\\\c\"");
}

#[test]
fn control_characters_become_three_digits() {
    assert_eq!(lua_string("\0\n\r\t"), "\"\\000\\010\\013\\009\"");
    assert_eq!(lua_string("\u{1f}\u{7f}"), "\"\\031\\127\"");
    assert_eq!(lua_string("\n1"), "\"\\0101\"");
    assert_eq!(lua_string("\u{80} ~"), "\"\u{80} ~\"");
}

#[test]
fn lua_reads_a_quoted_string_back() {
    let lua = mlua::Lua::new();
    for text in ["", "a\"b\\c", "\0\n\r\t\u{7f}", "1\n2\u{1}3", "\u{e9}\u{1f600}", "\\n"] {
        let read: String = lua
            .load(format!("return {}", lua_string(text)))
            .eval()
            .expect("a Lua string");
        assert_eq!(read, text);
    }
}

#[test]
fn different_texts_are_quoted_differently() {
    assert_ne!(lua_string("\n"), lua_string("\\010"));
    assert_ne!(lua_string("\""), lua_string("\\\""));
}

#[test]
fn empty_slot_config() {
    assert_eq!(slot_config_lua(&Vec::new(), &none), "{}");
    assert_eq!(slot_config_lua(&vec![upstream("a", None)], &none), "{}");
}

#[test]
fn slot_config_of_a_direct_upstream() {
    let mut s = slots("ACME_KEY");
    s.auth_header = Some("authorization".to_owned());
    s.auth_prefix = "Bearer ".to_owned();
    let ids = |name: &str| {
        if name == "GM_ACME_SLOT_IDS" {
            Some(";A;;B;".to_owned())
        } else {
            None
        }
    };
    assert_eq!(
        slot_config_lua(&vec![upstream("acme", Some(s))], &ids),
        "{[\"acme\"] = {cloud = false, disabled = false, direct_env = \"ACME_KEY\", \
         default_env = \"GM_ACME_KEY_SLOT_1\", \
         slots = {[\"A\"] = \"GM_ACME_KEY_SLOT_1\", [\"B\"] = \"GM_ACME_KEY_SLOT_2\"}, \
         auth_header = \"authorization\", auth_prefix = \"Bearer \"}, }"
    );
}

#[test]
fn slot_config_of_a_disabled_upstream_without_ids() {
    let mut s = slots("K\n");
    s.disabled = true;
    let list = vec![upstream("x", None), upstream("b-2", Some(s))];
    assert_eq!(
        slot_config_lua(&list, &none),
        "{[\"b-2\"] = {cloud = false, disabled = true, direct_env = \"K\\010\", \
         default_env = nil, slots = {}, auth_header = nil, auth_prefix = \"\"}, }"
    );
}

#[test]
fn slot_config_stays_on_one_line() {
    let mut s = slots("a\nb");
    s.cloud = true;
    s.auth_prefix = "\r\n".to_owned();
    let ids = |_: &str| Some("x\ny;\n".to_owned());
    let text = slot_config_lua(&vec![upstream("p\nq", Some(s))], &ids);
    assert!(!text.contains('\n') && !text.contains('\r'));
}

#[test]
fn tenth_slot_has_two_digits() {
    let mut s = slots("K");
    s.cloud = true;
    let ids = |_: &str| Some("a;b;c;d;e;f;g;h;i;j".to_owned());
    let text = slot_config_lua(&vec![upstream("p", Some(s))], &ids);
    assert!(text.contains("[\"j\"] = \"GM_P_KEY_SLOT_10\"}"));
}

#[test]
fn only_upstreams_with_slots_are_asked_for() {
    let never = |name: &str| -> Option<String> { panic!("asked for {name}") };
    assert_eq!(slot_config_lua(&vec![upstream("bench", None)], &never), "{}");
    let asked = std::cell::RefCell::new(Vec::new());
    let env = |name: &str| {
        asked.borrow_mut().push(name.to_owned());
        None
    };
    let mut s = slots("K");
    s.cloud = true;
    slot_config_lua(&vec![upstream("a", None), upstream("b", Some(s))], &env);
    assert_eq!(asked.take(), ["GM_B_SLOT_IDS"]);
}
