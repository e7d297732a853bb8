//! Selections, and which upstream files they load.

use envoy_render::error::RenderError;
use envoy_render::files::TemplateFile;
use envoy_render::load::{check_upstream, load_upstreams};
use envoy_render::selection::check_selections;
use envoy_render::upstream::{Slots, UpstreamFile};

fn texts(list: &[&str]) -> Vec<String> {
    list.iter().map(|s| (*s).to_owned()).collect()
}

fn pairs(list: &[(&str, &str)]) -> Vec<(String, String)> {
    list.iter()
        .map(|(a, b)| ((*a).to_owned(), (*b).to_owned()))
        .collect()
}

#[test]
fn complete_selections_pass() {
    assert!(check_selections(&pairs(&[]), &texts(&[]), &texts(&[])).is_ok());
    assert!(check_selections(
        &pairs(&[("b", "x"), ("a", "y")]),
        &texts(&["a", "b", "a"]),
        &texts(&["b", "a"])
    )
    .is_ok());
}

#[test]
fn first_selection_without_a_file_is_named() {
    let err = check_selections(
        &pairs(&[("c", "1"), ("b", "2"), ("a", "3"), ("b", "4")]),
        &texts(&["d"]),
        &texts(&["a"]),
    )
    .expect_err("b and c");
    assert!(matches!(
        &err,
        RenderError::NoSuchVariant { provider, variant } if provider == "b" && variant == "4"
    ));
}

#[test]
fn first_provider_without_a_selection_is_named() {
    let err = check_selections(
        &pairs(&[("a", "1")]),
        &texts(&["d", "a", "c", "d"]),
        &texts(&["a"]),
    )
    .expect_err("c and d");
    assert!(matches!(&err, RenderError::NotSelected { provider } if provider == "c"));
}

#[test]
fn providers_are_ordered_by_their_bytes() {
    let err = check_selections(
        &pairs(&[]),
        &texts(&["\u{e9}", "b", "B", "Ba"]),
        &texts(&[]),
    )
    .expect_err("B");
    assert!(matches!(&err, RenderError::NotSelected { provider } if provider == "B"));
}

fn file(name: &str) -> TemplateFile {
    TemplateFile {
        name: name.as_bytes().to_vec(),
        path: name.to_owned(),
        text: Ok(name.to_owned()),
    }
}

fn no_vars(_: &str) -> Option<String> {
    None
}

fn empty() -> UpstreamFile {
    UpstreamFile {
        slots: None,
        routes: Vec::new(),
        clusters: Vec::new(),
    }
}

fn accept(_: &str) -> Result<UpstreamFile, String> {
    Ok(empty())
}

fn providers(names: &[&str], selections: &[(&str, &str)]) -> Result<Vec<String>, RenderError> {
    let files: Vec<TemplateFile> = names.iter().map(|name| file(name)).collect();
    let loaded = load_upstreams(&files, &pairs(selections), &no_vars, &accept)?;
    Ok(loaded.into_iter().map(|upstream| upstream.provider).collect())
}

#[test]
fn upstreams_are_loaded_in_order() {
    assert_eq!(
        providers(
            &["z.yaml", "b.two.yaml", "notes.txt", "a.yaml", "b.one.yaml"],
            &[("b", "two")]
        )
        .expect("loaded"),
        ["a", "b", "z"]
    );
}

#[test]
fn empty_variant_and_provider_names_are_names() {
    assert_eq!(
        providers(&["a..yaml", ".b.yaml"], &[("a", ""), ("", "b")]).expect("loaded"),
        ["", "a"]
    );
}

#[test]
fn one_provider_has_one_file() {
    let err = providers(&["a.x.yaml", "a.yaml"], &[("a", "x")]).expect_err("two files");
    assert!(matches!(&err, RenderError::SeveralFiles { provider } if provider == "a"));
}

#[test]
fn plain_file_beside_a_variant_is_refused_for_every_selection() {
    let names = ["a.x.yaml", "a.yaml"];
    assert!(providers(&names, &[]).is_err());
    assert!(providers(&names, &[("a", "x")]).is_err());
    assert!(providers(&names, &[("a", "y")]).is_err());
    assert!(providers(&names, &[("b", "x")]).is_err());
}

#[test]
fn selection_of_a_plain_provider_is_not_met() {
    let err = providers(&["a.yaml"], &[("a", "x")]).expect_err("no variant");
    assert!(matches!(&err, RenderError::NoSuchVariant { .. }));
}

#[test]
fn only_wanted_files_are_parsed() {
    let files = vec![file("a.x.yaml"), file("a.y.yaml"), file("b.yaml")];
    let parse = |text: &str| -> Result<UpstreamFile, String> {
        assert_ne!(text, "a.x.yaml");
        Ok(empty())
    };
    assert_eq!(
        load_upstreams(&files, &pairs(&[("a", "y")]), &no_vars, &parse)
            .expect("loaded")
            .len(),
        2
    );
}

#[test]
fn other_files_may_come_and_go() {
    let selections = pairs(&[("a", "y")]);
    let refuse = |text: &str| -> Result<UpstreamFile, String> {
        if text == "good" {
            Ok(empty())
        } else {
            Err(text.to_owned())
        }
    };
    let mut good = file("a.y.yaml");
    good.text = Ok("good".to_owned());
    let mut other = file("a.x.yaml");
    other.text = Ok("__GM_UNSET__ [".to_owned());
    let one = vec![good, other, file("notes.md")];
    let mut good = file("a.y.yaml");
    good.text = Ok("good".to_owned());
    let two = vec![file("a.x.yaml"), good];
    for files in [one, two] {
        let loaded = load_upstreams(&files, &selections, &no_vars, &refuse).expect("loaded");
        assert_eq!(loaded.len(), 1);
        assert_eq!(loaded[0].provider, "a");
    }
}

#[test]
fn text_that_is_refused_stops_the_load() {
    let files = vec![file("b.yaml"), file("a.yaml")];
    let parse = |text: &str| -> Result<UpstreamFile, String> { Err(format!("bad {text}")) };
    let err = load_upstreams(&files, &pairs(&[]), &no_vars, &parse).expect_err("refused");
    assert!(matches!(
        &err,
        RenderError::Parse { path, cause } if path == "a.yaml" && cause == "bad a.yaml"
    ));
    assert_eq!(err.full_message(), "parse a.yaml: bad a.yaml");
}

fn with_slots(cloud: bool, disabled: bool, auth_header: Option<&str>) -> UpstreamFile {
    UpstreamFile {
        slots: Some(Slots {
            direct_env: "K".to_owned(),
            cloud,
            disabled,
            auth_header: auth_header.map(str::to_owned),
            auth_prefix: String::new(),
        }),
        ..empty()
    }
}

#[test]
fn direct_slots_need_a_header() {
    let path = "p".to_owned();
    assert!(check_upstream(Ok(empty()), &path).is_ok());
    assert!(check_upstream(Ok(with_slots(true, false, None)), &path).is_ok());
    assert!(check_upstream(Ok(with_slots(false, true, None)), &path).is_ok());
    assert!(check_upstream(Ok(with_slots(false, false, Some("h"))), &path).is_ok());
    let err = check_upstream(Ok(with_slots(false, false, None)), &path).expect_err("no header");
    assert!(matches!(&err, RenderError::NoAuthHeader { path } if path == "p"));
    let err = check_upstream(Err("why".to_owned()), &path).expect_err("refused");
    assert!(matches!(&err, RenderError::Parse { cause, .. } if cause == "why"));
}

#[test]
fn changing_readings_are_used_one_by_one() {
    let files = vec![file("b.yaml"), file("a.yaml"), file("c.yaml")];
    let turn = std::cell::Cell::new(false);
    let fickle = |text: &str| -> Result<UpstreamFile, String> {
        turn.set(!turn.get());
        if turn.get() {
            Ok(empty())
        } else {
            Err(text.to_owned())
        }
    };
    let err = load_upstreams(&files, &pairs(&[]), &no_vars, &fickle).expect_err("the second");
    assert!(matches!(&err, RenderError::Parse { path, .. } if path == "b.yaml"));
}
