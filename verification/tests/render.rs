//! Rendering whole template directories.

use std::collections::BTreeMap;
use std::fmt;

use envoy_render::error::RenderError;
use envoy_render::files::{is_wanted, TemplateFile};
use envoy_render::headers::GM_INTERNAL_HEADERS;
use envoy_render::render::render;
use envoy_render::upstream::{Slots, UpstreamFile};
use serde::de::{Deserialize, Deserializer, Error as _, MapAccess, Visitor};
use serde_yaml_ng::Value;

const BASE: &str = r#"lua: |
  local expected = "__GM_NODE_SECRET__"
  local slot_config = __GM_SLOT_CONFIG__
routes:
  - name: first
  - gm:upstream-routes
  - name: catch-all
clusters:
  - gm:upstream-clusters
"#;

const DIRECT: &str = r#"slots:
  direct_env: ACME_API_KEY
  auth_header: authorization
  auth_prefix: "Bearer "
routes:
  - name: acme
    request_headers_to_add:
      - value: "2023-06-01"
    request_headers_to_remove:
      - x-api-key
      - x-gm-provider
clusters:
  - name: acme
    host: __GM_ACME_HOST__
"#;

struct SlotsDocument(Slots);

struct SlotsVisitor;

const SLOTS_FIELDS: &[&str] = &[
    "direct_env",
    "cloud",
    "disabled",
    "auth_header",
    "auth_prefix",
];

impl<'de> Visitor<'de> for SlotsVisitor {
    type Value = SlotsDocument;

    fn expecting(&self, f: &mut fmt::Formatter<'_>) -> fmt::Result {
        f.write_str("struct Slots")
    }

    fn visit_map<A: MapAccess<'de>>(self, mut map: A) -> Result<SlotsDocument, A::Error> {
        let mut direct_env: Option<String> = None;
        let mut slots = Slots {
            direct_env: String::new(),
            cloud: false,
            disabled: false,
            auth_header: None,
            auth_prefix: String::new(),
        };
        while let Some(key) = map.next_key::<String>()? {
            match key.as_str() {
                "direct_env" => direct_env = Some(map.next_value()?),
                "cloud" => slots.cloud = map.next_value()?,
                "disabled" => slots.disabled = map.next_value()?,
                "auth_header" => slots.auth_header = map.next_value()?,
                "auth_prefix" => slots.auth_prefix = map.next_value()?,
                other => return Err(A::Error::unknown_field(other, SLOTS_FIELDS)),
            }
        }
        slots.direct_env = direct_env.ok_or_else(|| A::Error::missing_field("direct_env"))?;
        Ok(SlotsDocument(slots))
    }
}

impl<'de> Deserialize<'de> for SlotsDocument {
    fn deserialize<D: Deserializer<'de>>(deserializer: D) -> Result<Self, D::Error> {
        deserializer.deserialize_struct("Slots", SLOTS_FIELDS, SlotsVisitor)
    }
}

struct Document(UpstreamFile);

struct DocumentVisitor;

const DOCUMENT_FIELDS: &[&str] = &["slots", "routes", "clusters"];

impl<'de> Visitor<'de> for DocumentVisitor {
    type Value = Document;

    fn expecting(&self, f: &mut fmt::Formatter<'_>) -> fmt::Result {
        f.write_str("struct UpstreamFile")
    }

    fn visit_map<A: MapAccess<'de>>(self, mut map: A) -> Result<Document, A::Error> {
        let mut file = UpstreamFile {
            slots: None,
            routes: Vec::new(),
            clusters: Vec::new(),
        };
        while let Some(key) = map.next_key::<String>()? {
            match key.as_str() {
                "slots" => {
                    file.slots = map.next_value::<Option<SlotsDocument>>()?.map(|slots| slots.0);
                }
                "routes" => file.routes = map.next_value::<Vec<Value>>()?,
                "clusters" => file.clusters = map.next_value::<Vec<Value>>()?,
                other => return Err(A::Error::unknown_field(other, DOCUMENT_FIELDS)),
            }
        }
        Ok(Document(file))
    }
}

impl<'de> Deserialize<'de> for Document {
    fn deserialize<D: Deserializer<'de>>(deserializer: D) -> Result<Self, D::Error> {
        deserializer.deserialize_struct("UpstreamFile", DOCUMENT_FIELDS, DocumentVisitor)
    }
}

fn parse(text: &str) -> Result<UpstreamFile, String> {
    serde_yaml_ng::from_str::<Document>(text)
        .map(|document| document.0)
        .map_err(|e| e.to_string())
}

struct Fixture {
    base: TemplateFile,
    upstreams: Vec<TemplateFile>,
}

impl Fixture {
    fn new(base: &str, upstreams: &[(&str, &str)]) -> Self {
        Self {
            base: TemplateFile {
                name: b"base.yaml".to_vec(),
                path: "templates/base.yaml".to_owned(),
                text: Ok(base.to_owned()),
            },
            upstreams: upstreams
                .iter()
                .map(|(name, body)| TemplateFile {
                    name: name.as_bytes().to_vec(),
                    path: format!("templates/upstreams/{name}"),
                    text: Ok((*body).to_owned()),
                })
                .collect(),
        }
    }

    fn render(
        &self,
        selections: &[(&str, &str)],
        vars: &[(&str, &str)],
    ) -> Result<String, RenderError> {
        let selections = owned(selections);
        let vars: BTreeMap<String, String> = owned(vars).into_iter().collect();
        let env = |name: &str| vars.get(name).cloned();
        render(&self.base, &self.upstreams, &selections, &env, &parse)
    }
}

fn owned(pairs: &[(&str, &str)]) -> Vec<(String, String)> {
    pairs
        .iter()
        .map(|(a, b)| ((*a).to_owned(), (*b).to_owned()))
        .collect()
}

const VARS: &[(&str, &str)] = &[
    ("GM_NODE_SECRET", "secret-0001"),
    ("GM_ACME_HOST", "api.acme.test"),
];

fn parsed(rendered: &str) -> serde_json::Value {
    serde_json::from_str(rendered).expect("rendered output is JSON")
}

/// The rendered `slot_config`, with the Lua state that owns it.
fn lua_config(rendered: &str) -> (mlua::Lua, mlua::Table) {
    let lua = mlua::Lua::new();
    let source = parsed(rendered)["lua"].as_str().expect("lua").to_owned();
    let config = lua
        .load(format!("{source}\nreturn slot_config"))
        .eval()
        .expect("rendered Lua runs");
    (lua, config)
}

#[test]
fn splices_upstream_routes_between_base_routes_and_adds_internal_strip() {
    let fixture = Fixture::new(BASE, &[("acme.yaml", DIRECT)]);
    let out = parsed(&fixture.render(&[], VARS).expect("render"));

    let names: Vec<&str> = out["routes"]
        .as_array()
        .expect("routes")
        .iter()
        .map(|route| route["name"].as_str().expect("name"))
        .collect();
    assert_eq!(names, ["first", "acme", "catch-all"]);
    let removed = &out["routes"][1]["request_headers_to_remove"];
    let expected: Vec<&str> = ["x-api-key", "x-gm-provider"]
        .into_iter()
        .chain(
            GM_INTERNAL_HEADERS
                .into_iter()
                .filter(|h| *h != "x-gm-provider"),
        )
        .collect();
    assert_eq!(*removed, serde_json::Value::from(expected));
    assert_eq!(out["clusters"][0]["host"], "api.acme.test");
}

#[test]
fn base_routes_do_not_get_the_internal_strip() {
    let fixture = Fixture::new(BASE, &[("acme.yaml", DIRECT)]);
    let out = parsed(&fixture.render(&[], VARS).expect("render"));
    assert!(out["routes"][0].get("request_headers_to_remove").is_none());
}

#[test]
fn date_shaped_strings_stay_strings() {
    let fixture = Fixture::new(BASE, &[("acme.yaml", DIRECT)]);
    let rendered = fixture.render(&[], VARS).expect("render");
    assert!(rendered.contains(r#""value": "2023-06-01""#), "{rendered}");
}

#[test]
fn unset_token_names_the_file_and_variable() {
    let fixture = Fixture::new(BASE, &[("acme.yaml", DIRECT)]);
    let err = fixture
        .render(&[], &[("GM_NODE_SECRET", "s")])
        .expect_err("GM_ACME_HOST is unset");
    let message = err.full_message();
    assert!(message.contains("acme.yaml"), "{message}");
    assert!(message.contains("GM_ACME_HOST is not set"), "{message}");
}

#[test]
fn empty_value_is_allowed() {
    let fixture = Fixture::new(BASE, &[("acme.yaml", DIRECT)]);
    let out = fixture
        .render(&[], &[("GM_NODE_SECRET", ""), ("GM_ACME_HOST", "h")])
        .expect("render");
    assert!(parsed(&out)["lua"]
        .as_str()
        .expect("lua")
        .contains(r#"local expected = """#));
}

#[test]
fn inserted_values_are_never_rescanned() {
    let fixture = Fixture::new(BASE, &[("acme.yaml", DIRECT)]);
    let out = fixture
        .render(
            &[],
            &[
                ("GM_NODE_SECRET", "__GM_SLOT_CONFIG__"),
                ("GM_ACME_HOST", "h"),
            ],
        )
        .expect("render");
    assert!(parsed(&out)["lua"]
        .as_str()
        .expect("lua")
        .contains(r#"local expected = "__GM_SLOT_CONFIG__""#));
}

#[test]
fn lowercase_double_underscore_text_is_left_alone() {
    let fixture = Fixture::new(
        "lua: \"__GM_x__ __GM_\"\nroutes: [gm:upstream-routes]\nclusters: [gm:upstream-clusters]\n",
        &[],
    );
    let out = parsed(&fixture.render(&[], &[]).expect("render"));
    assert_eq!(out["lua"], "__GM_x__ __GM_");
}

#[test]
fn slot_config_maps_each_exported_slot_to_its_env_var() {
    let fixture = Fixture::new(BASE, &[("acme.yaml", DIRECT)]);
    let mut vars = VARS.to_vec();
    vars.push(("GM_ACME_SLOT_IDS", "AAAA;BBBB"));
    let (_lua, config) = lua_config(&fixture.render(&[], &vars).expect("render"));
    let acme: mlua::Table = config.get("acme").expect("acme entry");
    let slots: mlua::Table = acme.get("slots").expect("slots");
    assert_eq!(
        slots.get::<String>("AAAA").expect("A"),
        "GM_ACME_KEY_SLOT_1"
    );
    assert_eq!(
        slots.get::<String>("BBBB").expect("B"),
        "GM_ACME_KEY_SLOT_2"
    );
    assert_eq!(
        acme.get::<String>("default_env").expect("default"),
        "GM_ACME_KEY_SLOT_1"
    );
    assert_eq!(
        acme.get::<String>("direct_env").expect("direct"),
        "ACME_API_KEY"
    );
    assert_eq!(
        acme.get::<String>("auth_header").expect("header"),
        "authorization"
    );
    assert_eq!(
        acme.get::<String>("auth_prefix").expect("prefix"),
        "Bearer "
    );
    assert!(!acme.get::<bool>("cloud").expect("cloud"));
}

#[test]
fn slot_config_without_exported_slots_falls_back_to_direct_env() {
    let fixture = Fixture::new(BASE, &[("acme.yaml", DIRECT)]);
    let (_lua, config) = lua_config(&fixture.render(&[], VARS).expect("render"));
    let acme: mlua::Table = config.get("acme").expect("acme entry");
    assert!(acme
        .get::<Option<String>>("default_env")
        .expect("default")
        .is_none());
    assert_eq!(
        acme.get::<mlua::Table>("slots").expect("slots").raw_len(),
        0
    );
}

#[test]
fn slot_ids_are_escaped_as_lua_strings() {
    let fixture = Fixture::new(BASE, &[("acme.yaml", DIRECT)]);
    let mut vars = VARS.to_vec();
    vars.push(("GM_ACME_SLOT_IDS", "a\"b\\c\nd"));
    let (_lua, config) = lua_config(&fixture.render(&[], &vars).expect("render"));
    let acme: mlua::Table = config.get("acme").expect("acme entry");
    let slots: mlua::Table = acme.get("slots").expect("slots");
    assert_eq!(
        slots.get::<String>("a\"b\\c\nd").expect("escaped id"),
        "GM_ACME_KEY_SLOT_1"
    );
}

#[test]
fn upstream_without_slots_has_no_slot_config_entry() {
    let fixture = Fixture::new(BASE, &[("bench.yaml", "routes: [{name: bench}]\n")]);
    let (_lua, config) = lua_config(&fixture.render(&[], VARS).expect("render"));
    assert!(config
        .get::<Option<mlua::Table>>("bench")
        .expect("lookup")
        .is_none());
}

const CLOUD: &str = "slots: {direct_env: ACME_API_KEY, cloud: true}\nroutes: [{name: cloud}]\n";

#[test]
fn selection_picks_one_variant_file() {
    let fixture = Fixture::new(
        BASE,
        &[("acme.direct.yaml", DIRECT), ("acme.cloud.yaml", CLOUD)],
    );
    let out = parsed(&fixture.render(&[("acme", "cloud")], VARS).expect("render"));
    assert_eq!(out["routes"][1]["name"], "cloud");
    assert_eq!(out["routes"].as_array().expect("routes").len(), 3);
    let (_lua, config) = lua_config(&fixture.render(&[("acme", "cloud")], VARS).expect("render"));
    let acme: mlua::Table = config.get("acme").expect("acme entry");
    assert!(acme.get::<bool>("cloud").expect("cloud"));
}

#[test]
fn variant_provider_without_selection_is_an_error() {
    let fixture = Fixture::new(
        BASE,
        &[("acme.direct.yaml", DIRECT), ("acme.cloud.yaml", CLOUD)],
    );
    let err = fixture.render(&[], VARS).expect_err("no selection");
    assert!(
        err.message().contains("--select acme=<variant>"),
        "{}",
        err.message()
    );
}

#[test]
fn selection_without_a_matching_file_is_an_error() {
    let fixture = Fixture::new(BASE, &[("acme.direct.yaml", DIRECT)]);
    let err = fixture
        .render(&[("acme", "azure")], VARS)
        .expect_err("no file");
    assert!(
        err.message().contains("acme.azure.yaml"),
        "{}",
        err.message()
    );
}

#[test]
fn plain_and_variant_file_for_one_provider_is_an_error() {
    let fixture = Fixture::new(BASE, &[("acme.yaml", DIRECT), ("acme.cloud.yaml", CLOUD)]);
    let err = fixture
        .render(&[("acme", "cloud")], VARS)
        .expect_err("duplicate");
    assert!(
        err.message().contains("more than one upstream file"),
        "{}",
        err.message()
    );
}

#[test]
fn direct_slots_without_auth_header_are_rejected() {
    let fixture = Fixture::new(
        BASE,
        &[("acme.yaml", "slots: {direct_env: ACME_API_KEY}\n")],
    );
    let err = fixture.render(&[], VARS).expect_err("no auth header");
    assert!(err.message().contains("auth_header"), "{}", err.message());
}

#[test]
fn unknown_upstream_field_is_rejected() {
    let fixture = Fixture::new(BASE, &[("acme.yaml", "route: []\n")]);
    let err = fixture.render(&[], VARS).expect_err("typo");
    assert!(
        err.full_message().contains("unknown field `route`"),
        "{}",
        err.full_message()
    );
}

#[test]
fn missing_or_repeated_marker_is_an_error() {
    let fixture = Fixture::new("routes: []\nclusters: [gm:upstream-clusters]\n", &[]);
    let err = fixture.render(&[], &[]).expect_err("missing marker");
    assert!(err.message().contains("found 0"), "{}", err.message());

    let fixture = Fixture::new(
        "routes: [gm:upstream-routes, gm:upstream-routes]\nclusters: [gm:upstream-clusters]\n",
        &[],
    );
    let err = fixture.render(&[], &[]).expect_err("repeated marker");
    assert!(err.message().contains("found 2"), "{}", err.message());
}

const PLAIN: &str = "routes: [gm:upstream-routes]\nclusters: [gm:upstream-clusters]\n";

#[test]
fn output_is_pretty_json() {
    let fixture = Fixture::new(PLAIN, &[]);
    assert_eq!(
        fixture.render(&[], &[]).expect("render"),
        "{\n  \"routes\": [],\n  \"clusters\": []\n}"
    );
}

#[test]
fn every_kind_of_scalar_is_written() {
    let fixture = Fixture::new(
        "a: ~\nb: true\nc: 12\nd: -3\ne: 1.5\nf: 'on'\n1: one\ng: !tag [x]\n\
         routes: [gm:upstream-routes]\nclusters: [gm:upstream-clusters]\n",
        &[],
    );
    let out = parsed(&fixture.render(&[], &[]).expect("render"));
    assert!(out["a"].is_null());
    assert_eq!(out["b"], true);
    assert_eq!(out["c"], 12);
    assert_eq!(out["d"], -3);
    assert_eq!(out["e"], 1.5);
    assert_eq!(out["f"], "on");
    assert_eq!(out["1"], "one");
    assert_eq!(out["g"]["!tag"][0], "x");
}

#[test]
fn markers_deep_in_the_base_are_found() {
    let fixture = Fixture::new(
        "top:\n  - inner: !tag\n      list: [a, gm:upstream-routes, b]\n\
         clusters: [gm:upstream-clusters]\n",
        &[("acme.yaml", "routes: [{name: r}]\nclusters: [c]\n")],
    );
    let out = parsed(&fixture.render(&[], &[]).expect("render"));
    let list = &out["top"][0]["inner"]["!tag"]["list"];
    assert_eq!(list[0], "a");
    assert_eq!(list[1]["name"], "r");
    assert_eq!(list[2], "b");
    assert_eq!(out["clusters"][0], "c");
}

#[test]
fn markers_in_a_route_are_left_alone() {
    let fixture = Fixture::new(
        PLAIN,
        &[(
            "acme.yaml",
            "routes: [{x: [a, gm:upstream-routes, gm:upstream-clusters]}]\nclusters: [c]\n",
        )],
    );
    let out = parsed(&fixture.render(&[], &[]).expect("render"));
    assert_eq!(
        out["routes"][0]["x"],
        serde_json::Value::from(vec!["a", "gm:upstream-routes", "gm:upstream-clusters"])
    );
    assert_eq!(out["clusters"], serde_json::Value::from(vec!["c"]));
}

#[test]
fn marker_in_a_route_does_not_stand_for_that_of_the_base() {
    let fixture = Fixture::new(
        "routes: [gm:upstream-routes]\n",
        &[("a.yaml", "routes: [{x: [gm:upstream-clusters]}]\n")],
    );
    let err = fixture.render(&[], &[]).expect_err("no clusters marker");
    assert_eq!(
        err.message(),
        "base.yaml must contain `- gm:upstream-clusters` exactly once (found 0)"
    );
}

#[test]
fn upstreams_come_in_the_order_of_their_names() {
    let files = [
        ("b.yaml", "routes: [{name: b}]\n"),
        ("a.yaml", "routes: [{name: a}]\n"),
        ("B.yaml", "routes: [{name: B}]\n"),
    ];
    let mut turned = files;
    turned.reverse();
    let one = Fixture::new(PLAIN, &files).render(&[], &[]).expect("render");
    let other = Fixture::new(PLAIN, &turned)
        .render(&[], &[])
        .expect("render");
    assert_eq!(one, other);
    let out = parsed(&one);
    let names: Vec<&str> = out["routes"]
        .as_array()
        .expect("routes")
        .iter()
        .map(|route| route["name"].as_str().expect("name"))
        .collect();
    assert_eq!(names, ["B", "a", "b"]);
}

#[test]
fn other_files_are_passed_over() {
    let fixture = Fixture::new(
        PLAIN,
        &[
            ("README.md", "not YAML: ["),
            (".yaml", "also: ["),
            ("yaml", "no"),
            ("x.yml", "no"),
        ],
    );
    assert!(fixture.render(&[], &[]).is_ok());
}

#[test]
fn last_selection_of_a_provider_holds() {
    let fixture = Fixture::new(
        PLAIN,
        &[
            ("acme.one.yaml", "routes: [{name: one}]\n"),
            ("acme.two.yaml", "routes: [{name: two}]\n"),
        ],
    );
    let out = parsed(
        &fixture
            .render(&[("acme", "one"), ("acme", "two")], &[])
            .expect("render"),
    );
    assert_eq!(out["routes"][0]["name"], "two");
}

#[test]
fn variant_is_what_follows_the_first_dot() {
    let fixture = Fixture::new(
        PLAIN,
        &[("acme.v1.2.yaml", "routes: [{name: dotted}]\n")],
    );
    let out = parsed(&fixture.render(&[("acme", "v1.2")], &[]).expect("render"));
    assert_eq!(out["routes"][0]["name"], "dotted");
}

#[test]
fn text_of_an_unwanted_file_is_not_used() {
    let mut fixture = Fixture::new(PLAIN, &[("acme.a.yaml", ""), ("acme.b.yaml", "{}")]);
    fixture.upstreams[0].text = Err("not read".to_owned());
    assert!(fixture.render(&[("acme", "b")], &[]).is_ok());
    let selections = owned(&[("acme", "b")]);
    assert!(!is_wanted(&b"acme.a.yaml".to_vec(), &selections));
    assert!(is_wanted(&b"acme.b.yaml".to_vec(), &selections));
    assert!(is_wanted(&b"other.yaml".to_vec(), &selections));
    assert!(!is_wanted(&b"other.yml".to_vec(), &selections));
    assert!(!is_wanted(&vec![0xff, b'.', b'y', b'a', b'm', b'l'], &selections));
}

#[test]
fn name_that_is_not_text_is_an_error() {
    let mut fixture = Fixture::new(PLAIN, &[("acme.yaml", "{}")]);
    fixture.upstreams[0].name = vec![0xff, b'.', b'y', b'a', b'm', b'l'];
    let err = fixture.render(&[], &[]).expect_err("name");
    assert_eq!(
        err.message(),
        "non-UTF-8 upstream file name templates/upstreams/acme.yaml"
    );
}

#[test]
fn name_that_is_not_ascii_is_a_provider() {
    let fixture = Fixture::new(
        BASE,
        &[("\u{e9}a.yaml", "slots: {direct_env: K, cloud: true}\n")],
    );
    let mut vars = VARS.to_vec();
    vars.push(("GM_\u{e9}A_SLOT_IDS", "x"));
    let (_lua, config) = lua_config(&fixture.render(&[], &vars).expect("render"));
    let entry: mlua::Table = config.get("\u{e9}a").expect("entry");
    assert_eq!(
        entry.get::<String>("default_env").expect("default"),
        "GM_\u{e9}A_KEY_SLOT_1"
    );
}

#[test]
fn unreadable_files_are_errors() {
    let mut fixture = Fixture::new(PLAIN, &[("acme.yaml", "{}")]);
    fixture.base.text = Err("No such file".to_owned());
    let err = fixture.render(&[], &[]).expect_err("base");
    assert_eq!(err.message(), "read templates/base.yaml");
    assert_eq!(err.full_message(), "read templates/base.yaml: No such file");

    fixture.upstreams[0].text = Err("Permission denied".to_owned());
    let err = fixture.render(&[], &[]).expect_err("upstream");
    assert_eq!(err.message(), "Permission denied");
    assert_eq!(err.full_message(), "Permission denied");
    assert!(err.cause().is_none());
}

#[test]
fn base_that_is_not_yaml_is_an_error() {
    let fixture = Fixture::new("a: [", &[]);
    let err = fixture.render(&[], &[]).expect_err("base");
    let cause = serde_yaml_ng::from_str::<Value>("a: [")
        .expect_err("not YAML")
        .to_string();
    assert_eq!(err.message(), "parse templates/base.yaml");
    assert_eq!(err.cause(), Some(cause.clone()));
    assert_eq!(
        err.full_message(),
        format!("parse templates/base.yaml: {cause}")
    );
}

#[test]
fn result_without_json_form_is_an_error() {
    let fixture = Fixture::new(
        "? [a]\n: b\nroutes: [gm:upstream-routes]\nclusters: [gm:upstream-clusters]\n",
        &[],
    );
    let err = fixture.render(&[], &[]).expect_err("key");
    assert_eq!(err.message(), "serialize rendered Envoy config");
    assert_eq!(err.cause(), Some("key must be a string".to_owned()));
}

#[test]
fn routes_that_cannot_be_stripped_are_errors() {
    let fixture = Fixture::new(PLAIN, &[("acme.yaml", "routes: [x]\n")]);
    let err = fixture.render(&[], &[]).expect_err("route");
    assert_eq!(
        err.message(),
        "a route in upstreams/acme*.yaml is not a mapping"
    );
    let fixture = Fixture::new(
        PLAIN,
        &[("acme.yaml", "routes: [{request_headers_to_remove: x}]\n")],
    );
    let err = fixture.render(&[], &[]).expect_err("headers");
    assert_eq!(
        err.message(),
        "acme: request_headers_to_remove must be a list"
    );
}

#[test]
fn messages_name_what_is_wrong() {
    let unset = Fixture::new("__GM_X__", &[]).render(&[], &[]).expect_err("unset");
    assert_eq!(
        unset.message(),
        "templates/base.yaml uses __GM_X__ but GM_X is not set"
    );
    let variants = [("acme.a.yaml", "{}")];
    let none = Fixture::new(PLAIN, &variants)
        .render(&[], &[])
        .expect_err("not selected");
    assert_eq!(
        none.message(),
        "acme ships variant files; pass --select acme=<variant>"
    );
    let wrong = Fixture::new(PLAIN, &variants)
        .render(&[("acme", "b")], &[])
        .expect_err("no such variant");
    assert_eq!(
        wrong.message(),
        "no upstream file acme.b.yaml for --select acme=b"
    );
    let several = Fixture::new(PLAIN, &[("acme.a.yaml", "{}"), ("acme.yaml", "{}")])
        .render(&[("acme", "a")], &[])
        .expect_err("several");
    assert_eq!(
        several.message(),
        "acme has more than one upstream file selected"
    );
    let direct = Fixture::new(PLAIN, &[("acme.yaml", "slots: {direct_env: K}\n")])
        .render(&[], &[])
        .expect_err("auth header");
    assert_eq!(
        direct.message(),
        "templates/upstreams/acme.yaml: a direct upstream's slots need an auth_header"
    );
}

#[test]
fn slot_config_variable_is_never_asked_for() {
    let fixture = Fixture::new(BASE, &[]);
    let out = fixture
        .render(&[], &[("GM_NODE_SECRET", "s"), ("GM_SLOT_CONFIG", "nil")])
        .expect("render");
    assert!(parsed(&out)["lua"]
        .as_str()
        .expect("lua")
        .contains("local slot_config = {}"));
}

#[test]
fn render_asks_for_nothing_else() {
    let fixture = Fixture::new(
        BASE,
        &[
            ("acme.yaml", DIRECT),
            ("bench.yaml", "routes: [{name: __GM_BENCH__}]\n"),
            ("other.x.yaml", "__GM_UNUSED__"),
            ("other.y.yaml", "{}"),
        ],
    );
    let asked = std::cell::RefCell::new(Vec::new());
    let env = |name: &str| {
        asked.borrow_mut().push(name.to_owned());
        Some("v".to_owned())
    };
    let selections = owned(&[("other", "y")]);
    render(&fixture.base, &fixture.upstreams, &selections, &env, &parse).expect("render");
    let mut asked = asked.take();
    asked.sort();
    assert_eq!(
        asked,
        ["GM_ACME_HOST", "GM_ACME_SLOT_IDS", "GM_BENCH", "GM_NODE_SECRET"]
    );
}
