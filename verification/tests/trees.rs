//! Markers, internal headers and the assembled tree.

use envoy_render::error::RenderError;
use envoy_render::headers::{add_internal_header_strip, GM_INTERNAL_HEADERS};
use envoy_render::node::Node;
use envoy_render::render::{assemble, Contribution, CLUSTERS_MARKER, ROUTES_MARKER};
use envoy_render::splice::splice;
use envoy_render::yaml::{node_of, nodes_of};

fn node(yaml: &str) -> Node {
    node_of(serde_yaml_ng::from_str(yaml).expect("YAML"))
}

fn nodes(yaml: &str) -> Vec<Node> {
    nodes_of(serde_yaml_ng::from_str(yaml).expect("a list"))
}

/// One line that shows a node, the order of entries included.
fn shown(node: &Node) -> String {
    match node {
        Node::Null => "~".to_owned(),
        Node::Bool(b) => b.to_string(),
        Node::Number(n) => n.to_string(),
        Node::Text(s) => s.clone(),
        Node::Sequence(items) => {
            let items: Vec<String> = items.iter().map(shown).collect();
            format!("[{}]", items.join(" "))
        }
        Node::Mapping(entries) => {
            let entries: Vec<String> = entries
                .iter()
                .map(|(key, value)| format!("{}={}", shown(key), shown(value)))
                .collect();
            format!("{{{}}}", entries.join(" "))
        }
        Node::Tagged(tag, inner) => format!("{tag}({})", shown(inner)),
    }
}

fn spliced(yaml: &str, items: &str) -> Result<String, RenderError> {
    let mut root = node(yaml);
    splice(&mut root, "m", nodes(items))?;
    Ok(shown(&root))
}

#[test]
fn nodes_hold_what_values_hold() {
    assert_eq!(
        shown(&node("{a: ~, b: true, c: 7, d: x, e: [1, {f: g}], h: !t i, 2: j}")),
        "{a=~ b=true c=7 d=x e=[1 {f=g}] h=!t(i) 2=j}"
    );
    assert_eq!(nodes("[a, b]").len(), 2);
}

#[test]
fn items_take_the_place_of_the_marker() {
    assert_eq!(spliced("[a, m, b]", "[x, y]").expect("one marker"), "[a x y b]");
    assert_eq!(spliced("[m]", "[]").expect("one marker"), "[]");
    assert_eq!(
        spliced("{k: [1, {n: !t [m]}], l: [z]}", "[x]").expect("one marker"),
        "{k=[1 {n=!t([x])}] l=[z]}"
    );
}

#[test]
fn marker_counts_only_as_a_list_item() {
    let refused = |yaml: &str| match spliced(yaml, "[]") {
        Err(RenderError::MarkerCount { marker, found }) => {
            assert_eq!(marker, "m");
            found
        }
        _ => panic!("accepted {yaml}"),
    };
    assert_eq!(refused("m"), 0);
    assert_eq!(refused("{m: m}"), 0);
    assert_eq!(refused("{? [m] : x}"), 0);
    assert_eq!(refused("!t m"), 0);
    assert_eq!(refused("[[m, m], {a: [m]}]"), 3);
}

#[test]
fn refused_splice_leaves_the_tree() {
    let mut root = node("[m, m]");
    let err = splice(&mut root, "m", nodes("[x]")).expect_err("twice");
    assert_eq!(
        err.message(),
        "base.yaml must contain `- m` exactly once (found 2)"
    );
    assert_eq!(shown(&root), "[m m]");
}

#[test]
fn items_are_put_in_as_they_are() {
    assert_eq!(spliced("[m]", "[[m]]").expect("one marker"), "[[m]]");
    assert_eq!(
        spliced("[a, m]", "[m, [m, b, m], {k: [m], l: [[c, m]]}]").expect("one marker"),
        "[a m [m b m] {k=[m] l=[[c m]]}]"
    );
}

#[test]
fn splicing_again_finds_no_marker() {
    let mut root = node("{k: [a, m]}");
    splice(&mut root, "m", nodes("[b]")).expect("one marker");
    assert!(matches!(
        splice(&mut root, "m", nodes("[c]")),
        Err(RenderError::MarkerCount { found: 0, .. })
    ));
    assert_eq!(shown(&root), "{k=[a b]}");
}

fn stripped(yaml: &str) -> Result<String, RenderError> {
    let mut route = node(yaml);
    add_internal_header_strip(&mut route, "acme")?;
    Ok(shown(&route))
}

#[test]
fn headers_are_added_in_order() {
    let all = GM_INTERNAL_HEADERS.join(" ");
    assert_eq!(
        all,
        "x-gm-request-id x-gm-gateway-sig x-gm-product x-gm-node-key x-gm-provider \
         x-gm-upstream-slot"
    );
    assert_eq!(
        stripped("{name: r}").expect("a mapping"),
        format!("{{name=r request_headers_to_remove=[{all}]}}")
    );
    assert_eq!(
        stripped("{request_headers_to_remove: [b, x-gm-product, b]}").expect("a mapping"),
        "{request_headers_to_remove=[b x-gm-product b x-gm-request-id x-gm-gateway-sig \
         x-gm-node-key x-gm-provider x-gm-upstream-slot]}"
    );
}

#[test]
fn last_entry_takes_the_place_of_the_headers() {
    let all = GM_INTERNAL_HEADERS.join(" ");
    assert_eq!(
        stripped("{a: 1, request_headers_to_remove: [], b: 2, c: 3}").expect("a mapping"),
        format!("{{a=1 c=3 b=2 request_headers_to_remove=[{all}]}}")
    );
}

#[test]
fn adding_the_headers_twice_changes_nothing() {
    let mut route = node("{a: 1, request_headers_to_remove: [x], b: 2}");
    add_internal_header_strip(&mut route, "acme").expect("a mapping");
    let once = shown(&route);
    add_internal_header_strip(&mut route, "acme").expect("a mapping");
    assert_eq!(shown(&route), once);
}

#[test]
fn headers_need_a_mapping_and_a_list() {
    let err = stripped("[a]").expect_err("a list");
    assert!(matches!(&err, RenderError::RouteNotMapping { provider } if provider == "acme"));
    let err = stripped("!t {a: b}").expect_err("a tag");
    assert!(matches!(&err, RenderError::RouteNotMapping { .. }));
    let err = stripped("{request_headers_to_remove: ~}").expect_err("null");
    assert!(matches!(&err, RenderError::HeadersNotList { provider } if provider == "acme"));
    let err = stripped("{request_headers_to_remove: !t [a]}").expect_err("tagged list");
    assert!(matches!(&err, RenderError::HeadersNotList { .. }));
}

fn contribution(provider: &str, routes: &str, clusters: &str) -> Contribution {
    Contribution {
        provider: provider.to_owned(),
        routes: nodes(routes),
        clusters: nodes(clusters),
    }
}

#[test]
fn contributions_stand_in_a_row() {
    let base = node(&format!("{{r: [0, {ROUTES_MARKER}], c: [{CLUSTERS_MARKER}, 9]}}"));
    let list = vec![
        contribution("a", "[{n: 1}, {n: 2}]", "[x]"),
        contribution("b", "[]", "[y, z]"),
        contribution("c", "[{n: 3}]", "[]"),
    ];
    let all = GM_INTERNAL_HEADERS.join(" ");
    assert_eq!(
        shown(&assemble(base, list).expect("assembled")),
        format!(
            "{{r=[0 {{n=1 request_headers_to_remove=[{all}]}} \
             {{n=2 request_headers_to_remove=[{all}]}} \
             {{n=3 request_headers_to_remove=[{all}]}}] c=[x y z 9]}}"
        )
    );
}

#[test]
fn both_markers_can_stand_in_one_list() {
    let base = node(&format!("[0, {CLUSTERS_MARKER}, {ROUTES_MARKER}, [1]]"));
    let list = vec![contribution("a", "[{n: 1}]", "[x, y]")];
    let all = GM_INTERNAL_HEADERS.join(" ");
    assert_eq!(
        shown(&assemble(base, list).expect("assembled")),
        format!("[0 x y {{n=1 request_headers_to_remove=[{all}]}} [1]]")
    );
}

#[test]
fn markers_of_the_upstreams_do_not_count() {
    let all = GM_INTERNAL_HEADERS.join(" ");
    let base = node(&format!("{{r: [{ROUTES_MARKER}], c: [{CLUSTERS_MARKER}]}}"));
    let routes = format!("[{{x: [{CLUSTERS_MARKER}, {ROUTES_MARKER}]}}]");
    let clusters = format!("[{ROUTES_MARKER}, [{CLUSTERS_MARKER}]]");
    let list = vec![contribution("a", &routes, &clusters)];
    assert_eq!(
        shown(&assemble(base, list).expect("assembled")),
        format!(
            "{{r=[{{x=[{CLUSTERS_MARKER} {ROUTES_MARKER}] request_headers_to_remove=[{all}]}}] \
             c=[{ROUTES_MARKER} [{CLUSTERS_MARKER}]]}}"
        )
    );

    let base = node(&format!("[{ROUTES_MARKER}]"));
    let list = vec![contribution("a", &routes, "[]")];
    assert!(matches!(
        assemble(base, list),
        Err(RenderError::MarkerCount { marker, found: 0 }) if marker == CLUSTERS_MARKER
    ));
}

#[test]
fn first_bad_route_is_told_before_a_marker() {
    let list = vec![
        contribution("a", "[{n: 1}]", "[]"),
        contribution("b", "[x]", "[]"),
    ];
    let err = assemble(node("[]"), list).expect_err("no mapping");
    assert!(matches!(&err, RenderError::RouteNotMapping { provider } if provider == "b"));
    let err = assemble(node(&format!("[{ROUTES_MARKER}]")), Vec::new()).expect_err("no clusters");
    assert!(matches!(
        &err,
        RenderError::MarkerCount { marker, found: 0 } if marker == CLUSTERS_MARKER
    ));
}

#[test]
fn entries_are_ordered_as_a_mapping_orders_them() {
    let yaml = "{a: 1, request_headers_to_remove: [x], b: 2, c: 3}";
    let mut map: serde_yaml_ng::Mapping = serde_yaml_ng::from_str(yaml).expect("a mapping");
    let mut headers = match map.remove("request_headers_to_remove") {
        Some(serde_yaml_ng::Value::Sequence(headers)) => headers,
        _ => panic!("no list"),
    };
    for header in GM_INTERNAL_HEADERS {
        headers.push(serde_yaml_ng::Value::from(header));
    }
    map.insert(
        serde_yaml_ng::Value::from("request_headers_to_remove"),
        serde_yaml_ng::Value::Sequence(headers),
    );
    assert_eq!(
        stripped(yaml).expect("a mapping"),
        shown(&node_of(serde_yaml_ng::Value::Mapping(map)))
    );
}
