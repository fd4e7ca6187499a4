use reactpyx::diff_nodes;
use reactpyx::node::{VNode, Value};
use reactpyx::patch::apply_patches;
use reactpyx::render::{HandlerRegistry, Renderer};
use reactpyx::serial::SerialValue;

fn el(
    tag: &str,
    props: Vec<(&str, Value)>,
    children: Vec<VNode>,
    is_critical: bool,
    ttl: u64,
    key: Option<&str>,
) -> VNode {
    VNode::new(
        tag.to_string(),
        props.into_iter().map(|(k, v)| (k.to_string(), v)).collect(),
        children,
        is_critical,
        ttl,
        key.map(|k| k.to_string()),
    )
    .unwrap()
}

fn s(v: &str) -> Value {
    Value::Str(v.to_string())
}

fn plain_renderer() -> Renderer {
    Renderer::new(HandlerRegistry::new())
}

#[test]
fn renders_concrete_markup() {
    let t = el(
        "div",
        vec![("id", s("x"))],
        vec![el("p", vec![], vec![], false, 60, None)],
        false,
        60,
        None,
    );
    let mut r = plain_renderer();
    let html = t.render(&mut r, 0).unwrap();
    assert_eq!(html, "<div id=\"x\"><p></p></div>");
}

#[test]
fn renders_numbers_and_booleans() {
    let t = el(
        "input",
        vec![
            ("max", Value::Num(42)),
            ("min", Value::Num(-7)),
            ("zero", Value::Num(0)),
            ("checked", Value::Bool(true)),
            ("hidden", Value::Bool(false)),
        ],
        vec![],
        false,
        60,
        None,
    );
    let mut r = plain_renderer();
    let html = t.render(&mut r, 0).unwrap();
    assert_eq!(
        html,
        "<input max=\"42\" min=\"-7\" zero=\"0\" checked=\"true\"></input>"
    );
}

#[test]
fn renders_extreme_numbers() {
    let t = el(
        "span",
        vec![("lo", Value::Num(i64::MIN)), ("hi", Value::Num(i64::MAX))],
        vec![],
        false,
        60,
        None,
    );
    let mut r = plain_renderer();
    let html = t.render(&mut r, 0).unwrap();
    assert_eq!(
        html,
        "<span lo=\"-9223372036854775808\" hi=\"9223372036854775807\"></span>"
    );
}

#[test]
fn renders_registered_handler_as_token() {
    let mut reg = HandlerRegistry::new();
    reg.register(7, "h7".to_string());
    let t = el("button", vec![("onClick", Value::Handler(7))], vec![], false, 60, None);
    let mut r = Renderer::new(reg);
    let html = t.render(&mut r, 0).unwrap();
    // the event name is the lowercased key without its leading "on"
    assert_eq!(html, "<button data-on-click=\"h7\"></button>");
}

#[test]
fn unregistered_handler_is_a_typed_error() {
    let t = el("button", vec![("onClick", Value::Handler(9))], vec![], false, 60, None);
    let mut r = plain_renderer();
    let e = t.render(&mut r, 0).unwrap_err();
    assert_eq!(e.tag, "button");
    assert_eq!(e.key, "onClick");
}

#[test]
fn cache_hit_avoids_recomputation() {
    let t = el(
        "div",
        vec![("id", s("x"))],
        vec![el("p", vec![], vec![], false, 60, None)],
        false,
        60,
        None,
    );
    let mut r = plain_renderer();
    let first = t.render(&mut r, 100).unwrap();
    let misses_after_first = r.misses;
    let hits_after_first = r.hits;
    assert!(misses_after_first >= 1);
    let second = t.render(&mut r, 130).unwrap();
    assert_eq!(first, second);
    // served from the cache: nothing was recomputed, neither the node nor
    // its children
    assert_eq!(r.misses, misses_after_first);
    assert_eq!(r.hits, hits_after_first + 1);
    // after the cache lifetime has elapsed the entry is stale
    let third = t.render(&mut r, 160).unwrap();
    assert_eq!(first, third);
    assert!(r.misses > misses_after_first);
    // the re-render stored a fresh timestamp, so a later render within the
    // lifetime hits again
    let misses_after_third = r.misses;
    let fourth = t.render(&mut r, 190).unwrap();
    assert_eq!(first, fourth);
    assert_eq!(r.misses, misses_after_third);
}

#[test]
fn handler_event_name_is_lowercased() {
    let mut reg = HandlerRegistry::new();
    reg.register(1, "t1".to_string());
    reg.register(2, "t2".to_string());
    let t = el(
        "div",
        vec![("onMouseOver", Value::Handler(1)), ("Submit", Value::Handler(2))],
        vec![],
        false,
        60,
        None,
    );
    let mut r = Renderer::new(reg);
    let html = t.render(&mut r, 0).unwrap();
    // a leading "on" is stripped and the event name lowercased; a key
    // without the prefix is lowercased whole
    assert_eq!(html, "<div data-on-mouseover=\"t1\" data-on-submit=\"t2\"></div>");
}

#[test]
fn critical_node_bypasses_the_cache() {
    let a = el("div", vec![("count", Value::Num(1))], vec![], true, 3600, None);
    let b = el("div", vec![("count", Value::Num(2))], vec![], true, 3600, None);
    let mut r = plain_renderer();
    let first = a.render(&mut r, 0).unwrap();
    let second = b.render(&mut r, 1).unwrap();
    assert_eq!(first, "<div count=\"1\"></div>");
    assert_eq!(second, "<div count=\"2\"></div>");
    assert_ne!(first, second);
    assert_eq!(r.hits, 0);
}

#[test]
fn replay_reproduces_the_new_render() {
    let a = el(
        "div",
        vec![("class", s("a")), ("gone", s("g"))],
        vec![
            el("p", vec![("id", s("p1"))], vec![], false, 60, None),
            el("span", vec![], vec![], false, 60, None),
        ],
        false,
        60,
        None,
    );
    let b = el(
        "div",
        vec![("class", s("b")), ("fresh", Value::Num(7))],
        vec![
            el("p", vec![("id", s("p2"))], vec![], false, 60, None),
            el("span", vec![("k", Value::Bool(true))], vec![], false, 60, None),
            el("ul", vec![], vec![], false, 60, None),
        ],
        false,
        60,
        None,
    );
    let patches = diff_nodes(&a, &b);
    let mut live = a.clone_node();
    apply_patches(&patches, &mut live).unwrap();
    let mut r1 = plain_renderer();
    let mut r2 = plain_renderer();
    let replayed = live.render(&mut r1, 0).unwrap();
    let target = b.render(&mut r2, 0).unwrap();
    assert_eq!(replayed, target);
}

#[test]
fn to_dict_projects_handlers_to_markers() {
    let t = el(
        "div",
        vec![("id", s("x")), ("onClick", Value::Handler(3)), ("n", Value::Num(5))],
        vec![el("p", vec![], vec![], false, 60, Some("child-key"))],
        false,
        60,
        None,
    );
    let d = t.to_dict();
    assert_eq!(d.tag, "div");
    assert_eq!(d.props.len(), 3);
    assert_eq!(d.props[0], ("id".to_string(), SerialValue::Str("x".to_string())));
    assert_eq!(d.props[1], ("onClick".to_string(), SerialValue::Bool(true)));
    assert_eq!(d.props[2], ("n".to_string(), SerialValue::Num(5)));
    assert_eq!(d.children.len(), 1);
    assert_eq!(d.children[0].tag, "p");
    assert_eq!(d.children[0].key, Some("child-key".to_string()));
    assert_eq!(d.key, None);
}
