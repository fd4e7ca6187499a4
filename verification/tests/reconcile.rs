use reactpyx::diff_nodes;
use reactpyx::diff_nodes_checked;
use reactpyx::node::{NodeError, VNode, Value};
use reactpyx::patch::{apply_patches, ApplyError, Patch};

fn el(
    tag: &str,
    props: Vec<(&str, Value)>,
    children: Vec<VNode>,
    is_critical: bool,
    ttl: u64,
    key: Option<&str>,
) -> VNode {
    VNode::new(
        tag.to_string(),
        props.into_iter().map(|(k, v)| (k.to_string(), v)).collect(),
        children,
        is_critical,
        ttl,
        key.map(|k| k.to_string()),
    )
    .unwrap()
}

fn s(v: &str) -> Value {
    Value::Str(v.to_string())
}

#[test]
fn empty_tag_is_rejected() {
    let r = VNode::new(String::new(), Vec::new(), Vec::new(), false, 60, None);
    assert_eq!(r, Err(NodeError::EmptyTag));
}

#[test]
fn diff_self_is_empty() {
    let t = el(
        "div",
        vec![("id", s("x")), ("n", Value::Num(-3))],
        vec![
            el("p", vec![("class", s("a"))], vec![], false, 60, Some("one")),
            el("span", vec![], vec![], true, 0, None),
        ],
        false,
        60,
        None,
    );
    assert!(t.validate());
    let clone = t.clone_node();
    let patches = diff_nodes(&t, &clone);
    assert!(patches.is_empty());
}

#[test]
fn diff_is_deterministic() {
    let a = el(
        "div",
        vec![("class", s("a")), ("x", Value::Num(1))],
        vec![el("p", vec![], vec![], false, 60, None)],
        false,
        60,
        None,
    );
    let b = el(
        "div",
        vec![("class", s("b")), ("y", Value::Bool(true))],
        vec![el("ul", vec![], vec![], false, 60, None), el("p", vec![], vec![], false, 60, None)],
        false,
        60,
        None,
    );
    let p1 = diff_nodes(&a, &b);
    let p2 = diff_nodes(&a, &b);
    assert_eq!(p1, p2);
}

#[test]
fn tag_mismatch_yields_single_replace() {
    let a = el(
        "div",
        vec![("id", s("x"))],
        vec![el("p", vec![], vec![], false, 60, None)],
        false,
        60,
        None,
    );
    let b = el(
        "span",
        vec![("id", s("y"))],
        vec![el("q", vec![], vec![], false, 60, None)],
        false,
        60,
        None,
    );
    let patches = diff_nodes(&a, &b);
    assert_eq!(patches.len(), 1);
    match &patches[0] {
        Patch::ReplaceNode { path, node } => {
            assert!(path.is_empty());
            assert_eq!(node.tag, "span");
        }
        other => panic!("expected a ReplaceNode, got {:?}", other),
    }
}

#[test]
fn update_prop_exact_patch() {
    let a = el("div", vec![("class", s("a"))], vec![], false, 60, None);
    let b = el("div", vec![("class", s("b"))], vec![], false, 60, None);
    let patches = diff_nodes(&a, &b);
    assert_eq!(
        patches,
        vec![Patch::UpdateProp {
            path: vec![],
            key: "class".to_string(),
            value: Value::Str("b".to_string()),
        }]
    );
}

#[test]
fn add_and_remove_prop_order() {
    let a = el("div", vec![("old1", s("x")), ("kept", s("k"))], vec![], false, 60, None);
    let b = el("div", vec![("kept", s("k")), ("new1", s("y"))], vec![], false, 60, None);
    let patches = diff_nodes(&a, &b);
    assert_eq!(
        patches,
        vec![
            Patch::AddProp {
                path: vec![],
                key: "new1".to_string(),
                value: Value::Str("y".to_string()),
            },
            Patch::RemoveProp { path: vec![], key: "old1".to_string() },
        ]
    );
}

#[test]
fn keyed_reorder_preserves_identity() {
    let a_child = el("p", vec![("id", s("a"))], vec![], false, 60, Some("1"));
    let b_child = el("q", vec![("id", s("b"))], vec![], false, 60, Some("2"));
    let old_tree = el("div", vec![], vec![a_child.clone_node(), b_child.clone_node()], false, 60, None);
    let new_tree = el("div", vec![], vec![b_child, a_child], false, 60, None);
    let patches = diff_nodes(&old_tree, &new_tree);
    // matched by key: the pairs are identical, so no nested patches and no
    // replacement targets either child
    assert!(patches.is_empty());
    for p in &patches {
        assert!(!matches!(p, Patch::ReplaceNode { .. }), "unexpected {:?}", p);
        assert!(
            !matches!(p, Patch::AddProp { .. } | Patch::UpdateProp { .. } | Patch::RemoveProp { .. }),
            "unexpected nested patch {:?}",
            p
        );
    }
}

#[test]
fn trailing_children_are_appended_and_removed() {
    let a = el(
        "div",
        vec![],
        vec![el("p", vec![], vec![], false, 60, None)],
        false,
        60,
        None,
    );
    let b = el(
        "div",
        vec![],
        vec![
            el("p", vec![], vec![], false, 60, None),
            el("span", vec![], vec![], false, 60, None),
        ],
        false,
        60,
        None,
    );
    let grow = diff_nodes(&a, &b);
    assert_eq!(grow.len(), 1);
    match &grow[0] {
        Patch::AppendChildren { path, nodes } => {
            assert!(path.is_empty());
            assert_eq!(nodes.len(), 1);
            assert_eq!(nodes[0].tag, "span");
        }
        other => panic!("expected AppendChildren, got {:?}", other),
    }
    let shrink = diff_nodes(&b, &a);
    assert_eq!(
        shrink,
        vec![Patch::RemoveChildren { path: vec![], start: 1, end: 2 }]
    );
}

#[test]
fn apply_replays_a_diff() {
    let a = el(
        "div",
        vec![("class", s("a")), ("gone", s("g"))],
        vec![
            el("p", vec![("id", s("p1"))], vec![], false, 60, None),
            el("span", vec![], vec![], false, 60, None),
        ],
        false,
        60,
        None,
    );
    let b = el(
        "div",
        vec![("class", s("b")), ("fresh", Value::Num(7))],
        vec![
            el("p", vec![("id", s("p2"))], vec![], false, 60, None),
            el("em", vec![], vec![], false, 60, None),
            el("ul", vec![], vec![], false, 60, None),
        ],
        false,
        60,
        None,
    );
    let patches = diff_nodes(&a, &b);
    let mut live = a.clone_node();
    apply_patches(&patches, &mut live).unwrap();
    assert_eq!(live.props, b.props);
    assert_eq!(live.children.len(), 3);
    assert_eq!(live.children[0].props, b.children[0].props);
    assert_eq!(live.children[1].tag, "em");
    assert_eq!(live.children[2].tag, "ul");
}

#[test]
fn remove_children_range_is_checked() {
    let mut t = el("div", vec![], vec![], false, 60, None);
    let bad = Patch::RemoveChildren { path: vec![], start: 0, end: 5 };
    assert_eq!(bad.apply(&mut t), Err(ApplyError::RangeInvalid));
    assert_eq!(t, el("div", vec![], vec![], false, 60, None));
}

#[test]
fn bad_path_is_checked() {
    let mut t = el("div", vec![], vec![], false, 60, None);
    let bad = Patch::AddProp { path: vec![3], key: "k".to_string(), value: s("v") };
    assert_eq!(bad.apply(&mut t), Err(ApplyError::PathInvalid));
    assert_eq!(t, el("div", vec![], vec![], false, 60, None));
}

#[test]
fn apply_patches_stops_at_first_failure() {
    let mut t = el("div", vec![], vec![], false, 60, None);
    let patches = vec![
        Patch::AddProp { path: vec![], key: "a".to_string(), value: s("1") },
        Patch::RemoveChildren { path: vec![], start: 2, end: 1 },
        Patch::AddProp { path: vec![], key: "b".to_string(), value: s("2") },
    ];
    assert_eq!(apply_patches(&patches, &mut t), Err(ApplyError::RangeInvalid));
    // the first patch was applied, the failing one changed nothing
    assert_eq!(t.props.len(), 1);
    assert_eq!(t.props[0].0, "a");
}

#[test]
fn add_prop_overwrites_in_place() {
    let mut t = el("div", vec![("a", s("1")), ("b", s("2"))], vec![], false, 60, None);
    t.add_prop("a", s("9"));
    assert_eq!(t.props.len(), 2);
    assert_eq!(t.props[0], ("a".to_string(), Value::Str("9".to_string())));
    t.add_prop("c", s("3"));
    assert_eq!(t.props.len(), 3);
    assert_eq!(t.props[2].0, "c");
}

#[test]
fn add_child_appends() {
    let mut t = el("div", vec![], vec![], false, 60, None);
    t.add_child(el("p", vec![], vec![], false, 60, None));
    assert_eq!(t.children.len(), 1);
    assert_eq!(t.children[0].tag, "p");
}

#[test]
fn checked_diff_rejects_malformed_trees() {
    let dup = el("div", vec![("a", s("1")), ("a", s("2"))], vec![], false, 60, None);
    let ok_old = el("div", vec![("a", s("1"))], vec![], false, 60, None);
    let ok_new = el("div", vec![("a", s("2"))], vec![], false, 60, None);
    assert_eq!(diff_nodes_checked(&dup, &ok_new), Err(NodeError::MalformedTree));
    assert_eq!(diff_nodes_checked(&ok_old, &dup), Err(NodeError::MalformedTree));
    let checked = diff_nodes_checked(&ok_old, &ok_new).unwrap();
    assert_eq!(checked, diff_nodes(&ok_old, &ok_new));
}

#[test]
fn validate_rejects_duplicates() {
    let dup_props = el("div", vec![("a", s("1")), ("a", s("2"))], vec![], false, 60, None);
    assert!(!dup_props.validate());
    let dup_keys = el(
        "div",
        vec![],
        vec![
            el("p", vec![], vec![], false, 60, Some("k")),
            el("q", vec![], vec![], false, 60, Some("k")),
        ],
        false,
        60,
        None,
    );
    assert!(!dup_keys.validate());
    let ok = el(
        "div",
        vec![("a", s("1"))],
        vec![el("p", vec![], vec![], false, 60, Some("k"))],
        false,
        60,
        None,
    );
    assert!(ok.validate());
}
