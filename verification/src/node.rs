//! The tree data model: property values, nodes, and their mathematical views.

use vstd::prelude::*;

verus! {

/// A property value attached to a node.
///
/// A `Handler` is an opaque reference to an event callback; it is resolved to
/// a stable token by an external registry at render time and is never
/// stringified directly.
#[derive(Debug, PartialEq)]
#[verifier::ext_equal]
pub enum Value {
    Str(String),
    Num(i64),
    Bool(bool),
    Handler(u64),
}

/// Mathematical model of a `Value`.
pub enum ValueV {
    Str(Seq<char>),
    Num(i64),
    Bool(bool),
    Handler(u64),
}

impl View for Value {
    type V = ValueV;

    open spec fn view(&self) -> ValueV {
        match self {
            Value::Str(s) => ValueV::Str(s@),
            Value::Num(n) => ValueV::Num(*n),
            Value::Bool(b) => ValueV::Bool(*b),
            Value::Handler(h) => ValueV::Handler(*h),
        }
    }
}

impl Clone for Value {
    fn clone(&self) -> (r: Self)
        ensures
            r == *self,
    {
        match self {
            Value::Str(s) => Value::Str(s.clone()),
            Value::Num(n) => Value::Num(*n),
            Value::Bool(b) => Value::Bool(*b),
            Value::Handler(h) => Value::Handler(*h),
        }
    }
}

/// Compares two values; equality of views is decided structurally.
pub fn value_eq(a: &Value, b: &Value) -> (r: bool)
    ensures
        r == (a@ == b@),
{
    match (a, b) {
        (Value::Str(x), Value::Str(y)) => *x == *y,
        (Value::Num(x), Value::Num(y)) => *x == *y,
        (Value::Bool(x), Value::Bool(y)) => *x == *y,
        (Value::Handler(x), Value::Handler(y)) => *x == *y,
        _ => false,
    }
}

/// A virtual tree node: an element kind (`tag`), an ordered property map,
/// ordered children owned exclusively by this node, an optional identity key,
/// a flag exempting the node from memoized rendering, and the lifetime in
/// seconds of a cached render of this node.
#[derive(Debug, PartialEq)]
#[verifier::ext_equal]
pub struct VNode {
    pub tag: String,
    pub props: Vec<(String, Value)>,
    pub children: Vec<VNode>,
    pub key: Option<String>,
    pub is_critical: bool,
    pub cache_duration_secs: u64,
}

/// Mathematical model of a `VNode`.
#[verifier::ext_equal]
pub struct NodeV {
    pub tag: Seq<char>,
    pub props: Seq<(Seq<char>, ValueV)>,
    pub children: Seq<NodeV>,
    pub key: Option<Seq<char>>,
    pub is_critical: bool,
    pub cache_duration_secs: u64,
}

/// The view of an ordered property list.
pub open spec fn prop_views(props: Seq<(String, Value)>) -> Seq<(Seq<char>, ValueV)> {
    props.map(|i: int, p: (String, Value)| (p.0@, p.1@))
}

/// The view of an optional identity key.
pub open spec fn key_view(key: Option<String>) -> Option<Seq<char>> {
    match key {
        Some(k) => Some(k@),
        None => None,
    }
}

/// The views of a list of children.
pub open spec fn children_views(cs: Seq<VNode>) -> Seq<NodeV>
    decreases cs,
{
    Seq::new(
        cs.len(),
        |i: int|
            if 0 <= i < cs.len() {
                node_view(cs[i])
            } else {
                arbitrary()
            },
    )
}

/// The view of a node, recursing into its children.
pub open spec fn node_view(n: VNode) -> NodeV
    decreases n,
{
    NodeV {
        tag: n.tag@,
        props: prop_views(n.props@),
        children: children_views(n.children@),
        key: key_view(n.key),
        is_critical: n.is_critical,
        cache_duration_secs: n.cache_duration_secs,
    }
}

impl View for VNode {
    type V = NodeV;

    open spec fn view(&self) -> NodeV {
        node_view(*self)
    }
}

/// The value bound to the first occurrence of `k` in an ordered property
/// list, if any.
pub open spec fn prop_lookup(props: Seq<(Seq<char>, ValueV)>, k: Seq<char>) -> Option<ValueV>
    decreases props.len(),
{
    if props.len() == 0 {
        None
    } else if props[0].0 == k {
        Some(props[0].1)
    } else {
        prop_lookup(props.drop_first(), k)
    }
}

/// Binds `k` to `v`: overwrites the first occurrence of `k` in place, or
/// appends `(k, v)` when `k` is absent.
pub open spec fn props_set(
    props: Seq<(Seq<char>, ValueV)>,
    k: Seq<char>,
    v: ValueV,
) -> Seq<(Seq<char>, ValueV)>
    decreases props.len(),
{
    if props.len() == 0 {
        seq![(k, v)]
    } else if props[0].0 == k {
        seq![(k, v)] + props.drop_first()
    } else {
        seq![props[0]] + props_set(props.drop_first(), k, v)
    }
}

/// Deletes every binding of `k`; a no-op when `k` is absent.
pub open spec fn props_remove(
    props: Seq<(Seq<char>, ValueV)>,
    k: Seq<char>,
) -> Seq<(Seq<char>, ValueV)>
    decreases props.len(),
{
    if props.len() == 0 {
        Seq::empty()
    } else if props[0].0 == k {
        props_remove(props.drop_first(), k)
    } else {
        seq![props[0]] + props_remove(props.drop_first(), k)
    }
}

/// No two properties share a key.
pub open spec fn keys_unique(props: Seq<(Seq<char>, ValueV)>) -> bool {
    forall|i: int, j: int|
        0 <= i < j < props.len() ==> (#[trigger] props[i]).0 != (#[trigger] props[j]).0
}

/// No two siblings carry the same identity key.
pub open spec fn sibling_keys_unique(children: Seq<NodeV>) -> bool {
    forall|i: int, j: int|
        0 <= i < j < children.len() ==> !((#[trigger] children[i]).key is Some
            && children[i].key == (#[trigger] children[j]).key)
}

/// Well-formedness of a tree: tags are non-empty, property keys are unique,
/// and sibling identity keys are unique, recursively.
pub open spec fn wf(n: NodeV) -> bool
    decreases n,
{
    &&& n.tag.len() > 0
    &&& keys_unique(n.props)
    &&& sibling_keys_unique(n.children)
    &&& forall|i: int| 0 <= i < n.children.len() ==> wf(#[trigger] n.children[i])
}

/// Error raised when a tree breaks the data model's rules: construction with
/// an empty tag, or a checked operation handed a tree with duplicate
/// property keys or duplicate sibling identity keys.
#[derive(Debug, Clone, Copy, PartialEq, Eq, Structural)]
pub enum NodeError {
    EmptyTag,
    MalformedTree,
}

impl VNode {
    /// Constructs a node. The only validation performed here is that the tag
    /// is non-empty; duplicate keys and the like are checked at diff/render
    /// time so that trees can be built incrementally.
    pub fn new(
        tag: String,
        props: Vec<(String, Value)>,
        children: Vec<VNode>,
        is_critical: bool,
        cache_duration_secs: u64,
        key: Option<String>,
    ) -> (r: Result<VNode, NodeError>)
        ensures
            tag@.len() > 0 ==> (r matches Ok(n) && n@ == (NodeV {
                tag: tag@,
                props: prop_views(props@),
                children: children_views(children@),
                key: key_view(key),
                is_critical,
                cache_duration_secs,
            })),
            tag@.len() == 0 ==> (r matches Err(e) && e == NodeError::EmptyTag),
    {
        if tag.as_str().is_empty() {
            Err(NodeError::EmptyTag)
        } else {
            Ok(
                VNode {
                    tag,
                    props,
                    children,
                    key,
                    is_critical,
                    cache_duration_secs,
                },
            )
        }
    }

    /// Creates a deep copy of this node.
    pub fn clone_node(&self) -> (r: VNode)
        ensures
            r@ == self@,
        decreases *self,
    {
        let mut props: Vec<(String, Value)> = Vec::new();
        let mut i: usize = 0;
        while i < self.props.len()
            invariant
                i <= self.props.len(),
                props@.len() == i as int,
                forall|j: int| 0 <= j < i as int ==> props@[j] == self.props@[j],
            decreases self.props.len() - i,
        {
            let p = &self.props[i];
            props.push((p.0.clone(), p.1.clone()));
            i += 1;
        }
        let mut children: Vec<VNode> = Vec::new();
        let mut i: usize = 0;
        while i < self.children.len()
            invariant
                i <= self.children.len(),
                children@.len() == i as int,
                forall|j: int| 0 <= j < i as int ==> node_view(#[trigger] children@[j]) == node_view(
                    self.children@[j],
                ),
            decreases self.children.len() - i,
        {
            children.push(self.children[i].clone_node());
            i += 1;
        }
        let key = match &self.key {
            Some(k) => Some(k.clone()),
            None => None,
        };
        let r = VNode {
            tag: self.tag.clone(),
            props,
            children,
            key,
            is_critical: self.is_critical,
            cache_duration_secs: self.cache_duration_secs,
        };
        proof {
            assert(props@ =~= self.props@);
            assert(children_views(children@) =~= children_views(self.children@));
            assert(r@ =~= self@);
        }
        r
    }

    }

impl Clone for VNode {
    fn clone(&self) -> (r: Self)
        ensures
            r@ == self@,
    {
        self.clone_node()
    }
}

impl VNode {
    /// Appends a child, preserving the order of the existing children.
    pub fn add_child(&mut self, child: VNode)
        ensures
            final(self)@ == (NodeV { children: old(self)@.children.push(child@), ..old(self)@ }),
    {
        self.children.push(child);
        proof {
            assert(children_views(self.children@) =~= children_views(
                old(self).children@,
            ).push(child@));
            assert(final(self)@ =~= (NodeV {
                children: old(self)@.children.push(child@),
                ..old(self)@
            }));
        }
    }

    /// Binds a property: overwrites the first binding of `key` in place, or
    /// appends the pair when `key` is absent.
    pub fn add_prop(&mut self, key: &str, value: Value)
        ensures
            final(self)@ == (NodeV {
                props: props_set(old(self)@.props, key@, value@),
                ..old(self)@
            }),
    {
        let k = key.to_owned();
        let i = find_prop_key(&self.props, &k);
        if i < self.props.len() {
            let ghost old_props = self.props@;
            self.props[i] = (k, value);
            proof {
                lemma_props_set_at(prop_views(old_props), key@, value@, i as int);
                assert(prop_views(self.props@) =~= prop_views(old_props).update(
                    i as int,
                    (key@, value@),
                ));
                assert(final(self)@ =~= (NodeV {
                    props: props_set(old(self)@.props, key@, value@),
                    ..old(self)@
                }));
            }
        } else {
            self.props.push((k, value));
            proof {
                lemma_props_set_absent(prop_views(old(self).props@), key@, value@);
                assert(prop_views(self.props@) =~= prop_views(old(self).props@).push(
                    (key@, value@),
                ));
                assert(final(self)@ =~= (NodeV {
                    props: props_set(old(self)@.props, key@, value@),
                    ..old(self)@
                }));
            }
        }
    }
}

/// The index of the first binding of `k` in `props`, or `props.len()` when
/// `k` is absent.
pub fn find_prop_key(props: &Vec<(String, Value)>, k: &String) -> (r: usize)
    ensures
        r <= props@.len(),
        forall|j: int| 0 <= j < r as int ==> (#[trigger] props@[j]).0@ != k@,
        r < props@.len() ==> props@[r as int].0@ == k@,
{
    let mut i: usize = 0;
    while i < props.len()
        invariant
            i <= props.len(),
            forall|j: int| 0 <= j < i as int ==> (#[trigger] props@[j]).0@ != k@,
        decreases props.len() - i,
    {
        if props[i].0 == *k {
            return i;
        }
        i += 1;
    }
    i
}

/// When `k` first occurs at index `i`, binding `k` overwrites index `i` in
/// place.
pub proof fn lemma_props_set_at(props: Seq<(Seq<char>, ValueV)>, k: Seq<char>, v: ValueV, i: int)
    requires
        0 <= i < props.len(),
        props[i].0 == k,
        forall|j: int| 0 <= j < i ==> (#[trigger] props[j]).0 != k,
    ensures
        props_set(props, k, v) == props.update(i, (k, v)),
    decreases i,
{
    if i == 0 {
        assert(props_set(props, k, v) =~= props.update(0, (k, v)));
    } else {
        lemma_props_set_at(props.drop_first(), k, v, i - 1);
        assert(props.drop_first()[i - 1].0 == k);
        assert(props_set(props, k, v) =~= props.update(i, (k, v)));
    }
}

/// When `k` is absent, binding `k` appends the pair.
pub proof fn lemma_props_set_absent(props: Seq<(Seq<char>, ValueV)>, k: Seq<char>, v: ValueV)
    requires
        forall|j: int| 0 <= j < props.len() ==> (#[trigger] props[j]).0 != k,
    ensures
        props_set(props, k, v) == props.push((k, v)),
    decreases props.len(),
{
    if props.len() == 0 {
        assert(props_set(props, k, v) =~= props.push((k, v)));
    } else {
        lemma_props_set_absent(props.drop_first(), k, v);
        assert(props_set(props, k, v) =~= props.push((k, v)));
    }
}

impl VNode {
    /// Decides well-formedness: a non-empty tag, unique property keys and
    /// unique sibling identity keys, recursively. Trees that fail this check
    /// may be diffed, but the differ's laws are stated for well-formed trees.
    pub fn validate(&self) -> (r: bool)
        ensures
            r == wf(self@),
        decreases *self,
    {
        let ghost n = self@;
        if self.tag.as_str().is_empty() {
            return false;
        }
        let mut i: usize = 0;
        while i < self.props.len()
            invariant
                i <= self.props.len(),
                n == self@,
                n.props.len() == self.props@.len(),
                forall|a: int, b: int| 0 <= a < b < n.props.len() && a < i as int ==> (
                #[trigger] n.props[a]).0 != (#[trigger] n.props[b]).0,
            decreases self.props.len() - i,
        {
            let mut j: usize = i + 1;
            while j < self.props.len()
                invariant
                    i < j <= self.props.len(),
                    n == self@,
                    n.props.len() == self.props@.len(),
                    forall|b: int| i < b < j as int ==> (#[trigger] n.props[b]).0 != n.props[
                        i as int].0,
                decreases self.props.len() - j,
            {
                if self.props[j].0 == self.props[i].0 {
                    proof {
                        assert(n.props[i as int].0 == n.props[j as int].0);
                        assert(!keys_unique(n.props));
                    }
                    return false;
                }
                j += 1;
            }
            i += 1;
        }
        let mut i: usize = 0;
        while i < self.children.len()
            invariant
                i <= self.children.len(),
                n == self@,
                n.children.len() == self.children@.len(),
                forall|a: int, b: int| 0 <= a < b < n.children.len() && a < i as int ==> !((
                #[trigger] n.children[a]).key is Some && n.children[a].key == (
                #[trigger] n.children[b]).key),
            decreases self.children.len() - i,
        {
            proof {
                assert(n.children[i as int] == node_view(self.children@[i as int]));
            }
            let keyed = match &self.children[i].key {
                Some(_) => true,
                None => false,
            };
            if keyed {
                let mut j: usize = i + 1;
                while j < self.children.len()
                    invariant
                        i < j <= self.children.len(),
                        n == self@,
                        n.children.len() == self.children@.len(),
                        n.children[i as int].key is Some,
                        forall|b: int| i < b < j as int ==> n.children[i as int].key != (
                        #[trigger] n.children[b]).key,
                    decreases self.children.len() - j,
                {
                    proof {
                        assert(n.children[i as int] == node_view(self.children@[i as int]));
                        assert(n.children[j as int] == node_view(self.children@[j as int]));
                    }
                    if opt_key_eq(&self.children[i].key, &self.children[j].key) {
                        proof {
                            assert(n.children[i as int].key == n.children[j as int].key);
                            assert(!sibling_keys_unique(n.children));
                        }
                        return false;
                    }
                    j += 1;
                }
            }
            i += 1;
        }
        let mut i: usize = 0;
        while i < self.children.len()
            invariant
                i <= self.children.len(),
                n == self@,
                n.children.len() == self.children@.len(),
                forall|a: int| 0 <= a < i as int ==> wf(#[trigger] n.children[a]),
            decreases self.children.len() - i,
        {
            if !self.children[i].validate() {
                proof {
                    assert(!wf(n.children[i as int]));
                }
                return false;
            }
            i += 1;
        }
        true
    }
}

/// Compares two optional keys; equality of views is decided structurally.
fn opt_key_eq(a: &Option<String>, b: &Option<String>) -> (r: bool)
    ensures
        r == (key_view(*a) == key_view(*b)),
{
    match (a, b) {
        (Some(x), Some(y)) => *x == *y,
        (None, None) => true,
        _ => false,
    }
}

/// Structural equality of two trees, deciding equality of their views.
pub fn node_eq(a: &VNode, b: &VNode) -> (r: bool)
    ensures
        r == (a@ == b@),
    decreases *a,
{
    if !(a.tag == b.tag) {
        return false;
    }
    if !opt_key_eq(&a.key, &b.key) {
        return false;
    }
    if a.is_critical != b.is_critical || a.cache_duration_secs != b.cache_duration_secs {
        return false;
    }
    if a.props.len() != b.props.len() {
        proof {
            assert(a@.props.len() != b@.props.len());
        }
        return false;
    }
    let mut i: usize = 0;
    while i < a.props.len()
        invariant
            i <= a.props.len(),
            a.props@.len() == b.props@.len(),
            forall|j: int| 0 <= j < i as int ==> prop_views(a.props@)[j] == prop_views(b.props@)[j],
        decreases a.props.len() - i,
    {
        if !(a.props[i].0 == b.props[i].0) || !value_eq(&a.props[i].1, &b.props[i].1) {
            proof {
                assert(prop_views(a.props@)[i as int] != prop_views(b.props@)[i as int]);
            }
            return false;
        }
        i += 1;
    }
    if a.children.len() != b.children.len() {
        proof {
            assert(a@.children.len() != b@.children.len());
        }
        return false;
    }
    let mut i: usize = 0;
    while i < a.children.len()
        invariant
            i <= a.children.len(),
            a.children@.len() == b.children@.len(),
            forall|j: int| 0 <= j < i as int ==> node_view(#[trigger] a.children@[j]) == node_view(
                b.children@[j],
            ),
        decreases a.children.len() - i,
    {
        if !node_eq(&a.children[i], &b.children[i]) {
            proof {
                assert(children_views(a.children@)[i as int] != children_views(
                    b.children@,
                )[i as int]);
            }
            return false;
        }
        i += 1;
    }
    proof {
        assert(a@.props =~= b@.props);
        assert forall|j: int| 0 <= j < a@.children.len() implies a@.children[j] == b@.children[j] by {
            assert(node_view(a.children@[j]) == node_view(b.children@[j]));
        }
        assert(a@.children =~= b@.children);
        assert(a@ =~= b@);
    }
    true
}

} // verus!
