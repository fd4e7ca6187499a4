//! The canonical serializable projection of a tree, for client hydration
//! payloads: handler-reference properties become boolean presence markers,
//! all other property kinds pass through, children recurse, and the identity
//! key is included when present.

use vstd::prelude::*;

use crate::node::{key_view, node_view, NodeV, VNode, Value, ValueV};

verus! {

/// A property value as it appears in a hydration payload.
#[derive(Debug, PartialEq)]
pub enum SerialValue {
    Str(String),
    Num(i64),
    Bool(bool),
}

/// Mathematical model of a `SerialValue`.
pub enum SerialValueV {
    Str(Seq<char>),
    Num(i64),
    Bool(bool),
}

impl View for SerialValue {
    type V = SerialValueV;

    open spec fn view(&self) -> SerialValueV {
        match self {
            SerialValue::Str(s) => SerialValueV::Str(s@),
            SerialValue::Num(x) => SerialValueV::Num(*x),
            SerialValue::Bool(b) => SerialValueV::Bool(*b),
        }
    }
}

/// A tree as it appears in a hydration payload.
#[derive(Debug, PartialEq)]
pub struct SerialNode {
    pub tag: String,
    pub props: Vec<(String, SerialValue)>,
    pub children: Vec<SerialNode>,
    pub key: Option<String>,
}

/// Mathematical model of a `SerialNode`.
#[verifier::ext_equal]
pub struct SerialNodeV {
    pub tag: Seq<char>,
    pub props: Seq<(Seq<char>, SerialValueV)>,
    pub children: Seq<SerialNodeV>,
    pub key: Option<Seq<char>>,
}

/// The views of a serial property list.
pub open spec fn serial_prop_views(props: Seq<(String, SerialValue)>) -> Seq<
    (Seq<char>, SerialValueV),
> {
    props.map(|i: int, p: (String, SerialValue)| (p.0@, p.1@))
}

/// The views of a serial child list.
pub open spec fn serial_children_views(cs: Seq<SerialNode>) -> Seq<SerialNodeV>
    decreases cs,
{
    Seq::new(
        cs.len(),
        |i: int|
            if 0 <= i < cs.len() {
                serial_node_view(cs[i])
            } else {
                arbitrary()
            },
    )
}

/// The view of a serial node.
pub open spec fn serial_node_view(n: SerialNode) -> SerialNodeV
    decreases n,
{
    SerialNodeV {
        tag: n.tag@,
        props: serial_prop_views(n.props@),
        children: serial_children_views(n.children@),
        key: key_view(n.key),
    }
}

impl View for SerialNode {
    type V = SerialNodeV;

    open spec fn view(&self) -> SerialNodeV {
        serial_node_view(*self)
    }
}

/// The projection of one property value: a handler reference becomes a
/// `true` presence marker, every other kind passes through.
pub open spec fn serial_value(v: ValueV) -> SerialValueV {
    match v {
        ValueV::Str(s) => SerialValueV::Str(s),
        ValueV::Num(x) => SerialValueV::Num(x),
        ValueV::Bool(b) => SerialValueV::Bool(b),
        ValueV::Handler(_) => SerialValueV::Bool(true),
    }
}

/// The projection of the properties from index `i` on.
pub open spec fn serial_props(props: Seq<(Seq<char>, ValueV)>) -> Seq<(Seq<char>, SerialValueV)> {
    props.map(|i: int, p: (Seq<char>, ValueV)| (p.0, serial_value(p.1)))
}

/// The projection of the children of `n` from index `j` on.
pub open spec fn serial_children(n: NodeV, j: int) -> Seq<SerialNodeV>
    decreases n, 0nat, n.children.len() - j,
{
    if j < 0 || j >= n.children.len() {
        Seq::empty()
    } else {
        seq![serial_node(n.children[j])] + serial_children(n, j + 1)
    }
}

/// The canonical serializable projection of a tree.
pub open spec fn serial_node(n: NodeV) -> SerialNodeV
    decreases n, 1nat, 0nat,
{
    SerialNodeV {
        tag: n.tag,
        props: serial_props(n.props),
        children: serial_children(n, 0),
        key: n.key,
    }
}

impl VNode {
    /// Builds the serializable projection of this tree.
    pub fn to_dict(&self) -> (r: SerialNode)
        ensures
            r@ == serial_node(self@),
        decreases *self,
    {
        let ghost n = self@;
        let mut props: Vec<(String, SerialValue)> = Vec::new();
        let mut i: usize = 0;
        while i < self.props.len()
            invariant
                i <= self.props.len(),
                n == self@,
                n.props.len() == self.props@.len(),
                props@.len() == i as int,
                serial_prop_views(props@) == serial_props(n.props).take(i as int),
            decreases self.props.len() - i,
        {
            proof {
                assert(n.props[i as int] == (self.props@[i as int].0@, self.props@[i as int].1@));
            }
            let p = &self.props[i];
            let sv = match &p.1 {
                Value::Str(s) => SerialValue::Str(s.clone()),
                Value::Num(x) => SerialValue::Num(*x),
                Value::Bool(b) => SerialValue::Bool(*b),
                Value::Handler(_) => SerialValue::Bool(true),
            };
            proof {
                assert(sv@ == serial_value(n.props[i as int].1));
            }
            props.push((p.0.clone(), sv));
            proof {
                assert(props@[i as int].0@ == n.props[i as int].0);
                assert(serial_prop_views(props@) =~= serial_props(n.props).take(i as int + 1));
            }
            i += 1;
        }
        let mut children: Vec<SerialNode> = Vec::new();
        let mut j: usize = 0;
        proof {
            assert(serial_children_views(children@) + serial_children(n, 0) =~= serial_children(
                n,
                0,
            ));
        }
        while j < self.children.len()
            invariant
                j <= self.children.len(),
                n == self@,
                n.children.len() == self.children@.len(),
                children@.len() == j as int,
                serial_children_views(children@) + serial_children(n, j as int)
                    == serial_children(n, 0),
            decreases self.children.len() - j,
        {
            let ghost pre = children@;
            proof {
                assert(n.children[j as int] == node_view(self.children@[j as int]));
            }
            let c = self.children[j].to_dict();
            children.push(c);
            proof {
                assert(serial_children_views(children@) =~= serial_children_views(pre).push(
                    serial_node(n.children[j as int]),
                ));
                assert(serial_children_views(pre).push(serial_node(n.children[j as int]))
                    + serial_children(n, j as int + 1) =~= serial_children_views(pre) + (seq![
                    serial_node(n.children[j as int])] + serial_children(n, j as int + 1)));
            }
            j += 1;
        }
        let key = match &self.key {
            Some(k) => Some(k.clone()),
            None => None,
        };
        let r = SerialNode { tag: self.tag.clone(), props, children, key };
        proof {
            assert(serial_children(n, n.children.len() as int) =~= Seq::<SerialNodeV>::empty());
            assert(serial_children_views(children@) + Seq::<SerialNodeV>::empty()
                =~= serial_children_views(children@));
            assert(serial_props(n.props).take(n.props.len() as int) =~= serial_props(n.props));
            assert(r@ =~= serial_node(n));
        }
        r
    }
}

} // verus!
