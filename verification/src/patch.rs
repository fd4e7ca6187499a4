//! Patches: serializable structural and attribute changes between two tree
//! states, and their application to a live tree.

use vstd::prelude::*;

use crate::node::{
    children_views, node_view, prop_views, props_remove, props_set, NodeV, VNode, Value, ValueV,
};

verus! {

/// One change to a tree. `path` addresses the target node as a sequence of
/// child indices from the root of the tree the patch is applied to, valid at
/// the moment this patch is applied (patch lists are ordered; order of
/// application matters).
#[derive(Debug, PartialEq)]
pub enum Patch {
    AddProp { path: Vec<usize>, key: String, value: Value },
    UpdateProp { path: Vec<usize>, key: String, value: Value },
    RemoveProp { path: Vec<usize>, key: String },
    ReplaceNode { path: Vec<usize>, node: VNode },
    AppendChildren { path: Vec<usize>, nodes: Vec<VNode> },
    RemoveChildren { path: Vec<usize>, start: usize, end: usize },
}

/// Mathematical model of a `Patch`.
pub enum PatchV {
    AddProp { path: Seq<usize>, key: Seq<char>, value: ValueV },
    UpdateProp { path: Seq<usize>, key: Seq<char>, value: ValueV },
    RemoveProp { path: Seq<usize>, key: Seq<char> },
    ReplaceNode { path: Seq<usize>, node: NodeV },
    AppendChildren { path: Seq<usize>, nodes: Seq<NodeV> },
    RemoveChildren { path: Seq<usize>, start: usize, end: usize },
}

impl View for Patch {
    type V = PatchV;

    open spec fn view(&self) -> PatchV {
        match self {
            Patch::AddProp { path, key, value } => PatchV::AddProp {
                path: path@,
                key: key@,
                value: value@,
            },
            Patch::UpdateProp { path, key, value } => PatchV::UpdateProp {
                path: path@,
                key: key@,
                value: value@,
            },
            Patch::RemoveProp { path, key } => PatchV::RemoveProp { path: path@, key: key@ },
            Patch::ReplaceNode { path, node } => PatchV::ReplaceNode {
                path: path@,
                node: node@,
            },
            Patch::AppendChildren { path, nodes } => PatchV::AppendChildren {
                path: path@,
                nodes: children_views(nodes@),
            },
            Patch::RemoveChildren { path, start, end } => PatchV::RemoveChildren {
                path: path@,
                start: *start,
                end: *end,
            },
        }
    }
}

/// The views of an ordered patch list.
pub open spec fn patch_views(ps: Seq<Patch>) -> Seq<PatchV> {
    ps.map(|i: int, p: Patch| p@)
}

/// The target path of a patch.
pub open spec fn patchv_path(p: PatchV) -> Seq<usize> {
    match p {
        PatchV::AddProp { path, .. } => path,
        PatchV::UpdateProp { path, .. } => path,
        PatchV::RemoveProp { path, .. } => path,
        PatchV::ReplaceNode { path, .. } => path,
        PatchV::AppendChildren { path, .. } => path,
        PatchV::RemoveChildren { path, .. } => path,
    }
}

/// Error raised when a patch does not fit the tree it is applied to: the
/// tree has drifted from the state the patch was computed against.
#[derive(Debug, Clone, Copy, PartialEq, Eq, Structural)]
pub enum ApplyError {
    /// The patch path names a child index that does not exist.
    PathInvalid,
    /// A `RemoveChildren` range exceeds the current children list.
    RangeInvalid,
}

/// Applies the operation of `p` to the root of `t`; the path of `p` is
/// ignored here.
pub open spec fn apply_op_v(t: NodeV, p: PatchV) -> Result<NodeV, ApplyError> {
    match p {
        PatchV::AddProp { key, value, .. } => Ok(
            NodeV { props: props_set(t.props, key, value), ..t },
        ),
        PatchV::UpdateProp { key, value, .. } => Ok(
            NodeV { props: props_set(t.props, key, value), ..t },
        ),
        PatchV::RemoveProp { key, .. } => Ok(NodeV { props: props_remove(t.props, key), ..t }),
        PatchV::ReplaceNode { node, .. } => Ok(node),
        PatchV::AppendChildren { nodes, .. } => Ok(NodeV { children: t.children + nodes, ..t }),
        PatchV::RemoveChildren { start, end, .. } => if start <= end && end
            <= t.children.len() {
            Ok(
                NodeV {
                    children: t.children.subrange(0, start as int) + t.children.subrange(
                        end as int,
                        t.children.len() as int,
                    ),
                    ..t
                },
            )
        } else {
            Err(ApplyError::RangeInvalid)
        },
    }
}

/// Applies the operation of `p` to the node of `t` addressed by `path`.
pub open spec fn apply_at_v(t: NodeV, path: Seq<usize>, p: PatchV) -> Result<NodeV, ApplyError>
    decreases path.len(),
{
    if path.len() == 0 {
        apply_op_v(t, p)
    } else {
        let i = path[0] as int;
        if i < t.children.len() {
            match apply_at_v(t.children[i], path.drop_first(), p) {
                Ok(c) => Ok(NodeV { children: t.children.update(i, c), ..t }),
                Err(e) => Err(e),
            }
        } else {
            Err(ApplyError::PathInvalid)
        }
    }
}

/// Applies one patch at its own path.
pub open spec fn apply_patch_v(t: NodeV, p: PatchV) -> Result<NodeV, ApplyError> {
    apply_at_v(t, patchv_path(p), p)
}

/// Applies an ordered patch list, left to right; the first failure aborts.
pub open spec fn apply_list_v(t: NodeV, ps: Seq<PatchV>) -> Result<NodeV, ApplyError>
    decreases ps.len(),
{
    if ps.len() == 0 {
        Ok(t)
    } else {
        match apply_patch_v(t, ps[0]) {
            Ok(t2) => apply_list_v(t2, ps.drop_first()),
            Err(e) => Err(e),
        }
    }
}

/// Splitting a patch list splits its application.
pub proof fn lemma_apply_list_split(t: NodeV, ps: Seq<PatchV>, i: int)
    requires
        0 <= i <= ps.len(),
    ensures
        apply_list_v(t, ps) == (match apply_list_v(t, ps.take(i)) {
            Ok(u) => apply_list_v(u, ps.skip(i)),
            Err(e) => Err(e),
        }),
    decreases i,
{
    if i == 0 {
        assert(ps.take(0) =~= Seq::empty());
        assert(ps.skip(0) =~= ps);
    } else {
        assert(ps.take(i)[0] == ps[0]);
        match apply_patch_v(t, ps[0]) {
            Ok(t2) => {
                lemma_apply_list_split(t2, ps.drop_first(), i - 1);
                assert(ps.take(i).drop_first() =~= ps.drop_first().take(i - 1));
                assert(ps.skip(i) =~= ps.drop_first().skip(i - 1));
            },
            Err(e) => {},
        }
    }
}

impl Patch {
    /// The target path of this patch.
    fn path_ref(&self) -> (r: &Vec<usize>)
        ensures
            r@ == patchv_path(self@),
    {
        match self {
            Patch::AddProp { path, .. } => path,
            Patch::UpdateProp { path, .. } => path,
            Patch::RemoveProp { path, .. } => path,
            Patch::ReplaceNode { path, .. } => path,
            Patch::AppendChildren { path, .. } => path,
            Patch::RemoveChildren { path, .. } => path,
        }
    }
}

/// Decides whether `p` fits the subtree of `node`, descending from `depth`
/// into the patch path; reports the exact failure when it does not.
fn check_patch_at(node: &VNode, p: &Patch, depth: usize) -> (r: Result<(), ApplyError>)
    requires
        depth <= patchv_path(p@).len(),
    ensures
        (r is Ok <==> apply_at_v(node@, patchv_path(p@).skip(depth as int), p@) is Ok),
        r matches Err(e) ==> apply_at_v(node@, patchv_path(p@).skip(depth as int), p@) matches Err(
            e2,
        ) && e == e2,
    decreases patchv_path(p@).len() - depth,
{
    let path = p.path_ref();
    let ghost rest = patchv_path(p@).skip(depth as int);
    if depth < path.len() {
        let i = path[depth];
        proof {
            assert(rest[0] == patchv_path(p@)[depth as int]);
        }
        if i < node.children.len() {
            let r = check_patch_at(&node.children[i], p, depth + 1);
            proof {
                assert(rest.drop_first() =~= patchv_path(p@).skip(depth as int + 1));
            }
            r
        } else {
            proof {
                assert(node@.children.len() == node.children@.len());
            }
            Err(ApplyError::PathInvalid)
        }
    } else {
        proof {
            assert(rest.len() == 0);
        }
        match p {
            Patch::RemoveChildren { start, end, .. } => {
                if *start <= *end && *end <= node.children.len() {
                    Ok(())
                } else {
                    proof {
                        assert(node@.children.len() == node.children@.len());
                    }
                    Err(ApplyError::RangeInvalid)
                }
            },
            _ => Ok(()),
        }
    }
}

/// A placeholder node used while a tree is temporarily moved out of a
/// mutable reference.
fn trivial_node() -> VNode {
    VNode {
        tag: String::new(),
        props: Vec::new(),
        children: Vec::new(),
        key: None,
        is_critical: false,
        cache_duration_secs: 0,
    }
}

/// A copy of `props` without any binding of `k`.
fn props_without_key(props: &Vec<(String, Value)>, k: &String) -> (r: Vec<(String, Value)>)
    ensures
        prop_views(r@) == props_remove(prop_views(props@), k@),
{
    let mut r: Vec<(String, Value)> = Vec::new();
    let mut i: usize = 0;
    proof {
        assert(prop_views(props@.take(0)) =~= Seq::empty());
        assert(prop_views(r@) =~~= props_remove(prop_views(props@.take(0)), k@));
    }
    while i < props.len()
        invariant
            i <= props.len(),
            prop_views(r@) == props_remove(prop_views(props@.take(i as int)), k@),
        decreases props.len() - i,
    {
        let keep = !(props[i].0 == *k);
        proof {
            lemma_props_remove_snoc(prop_views(props@.take(i as int)), (props@[i as int].0@, props@[i as int].1@), k@);
            assert(prop_views(props@.take(i as int + 1)) =~~= prop_views(props@.take(i as int)).push(
                (props@[i as int].0@, props@[i as int].1@),
            ));
        }
        if keep {
            r.push((props[i].0.clone(), props[i].1.clone()));
            proof {
                assert(prop_views(r@) =~~= props_remove(prop_views(props@.take(i as int + 1)), k@));
            }
        } else {
            proof {
                assert(prop_views(r@) =~~= props_remove(prop_views(props@.take(i as int + 1)), k@));
            }
        }
        i += 1;
    }
    proof {
        assert(props@.take(props@.len() as int) =~= props@);
    }
    r
}

/// Removing a key distributes over appending one property.
proof fn lemma_props_remove_snoc(
    s: Seq<(Seq<char>, ValueV)>,
    x: (Seq<char>, ValueV),
    k: Seq<char>,
)
    ensures
        props_remove(s.push(x), k) == if x.0 == k {
            props_remove(s, k)
        } else {
            props_remove(s, k).push(x)
        },
    decreases s.len(),
{
    if s.len() == 0 {
        assert(s.push(x).drop_first() =~= Seq::<(Seq<char>, ValueV)>::empty());
        assert(props_remove(Seq::<(Seq<char>, ValueV)>::empty(), k) == Seq::<
            (Seq<char>, ValueV),
        >::empty());
        assert(props_remove(s, k) == Seq::<(Seq<char>, ValueV)>::empty());
        if x.0 == k {
            assert(props_remove(s.push(x), k) =~~= props_remove(s, k));
        } else {
            assert(props_remove(s.push(x), k) =~~= props_remove(s, k).push(x));
        }
    } else {
        lemma_props_remove_snoc(s.drop_first(), x, k);
        assert(s.push(x).drop_first() =~= s.drop_first().push(x));
        if x.0 == k {
            assert(props_remove(s.push(x), k) =~~= props_remove(s, k));
        } else {
            assert(props_remove(s.push(x), k) =~~= props_remove(s, k).push(x));
        }
    }
}

/// Applies the operation of `p` beneath `node`, descending from `depth` into
/// the patch path. The patch is known to fit.
fn apply_owned(node: VNode, p: &Patch, depth: usize) -> (r: VNode)
    requires
        depth <= patchv_path(p@).len(),
        apply_at_v(node@, patchv_path(p@).skip(depth as int), p@) is Ok,
    ensures
        Ok::<NodeV, ApplyError>(r@) == apply_at_v(
            node@,
            patchv_path(p@).skip(depth as int),
            p@,
        ),
    decreases patchv_path(p@).len() - depth,
{
    let ghost rest = patchv_path(p@).skip(depth as int);
    let ghost t0 = node@;
    let path_len = p.path_ref().len();
    if depth < path_len {
        let i = p.path_ref()[depth];
        proof {
            assert(rest[0] == patchv_path(p@)[depth as int]);
            assert((i as int) < t0.children.len());
            assert(t0.children.len() == node.children@.len());
            assert(rest.drop_first() =~= patchv_path(p@).skip(depth as int + 1));
        }
        let mut node = node;
        let ghost cs0 = node.children@;
        let child = node.children.remove(i);
        proof {
            assert(child@ == t0.children[i as int]);
            assert(apply_at_v(child@, patchv_path(p@).skip(depth as int + 1), p@) is Ok);
        }
        let child2 = apply_owned(child, p, depth + 1);
        node.children.insert(i, child2);
        proof {
            assert(node.children@ =~= cs0.update(i as int, child2));
            let c = apply_at_v(t0.children[i as int], rest.drop_first(), p@)->Ok_0;
            assert(children_views(node.children@) =~= t0.children.update(i as int, c));
            assert(node@ =~= (NodeV { children: t0.children.update(i as int, c), ..t0 }));
        }
        node
    } else {
        proof {
            assert(rest.len() == 0);
        }
        match p {
            Patch::AddProp { key, value, .. } => {
                let mut node = node;
                node.add_prop(key.as_str(), value.clone());
                node
            },
            Patch::UpdateProp { key, value, .. } => {
                let mut node = node;
                node.add_prop(key.as_str(), value.clone());
                node
            },
            Patch::RemoveProp { key, .. } => {
                let mut node = node;
                let pruned = props_without_key(&node.props, key);
                node.props = pruned;
                proof {
                    assert(node@ =~= (NodeV { props: props_remove(t0.props, key@), ..t0 }));
                }
                node
            },
            Patch::ReplaceNode { node: n, .. } => n.clone_node(),
            Patch::AppendChildren { nodes, .. } => {
                let mut node = node;
                let ghost n0 = node;
                let mut i: usize = 0;
                while i < nodes.len()
                    invariant
                        i <= nodes.len(),
                        node.tag == n0.tag,
                        node.props == n0.props,
                        node.key == n0.key,
                        node.is_critical == n0.is_critical,
                        node.cache_duration_secs == n0.cache_duration_secs,
                        node.children@.len() == n0.children@.len() + i as int,
                        node.children@.subrange(0, n0.children@.len() as int) =~= n0.children@,
                        forall|j: int| n0.children@.len() <= j < node.children@.len()
                            ==> node_view(#[trigger] node.children@[j]) == node_view(
                            nodes@[j - n0.children@.len()],
                        ),
                    decreases nodes.len() - i,
                {
                    node.children.push(nodes[i].clone_node());
                    i += 1;
                }
                proof {
                    assert(children_views(node.children@) =~= t0.children + children_views(
                        nodes@,
                    ));
                    assert(node@ =~= (NodeV {
                        children: t0.children + children_views(nodes@),
                        ..t0
                    }));
                }
                node
            },
            Patch::RemoveChildren { start, end, .. } => {
                let mut node = node;
                let ghost n0 = node;
                let ghost cs0 = node.children@;
                let mut j: usize = 0;
                while j < *end - *start
                    invariant
                        j <= *end - *start,
                        *start <= *end <= cs0.len(),
                        node.tag == n0.tag,
                        node.props == n0.props,
                        node.key == n0.key,
                        node.is_critical == n0.is_critical,
                        node.cache_duration_secs == n0.cache_duration_secs,
                        node.children@ =~= cs0.subrange(0, *start as int) + cs0.subrange(
                            *start as int + j as int,
                            cs0.len() as int,
                        ),
                    decreases *end - *start - j,
                {
                    node.children.remove(*start);
                    j += 1;
                }
                proof {
                    assert(children_views(node.children@) =~= t0.children.subrange(
                        0,
                        *start as int,
                    ) + t0.children.subrange(*end as int, t0.children.len() as int));
                    assert(node@ =~= (NodeV {
                        children: t0.children.subrange(0, *start as int)
                            + t0.children.subrange(*end as int, t0.children.len() as int),
                        ..t0
                    }));
                }
                node
            },
        }
    }
}

impl Patch {
    /// Applies this patch to `node`. On failure the tree is unchanged and
    /// the error names the precondition that was violated.
    pub fn apply(&self, node: &mut VNode) -> (r: Result<(), ApplyError>)
        ensures
            (r is Ok <==> apply_patch_v(old(node)@, self@) is Ok),
            r is Ok ==> apply_patch_v(old(node)@, self@) == Ok::<NodeV, ApplyError>(
                final(node)@,
            ),
            r matches Err(e) ==> apply_patch_v(old(node)@, self@) matches Err(e2) && e == e2
                && final(node)@ == old(node)@,
    {
        proof {
            assert(patchv_path(self@).skip(0) =~= patchv_path(self@));
        }
        match check_patch_at(node, self, 0) {
            Err(e) => Err(e),
            Ok(()) => {
                let mut tmp = trivial_node();
                core::mem::swap(node, &mut tmp);
                let newn = apply_owned(tmp, self, 0);
                *node = newn;
                Ok(())
            },
        }
    }
}

/// Applies an ordered patch list to `tree`, left to right. On failure the
/// patches before the failing one have been applied and the failing one has
/// changed nothing.
pub fn apply_patches(patches: &Vec<Patch>, tree: &mut VNode) -> (r: Result<(), ApplyError>)
    ensures
        (r is Ok <==> apply_list_v(old(tree)@, patch_views(patches@)) is Ok),
        r is Ok ==> apply_list_v(old(tree)@, patch_views(patches@)) == Ok::<NodeV, ApplyError>(
            final(tree)@,
        ),
        r matches Err(e) ==> apply_list_v(old(tree)@, patch_views(patches@)) matches Err(e2) && e
            == e2,
        r matches Err(e) ==> exists|i: int|
            0 <= i < patches@.len() && apply_list_v(
                old(tree)@,
                patch_views(patches@).take(i),
            ) == Ok::<NodeV, ApplyError>(final(tree)@) && (apply_patch_v(
                final(tree)@,
                patch_views(patches@)[i],
            ) matches Err(e2) && e == e2),
{
    let ghost ps = patch_views(patches@);
    let mut i: usize = 0;
    proof {
        assert(ps.take(0) =~= Seq::empty());
    }
    while i < patches.len()
        invariant
            i <= patches.len(),
            ps == patch_views(patches@),
            apply_list_v(old(tree)@, ps.take(i as int)) == Ok::<NodeV, ApplyError>(tree@),
        decreases patches.len() - i,
    {
        let ghost before = tree@;
        let r = patches[i].apply(tree);
        match r {
            Err(e) => {
                proof {
                    lemma_apply_list_split(old(tree)@, ps, i as int);
                    assert(ps.skip(i as int)[0] == ps[i as int]);
                }
                return Err(e);
            },
            Ok(()) => {
                proof {
                    assert(ps[i as int] == patches@[i as int]@);
                    lemma_apply_list_split(old(tree)@, ps.take(i as int + 1), i as int);
                    assert(ps.take(i as int + 1).take(i as int) =~= ps.take(i as int));
                    assert(ps.take(i as int + 1).skip(i as int) =~= seq![ps[i as int]]);
                    assert(seq![ps[i as int]].drop_first() =~= Seq::<PatchV>::empty());
                    assert(seq![ps[i as int]][0] == ps[i as int]);
                    assert(apply_list_v(tree@, Seq::<PatchV>::empty()) == Ok::<NodeV, ApplyError>(
                        tree@,
                    ));
                    assert(apply_list_v(before, seq![ps[i as int]]) == Ok::<NodeV, ApplyError>(
                        tree@,
                    ));
                }
            },
        }
        i += 1;
    }
    proof {
        assert(ps.take(patches@.len() as int) =~= ps);
    }
    Ok(())
}

} // verus!
