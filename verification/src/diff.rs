//! The differ: given an old and a new node occupying the same tree position,
//! produces the ordered patch list that moves the old tree to the new one.
//!
//! Children are matched by identity key where one is present and a matching
//! old child exists, and positionally otherwise; key matching applies within
//! the old list's index range, while new children beyond the old list's
//! length are appended as authored. Reordering unkeyed siblings can
//! misattribute identity; that is an accepted limitation of positional
//! matching, not a defect.

use vstd::prelude::*;

use crate::node::{
    children_views, find_prop_key, node_eq, node_view, prop_lookup, prop_views, value_eq, wf,
    NodeError, NodeV, VNode, ValueV,
};
use crate::patch::{patch_views, patchv_path, Patch, PatchV};

verus! {

/// The first index at or after `j` whose child carries the identity key `k`.
pub open spec fn find_keyed_from(cs: Seq<NodeV>, k: Seq<char>, j: int) -> Option<int>
    decreases cs.len() - j,
{
    if j < 0 || j >= cs.len() {
        None
    } else if cs[j].key == Some(k) {
        Some(j)
    } else {
        find_keyed_from(cs, k, j + 1)
    }
}

/// The first index whose child carries the identity key `k`.
pub open spec fn find_keyed(cs: Seq<NodeV>, k: Seq<char>) -> Option<int> {
    find_keyed_from(cs, k, 0)
}

/// The old child that the new child at index `j` is diffed against: the
/// keyed match when the new child has a key that some old child carries,
/// the old child at `j` otherwise. New children beyond the old list are not
/// matched; they are appended whole.
pub open spec fn match_index(oldc: Seq<NodeV>, newc: Seq<NodeV>, j: int) -> Option<int> {
    if 0 <= j < newc.len() && j < oldc.len() {
        match newc[j].key {
            Some(k) => match find_keyed(oldc, k) {
                Some(i) => Some(i),
                None => Some(j),
            },
            None => Some(j),
        }
    } else {
        None
    }
}

/// The `AddProp`/`UpdateProp` patches for the new properties from index `i`
/// on, in new-property order.
pub open spec fn adds_updates_from(
    oldp: Seq<(Seq<char>, ValueV)>,
    newp: Seq<(Seq<char>, ValueV)>,
    path: Seq<usize>,
    i: int,
) -> Seq<PatchV>
    decreases newp.len() - i,
{
    if i < 0 || i >= newp.len() {
        Seq::empty()
    } else {
        (match prop_lookup(oldp, newp[i].0) {
            None => seq![PatchV::AddProp { path, key: newp[i].0, value: newp[i].1 }],
            Some(w) => if w != newp[i].1 {
                seq![PatchV::UpdateProp { path, key: newp[i].0, value: newp[i].1 }]
            } else {
                Seq::empty()
            },
        }) + adds_updates_from(oldp, newp, path, i + 1)
    }
}

/// The `RemoveProp` patches for the old properties from index `i` on, in
/// old-property order.
pub open spec fn removals_from(
    oldp: Seq<(Seq<char>, ValueV)>,
    newp: Seq<(Seq<char>, ValueV)>,
    path: Seq<usize>,
    i: int,
) -> Seq<PatchV>
    decreases oldp.len() - i,
{
    if i < 0 || i >= oldp.len() {
        Seq::empty()
    } else {
        (if prop_lookup(newp, oldp[i].0) is None {
            seq![PatchV::RemoveProp { path, key: oldp[i].0 }]
        } else {
            Seq::empty()
        }) + removals_from(oldp, newp, path, i + 1)
    }
}

/// The property patches between two nodes: adds and updates in new-property
/// order, then removals in old-property order.
pub open spec fn prop_diff(
    oldp: Seq<(Seq<char>, ValueV)>,
    newp: Seq<(Seq<char>, ValueV)>,
    path: Seq<usize>,
) -> Seq<PatchV> {
    adds_updates_from(oldp, newp, path, 0) + removals_from(oldp, newp, path, 0)
}

/// The structural patches aligning the child count: trailing old children
/// are removed, trailing new children are appended as authored.
pub open spec fn structural_ops(oldc: Seq<NodeV>, newc: Seq<NodeV>, path: Seq<usize>) -> Seq<
    PatchV,
> {
    if newc.len() < oldc.len() {
        seq![
            PatchV::RemoveChildren {
                path,
                start: newc.len() as usize,
                end: oldc.len() as usize,
            },
        ]
    } else if newc.len() > oldc.len() {
        seq![PatchV::AppendChildren { path, nodes: newc.skip(oldc.len() as int) }]
    } else {
        Seq::empty()
    }
}

/// The nested patches for the new children from index `j` on, each matched
/// against its old counterpart.
pub open spec fn child_diffs(oldc: Seq<NodeV>, n: NodeV, j: int, path: Seq<usize>) -> Seq<PatchV>
    decreases n, 0nat, n.children.len() - j,
{
    if j < 0 || j >= n.children.len() {
        Seq::empty()
    } else {
        (match match_index(oldc, n.children, j) {
            Some(i) => if 0 <= i < oldc.len() {
                diff_v(oldc[i], n.children[j], path.push(j as usize))
            } else {
                Seq::empty()
            },
            None => Seq::empty(),
        }) + child_diffs(oldc, n, j + 1, path)
    }
}

/// The ordered patch list that moves `o` into `n`, both addressed by `path`.
/// A tag mismatch replaces the whole subtree and nothing below is compared.
pub open spec fn diff_v(o: NodeV, n: NodeV, path: Seq<usize>) -> Seq<PatchV>
    decreases n, 1nat, 0nat,
{
    if o.tag != n.tag {
        seq![PatchV::ReplaceNode { path, node: n }]
    } else {
        prop_diff(o.props, n.props, path) + child_diffs(o.children, n, 0, path)
            + structural_ops(o.children, n.children, path)
    }
}

/// A lookup resolves to the value at the first index bound to `k`.
pub proof fn lemma_prop_lookup_at(props: Seq<(Seq<char>, ValueV)>, k: Seq<char>, i: int)
    requires
        0 <= i <= props.len(),
        forall|j: int| 0 <= j < i ==> (#[trigger] props[j]).0 != k,
        i < props.len() ==> props[i].0 == k,
    ensures
        prop_lookup(props, k) == if i < props.len() {
            Some(props[i].1)
        } else {
            None::<ValueV>
        },
    decreases i,
{
    if i == 0 {
    } else {
        lemma_prop_lookup_at(props.drop_first(), k, i - 1);
        assert(props.drop_first().len() == props.len() - 1);
        assert(i - 1 < props.drop_first().len() ==> props.drop_first()[i - 1] == props[i]);
    }
}

/// A keyed search resolves to the first index carrying `k`.
pub proof fn lemma_find_keyed_at(cs: Seq<NodeV>, k: Seq<char>, i: int)
    requires
        0 <= i <= cs.len(),
        forall|j: int| 0 <= j < i ==> (#[trigger] cs[j]).key != Some(k),
        i < cs.len() ==> cs[i].key == Some(k),
    ensures
        find_keyed(cs, k) == if i < cs.len() {
            Some(i)
        } else {
            None::<int>
        },
{
    lemma_find_keyed_from(cs, k, 0, i);
}

proof fn lemma_find_keyed_from(cs: Seq<NodeV>, k: Seq<char>, j: int, i: int)
    requires
        0 <= j <= i <= cs.len(),
        forall|m: int| j <= m < i ==> (#[trigger] cs[m]).key != Some(k),
        i < cs.len() ==> cs[i].key == Some(k),
    ensures
        find_keyed_from(cs, k, j) == if i < cs.len() {
            Some(i)
        } else {
            None::<int>
        },
    decreases i - j,
{
    if j == i {
        if i < cs.len() {
        } else {
            lemma_find_keyed_from_none(cs, k, j);
        }
    } else {
        lemma_find_keyed_from(cs, k, j + 1, i);
    }
}

proof fn lemma_find_keyed_from_none(cs: Seq<NodeV>, k: Seq<char>, j: int)
    requires
        0 <= j <= cs.len(),
        forall|m: int| j <= m < cs.len() ==> (#[trigger] cs[m]).key != Some(k),
    ensures
        find_keyed_from(cs, k, j) is None,
    decreases cs.len() - j,
{
    if j < cs.len() {
        lemma_find_keyed_from_none(cs, k, j + 1);
    }
}

/// The first old child carrying the key `k`, if any.
fn find_keyed_child(children: &Vec<VNode>, k: &String) -> (r: Option<usize>)
    ensures
        match r {
            Some(i) => i < children@.len() && find_keyed(children_views(children@), k@) == Some(
                i as int,
            ),
            None => find_keyed(children_views(children@), k@) is None,
        },
{
    let mut i: usize = 0;
    while i < children.len()
        invariant
            i <= children.len(),
            forall|j: int| 0 <= j < i as int ==> (#[trigger] children_views(children@)[j]).key
                != Some(k@),
        decreases children.len() - i,
    {
        let matched = match &children[i].key {
            Some(ck) => *ck == *k,
            None => false,
        };
        if matched {
            proof {
                assert(children_views(children@)[i as int].key == Some(k@));
                lemma_find_keyed_at(children_views(children@), k@, i as int);
            }
            return Some(i);
        }
        proof {
            assert(children_views(children@)[i as int].key != Some(k@));
        }
        i += 1;
    }
    proof {
        lemma_find_keyed_at(children_views(children@), k@, children@.len() as int);
    }
    None
}

/// Appends the property patches between the two nodes to `out`.
fn emit_prop_diff(old_node: &VNode, new_node: &VNode, path: &Vec<usize>, out: &mut Vec<Patch>)
    ensures
        patch_views(final(out)@) == patch_views(old(out)@) + prop_diff(
            old_node@.props,
            new_node@.props,
            path@,
        ),
{
    let ghost oldp = old_node@.props;
    let ghost newp = new_node@.props;
    let ghost out0 = patch_views(old(out)@);
    let mut i: usize = 0;
    while i < new_node.props.len()
        invariant
            i <= new_node.props.len(),
            oldp == old_node@.props,
            newp == new_node@.props,
            newp.len() == new_node.props@.len(),
            patch_views(out@) + adds_updates_from(oldp, newp, path@, i as int) == out0
                + adds_updates_from(oldp, newp, path@, 0),
        decreases new_node.props.len() - i,
    {
        let p = &new_node.props[i];
        let idx = find_prop_key(&old_node.props, &p.0);
        proof {
            lemma_prop_lookup_at(oldp, newp[i as int].0, idx as int);
            assert(newp[i as int] == (new_node.props@[i as int].0@, new_node.props@[i as int].1@));
        }
        if idx < old_node.props.len() {
            if !value_eq(&old_node.props[idx].1, &p.1) {
                let q = Patch::UpdateProp {
                    path: path.clone(),
                    key: p.0.clone(),
                    value: p.1.clone(),
                };
                proof {
                    lemma_snoc_shift(
                        patch_views(out@),
                        q@,
                        adds_updates_from(oldp, newp, path@, i as int + 1),
                    );
                    assert(patch_views(out@.push(q)) =~= patch_views(out@).push(q@));
                    assert(adds_updates_from(oldp, newp, path@, i as int) == seq![q@]
                        + adds_updates_from(oldp, newp, path@, i as int + 1));
                }
                out.push(q);
            } else {
                proof {
                    assert(adds_updates_from(oldp, newp, path@, i as int) =~= adds_updates_from(
                        oldp,
                        newp,
                        path@,
                        i as int + 1,
                    ));
                }
            }
        } else {
            let q = Patch::AddProp { path: path.clone(), key: p.0.clone(), value: p.1.clone() };
            proof {
                lemma_snoc_shift(
                    patch_views(out@),
                    q@,
                    adds_updates_from(oldp, newp, path@, i as int + 1),
                );
                assert(patch_views(out@.push(q)) =~= patch_views(out@).push(q@));
                assert(adds_updates_from(oldp, newp, path@, i as int) == seq![q@]
                    + adds_updates_from(oldp, newp, path@, i as int + 1));
            }
            out.push(q);
        }
        i += 1;
    }
    proof {
        assert(adds_updates_from(oldp, newp, path@, newp.len() as int) =~= Seq::<PatchV>::empty());
        assert(patch_views(out@) + Seq::<PatchV>::empty() =~= patch_views(out@));
    }
    let mut i: usize = 0;
    while i < old_node.props.len()
        invariant
            i <= old_node.props.len(),
            oldp == old_node@.props,
            newp == new_node@.props,
            oldp.len() == old_node.props@.len(),
            patch_views(out@) + removals_from(oldp, newp, path@, i as int) == out0
                + adds_updates_from(oldp, newp, path@, 0) + removals_from(oldp, newp, path@, 0),
        decreases old_node.props.len() - i,
    {
        let p = &old_node.props[i];
        let idx = find_prop_key(&new_node.props, &p.0);
        proof {
            lemma_prop_lookup_at(newp, oldp[i as int].0, idx as int);
            assert(oldp[i as int] == (old_node.props@[i as int].0@, old_node.props@[i as int].1@));
        }
        if idx == new_node.props.len() {
            let q = Patch::RemoveProp { path: path.clone(), key: p.0.clone() };
            proof {
                lemma_snoc_shift(
                    patch_views(out@),
                    q@,
                    removals_from(oldp, newp, path@, i as int + 1),
                );
                assert(patch_views(out@.push(q)) =~= patch_views(out@).push(q@));
                assert(removals_from(oldp, newp, path@, i as int) == seq![q@] + removals_from(
                    oldp,
                    newp,
                    path@,
                    i as int + 1,
                ));
            }
            out.push(q);
        } else {
            proof {
                assert(removals_from(oldp, newp, path@, i as int) =~= removals_from(
                    oldp,
                    newp,
                    path@,
                    i as int + 1,
                ));
            }
        }
        i += 1;
    }
    proof {
        assert(adds_updates_from(oldp, newp, path@, newp.len() as int) =~= Seq::<PatchV>::empty());
        assert(removals_from(oldp, newp, path@, oldp.len() as int) =~= Seq::<PatchV>::empty());
        assert(patch_views(out@) + Seq::<PatchV>::empty() =~= patch_views(out@));
        assert(patch_views(out@) =~= out0 + prop_diff(oldp, newp, path@));
    }
}

/// Pushing one element and then appending the rest shifts the append.
proof fn lemma_snoc_shift(a: Seq<PatchV>, x: PatchV, b: Seq<PatchV>)
    ensures
        a.push(x) + b == a + (seq![x] + b),
{
    assert(a.push(x) + b =~= a + (seq![x] + b));
}

/// Appends the patches that move `old_node` into `new_node` to `out`, with
/// both nodes addressed by `path`.
fn diff_at(old_node: &VNode, new_node: &VNode, path: &Vec<usize>, out: &mut Vec<Patch>)
    ensures
        patch_views(final(out)@) == patch_views(old(out)@) + diff_v(old_node@, new_node@, path@),
    decreases *new_node,
{
    let ghost o = old_node@;
    let ghost n = new_node@;
    let ghost out0 = patch_views(old(out)@);
    if !(old_node.tag == new_node.tag) {
        let q = Patch::ReplaceNode { path: path.clone(), node: new_node.clone_node() };
        out.push(q);
        proof {
            assert(patch_views(out@) =~= out0.push(q@));
            assert(out0.push(q@) =~= out0 + seq![PatchV::ReplaceNode { path: path@, node: n }]);
        }
        return ;
    }
    emit_prop_diff(old_node, new_node, path, out);
    let ghost after_props = patch_views(out@);
    let mut j: usize = 0;
    while j < new_node.children.len()
        invariant
            j <= new_node.children.len(),
            o == old_node@,
            n == new_node@,
            n.children.len() == new_node.children@.len(),
            o.children.len() == old_node.children@.len(),
            patch_views(out@) + child_diffs(o.children, n, j as int, path@) == after_props
                + child_diffs(o.children, n, 0, path@),
        decreases new_node.children.len() - j,
    {
        let ghost pre = patch_views(out@);
        let mut child_path = path.clone();
        child_path.push(j);
        proof {
            assert(child_path@ =~= path@.push(j as usize));
            assert(n.children[j as int] == node_view(new_node.children@[j as int]));
        }
        if j < old_node.children.len() {
            let keyed: Option<usize> = match &new_node.children[j].key {
                Some(k) => find_keyed_child(&old_node.children, k),
                None => None,
            };
            let oi: usize = match keyed {
                Some(i) => i,
                None => j,
            };
            proof {
                assert(match_index(o.children, n.children, j as int) == Some(oi as int));
                assert(o.children[oi as int] == node_view(old_node.children@[oi as int]));
            }
            diff_at(&old_node.children[oi], &new_node.children[j], &child_path, out);
            proof {
                assert(child_diffs(o.children, n, j as int, path@) == diff_v(
                    o.children[oi as int],
                    n.children[j as int],
                    path@.push(j as usize),
                ) + child_diffs(o.children, n, j as int + 1, path@));
                lemma_concat_assoc(
                    pre,
                    diff_v(o.children[oi as int], n.children[j as int], path@.push(j as usize)),
                    child_diffs(o.children, n, j as int + 1, path@),
                );
            }
        } else {
            proof {
                assert(match_index(o.children, n.children, j as int) is None);
                assert(child_diffs(o.children, n, j as int, path@) =~= child_diffs(
                    o.children,
                    n,
                    j as int + 1,
                    path@,
                ));
            }
        }
        j += 1;
    }
    proof {
        assert(child_diffs(o.children, n, n.children.len() as int, path@) =~= Seq::<
            PatchV,
        >::empty());
        assert(patch_views(out@) + Seq::<PatchV>::empty() =~= patch_views(out@));
    }
    let ghost after_children = patch_views(out@);
    if new_node.children.len() < old_node.children.len() {
        let q = Patch::RemoveChildren {
            path: path.clone(),
            start: new_node.children.len(),
            end: old_node.children.len(),
        };
        out.push(q);
        proof {
            assert(patch_views(out@) =~= after_children.push(q@));
            assert(after_children.push(q@) =~= after_children + structural_ops(
                o.children,
                n.children,
                path@,
            ));
        }
    } else if new_node.children.len() > old_node.children.len() {
        let mut nodes: Vec<VNode> = Vec::new();
        let mut m: usize = old_node.children.len();
        while m < new_node.children.len()
            invariant
                old_node.children@.len() <= m <= new_node.children.len(),
                n == new_node@,
                n.children.len() == new_node.children@.len(),
                nodes@.len() == m as int - old_node.children@.len(),
                forall|t: int| 0 <= t < nodes@.len() ==> node_view(#[trigger] nodes@[t])
                    == node_view(new_node.children@[old_node.children@.len() + t]),
            decreases new_node.children.len() - m,
        {
            nodes.push(new_node.children[m].clone_node());
            m += 1;
        }
        proof {
            assert(children_views(nodes@) =~= n.children.skip(o.children.len() as int));
        }
        let q = Patch::AppendChildren { path: path.clone(), nodes };
        proof {
            assert(q@ == PatchV::AppendChildren {
                path: path@,
                nodes: n.children.skip(o.children.len() as int),
            });
        }
        out.push(q);
        proof {
            assert(patch_views(out@) =~= after_children.push(q@));
            assert(after_children.push(q@) =~= after_children + structural_ops(
                o.children,
                n.children,
                path@,
            ));
        }
    } else {
        proof {
            assert(structural_ops(o.children, n.children, path@) =~= Seq::<PatchV>::empty());
            assert(patch_views(out@) =~= after_children + structural_ops(
                o.children,
                n.children,
                path@,
            ));
        }
    }
    proof {
        lemma_concat_assoc(
            out0,
            prop_diff(o.props, n.props, path@),
            child_diffs(o.children, n, 0, path@),
        );
        assert(patch_views(out@) =~= out0 + diff_v(o, n, path@));
    }
}

/// Concatenation of sequences is associative.
proof fn lemma_concat_assoc(a: Seq<PatchV>, b: Seq<PatchV>, c: Seq<PatchV>)
    ensures
        (a + b) + c == a + (b + c),
{
    assert((a + b) + c =~= a + (b + c));
}

/// Diffs two trees after validating them: a tree with an empty tag, a
/// duplicate property key or a duplicate sibling identity key is rejected
/// with a typed error rather than silently matched. `diff_nodes` itself
/// accepts any tree; this is the checked entry point the data model's
/// deferred validation asks for.
pub fn diff_nodes_checked(old_node: &VNode, new_node: &VNode) -> (r: Result<Vec<Patch>, NodeError>)
    ensures
        (r is Ok <==> wf(old_node@) && wf(new_node@)),
        r matches Ok(ps) ==> patch_views(ps@) == diff_v(old_node@, new_node@, Seq::empty()),
        r matches Err(e) ==> e == NodeError::MalformedTree,
{
    if old_node.validate() && new_node.validate() {
        Ok(diff_nodes(old_node, new_node))
    } else {
        Err(NodeError::MalformedTree)
    }
}

/// Computes the ordered patch list that moves `old_node` into `new_node`.
/// The result is a function of the two trees alone: two calls on equal trees
/// return equal patch lists.
pub fn diff_nodes(old_node: &VNode, new_node: &VNode) -> (r: Vec<Patch>)
    ensures
        patch_views(r@) == diff_v(old_node@, new_node@, Seq::empty()),
{
    let path: Vec<usize> = Vec::new();
    let mut out: Vec<Patch> = Vec::new();
    proof {
        assert(patch_views(out@) =~= Seq::<PatchV>::empty());
    }
    diff_at(old_node, new_node, &path, &mut out);
    proof {
        assert(Seq::<PatchV>::empty() + diff_v(old_node@, new_node@, Seq::empty()) =~= diff_v(
            old_node@,
            new_node@,
            Seq::empty(),
        ));
        assert(path@ =~= Seq::<usize>::empty());
    }
    out
}

} // verus!
