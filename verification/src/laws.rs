//! Laws of the differ, stated over the mathematical models and proved once
//! for all trees.

use vstd::prelude::*;

use crate::diff::{
    adds_updates_from, child_diffs, diff_v, find_keyed, find_keyed_from, lemma_find_keyed_at,
    lemma_prop_lookup_at, match_index, removals_from, structural_ops,
};
use crate::node::{keys_unique, sibling_keys_unique, wf, NodeV, ValueV};
use crate::patch::{patchv_path, PatchV};

verus! {

/// Diffing is deterministic: the patch list is a function of the two trees
/// alone, so two diffs of equal trees are identical.
pub proof fn lemma_diff_deterministic(
    a1: NodeV,
    b1: NodeV,
    a2: NodeV,
    b2: NodeV,
    path: Seq<usize>,
)
    requires
        a1 == a2,
        b1 == b2,
    ensures
        diff_v(a1, b1, path) == diff_v(a2, b2, path),
{
}

/// A tag mismatch yields exactly one patch, a replacement of the whole
/// subtree, with no descent into children.
pub proof fn lemma_tag_mismatch_replaces(o: NodeV, n: NodeV, path: Seq<usize>)
    requires
        o.tag != n.tag,
    ensures
        diff_v(o, n, path) == seq![PatchV::ReplaceNode { path, node: n }],
{
}

/// Diffing a well-formed tree against itself yields the empty patch list.
pub proof fn lemma_diff_self(t: NodeV, path: Seq<usize>)
    requires
        wf(t),
    ensures
        diff_v(t, t, path) == Seq::<PatchV>::empty(),
    decreases t, 1nat, 0nat,
{
    lemma_adds_updates_self(t.props, path, 0);
    lemma_removals_self(t.props, path, 0);
    lemma_child_diffs_self(t, path, 0);
    assert(diff_v(t, t, path) =~= Seq::<PatchV>::empty());
}

proof fn lemma_adds_updates_self(p: Seq<(Seq<char>, ValueV)>, path: Seq<usize>, i: int)
    requires
        keys_unique(p),
        i >= 0,
    ensures
        adds_updates_from(p, p, path, i) == Seq::<PatchV>::empty(),
    decreases p.len() - i,
{
    if i < p.len() {
        lemma_prop_lookup_at(p, p[i].0, i);
        lemma_adds_updates_self(p, path, i + 1);
        assert(adds_updates_from(p, p, path, i) =~= Seq::<PatchV>::empty());
    }
}

proof fn lemma_removals_self(p: Seq<(Seq<char>, ValueV)>, path: Seq<usize>, i: int)
    requires
        keys_unique(p),
        i >= 0,
    ensures
        removals_from(p, p, path, i) == Seq::<PatchV>::empty(),
    decreases p.len() - i,
{
    if i < p.len() {
        lemma_prop_lookup_at(p, p[i].0, i);
        lemma_removals_self(p, path, i + 1);
        assert(removals_from(p, p, path, i) =~= Seq::<PatchV>::empty());
    }
}

proof fn lemma_child_diffs_self(t: NodeV, path: Seq<usize>, j: int)
    requires
        wf(t),
        j >= 0,
    ensures
        child_diffs(t.children, t, j, path) == Seq::<PatchV>::empty(),
    decreases t, 0nat, t.children.len() - j,
{
    if j < t.children.len() {
        match t.children[j].key {
            Some(k) => {
                assert forall|m: int| 0 <= m < j implies (#[trigger] t.children[m]).key != Some(
                    k,
                ) by {
                    assert(sibling_keys_unique(t.children));
                }
                lemma_find_keyed_at(t.children, k, j);
                assert(match_index(t.children, t.children, j) == Some(j));
            },
            None => {
                assert(match_index(t.children, t.children, j) == Some(j));
            },
        }
        assert(wf(t.children[j]));
        lemma_diff_self(t.children[j], path.push(j as usize));
        lemma_child_diffs_self(t, path, j + 1);
        assert(child_diffs(t.children, t, j, path) =~= Seq::<PatchV>::empty());
    }
}

/// Every patch of a diff addresses the diffed position or a position below
/// it; a patch addressed exactly at the diffed position is a subtree
/// replacement only when the tags differ.
pub proof fn lemma_diff_paths(o: NodeV, n: NodeV, path: Seq<usize>)
    ensures
        forall|idx: int| 0 <= idx < diff_v(o, n, path).len() ==> path.is_prefix_of(
            patchv_path(#[trigger] diff_v(o, n, path)[idx]),
        ),
        o.tag == n.tag ==> forall|idx: int| 0 <= idx < diff_v(o, n, path).len() ==> !(
        (#[trigger] diff_v(o, n, path)[idx]) is ReplaceNode && patchv_path(
            diff_v(o, n, path)[idx],
        ) == path),
    decreases n, 1nat, 0nat,
{
    if o.tag != n.tag {
        assert forall|idx: int| 0 <= idx < diff_v(o, n, path).len() implies path.is_prefix_of(
            patchv_path(#[trigger] diff_v(o, n, path)[idx]),
        ) by {
            assert(diff_v(o, n, path)[idx] == PatchV::ReplaceNode { path, node: n });
            assert(path.is_prefix_of(path));
        }
    } else {
        lemma_adds_updates_paths(o.props, n.props, path, 0);
        lemma_removals_paths(o.props, n.props, path, 0);
        lemma_child_diffs_paths(o.children, n, 0, path);
        let d = diff_v(o, n, path);
        let a = adds_updates_from(o.props, n.props, path, 0);
        let r = removals_from(o.props, n.props, path, 0);
        let c = child_diffs(o.children, n, 0, path);
        let s = structural_ops(o.children, n.children, path);
        assert(d =~= ((a + r) + c) + s);
        assert forall|idx: int| 0 <= idx < d.len() implies path.is_prefix_of(
            patchv_path(#[trigger] d[idx]),
        ) && !(d[idx] is ReplaceNode && patchv_path(d[idx]) == path) by {
            assert(path.is_prefix_of(path));
            if idx < a.len() {
                assert(d[idx] == a[idx]);
            } else if idx < a.len() + r.len() {
                assert(d[idx] == r[idx - a.len()]);
            } else if idx < a.len() + r.len() + c.len() {
                assert(d[idx] == c[idx - a.len() - r.len()]);
            } else {
                assert(d[idx] == s[idx - a.len() - r.len() - c.len()]);
                assert(s.len() <= 1);
                if n.children.len() < o.children.len() {
                    assert(d[idx] == (PatchV::RemoveChildren {
                        path,
                        start: n.children.len() as usize,
                        end: o.children.len() as usize,
                    }));
                } else {
                    assert(d[idx] == (PatchV::AppendChildren {
                        path,
                        nodes: n.children.skip(o.children.len() as int),
                    }));
                }
            }
        }
    }
}

proof fn lemma_adds_updates_paths(
    oldp: Seq<(Seq<char>, ValueV)>,
    newp: Seq<(Seq<char>, ValueV)>,
    path: Seq<usize>,
    i: int,
)
    requires
        i >= 0,
    ensures
        forall|idx: int| 0 <= idx < adds_updates_from(oldp, newp, path, i).len() ==> {
            let q = #[trigger] adds_updates_from(oldp, newp, path, i)[idx];
            patchv_path(q) == path && (q is AddProp || q is UpdateProp)
        },
    decreases newp.len() - i,
{
    if i < newp.len() {
        lemma_adds_updates_paths(oldp, newp, path, i + 1);
    }
}

proof fn lemma_removals_paths(
    oldp: Seq<(Seq<char>, ValueV)>,
    newp: Seq<(Seq<char>, ValueV)>,
    path: Seq<usize>,
    i: int,
)
    requires
        i >= 0,
    ensures
        forall|idx: int| 0 <= idx < removals_from(oldp, newp, path, i).len() ==> {
            let q = #[trigger] removals_from(oldp, newp, path, i)[idx];
            patchv_path(q) == path && q is RemoveProp
        },
    decreases oldp.len() - i,
{
    if i < oldp.len() {
        lemma_removals_paths(oldp, newp, path, i + 1);
    }
}

proof fn lemma_child_diffs_paths(oldc: Seq<NodeV>, n: NodeV, j: int, path: Seq<usize>)
    requires
        j >= 0,
    ensures
        forall|idx: int| 0 <= idx < child_diffs(oldc, n, j, path).len() ==> {
            let qp = patchv_path(#[trigger] child_diffs(oldc, n, j, path)[idx]);
            qp.len() > path.len() && path.is_prefix_of(qp)
        },
    decreases n, 0nat, n.children.len() - j,
{
    if 0 <= j < n.children.len() {
        lemma_child_diffs_paths(oldc, n, j + 1, path);
        let seg = match match_index(oldc, n.children, j) {
            Some(i) => if 0 <= i < oldc.len() {
                diff_v(oldc[i], n.children[j], path.push(j as usize))
            } else {
                Seq::<PatchV>::empty()
            },
            None => Seq::<PatchV>::empty(),
        };
        match match_index(oldc, n.children, j) {
            Some(i) => {
                if 0 <= i < oldc.len() {
                    lemma_diff_paths(oldc[i], n.children[j], path.push(j as usize));
                }
            },
            None => {},
        }
        assert(child_diffs(oldc, n, j, path) == seg + child_diffs(oldc, n, j + 1, path));
        assert forall|idx: int| 0 <= idx < child_diffs(oldc, n, j, path).len() implies {
            let qp = patchv_path(#[trigger] child_diffs(oldc, n, j, path)[idx]);
            qp.len() > path.len() && path.is_prefix_of(qp)
        } by {
            if idx < seg.len() {
                assert(child_diffs(oldc, n, j, path)[idx] == seg[idx]);
                let qp = patchv_path(seg[idx]);
                assert(path.push(j as usize).is_prefix_of(qp));
                lemma_prefix_drop_last(path, j as usize, qp);
            } else {
                assert(child_diffs(oldc, n, j, path)[idx] == child_diffs(oldc, n, j + 1, path)[
                    idx - seg.len()]);
            }
        }
    }
}

/// A sequence is a prefix of whatever its own extension by one element is a
/// prefix of, and the extension pins the element at the boundary position.
proof fn lemma_prefix_drop_last(path: Seq<usize>, x: usize, qp: Seq<usize>)
    requires
        path.push(x).is_prefix_of(qp),
    ensures
        qp.len() > path.len(),
        path.is_prefix_of(qp),
        qp[path.len() as int] == x,
{
    let l = path.len() as int;
    assert(qp.subrange(0, l + 1) == path.push(x));
    assert(qp.subrange(0, l + 1)[l] == qp[l]);
    assert(path.push(x)[l] == x);
    assert forall|m: int| 0 <= m < l implies path[m] == qp[m] by {
        assert(qp.subrange(0, l + 1)[m] == qp[m]);
        assert(path.push(x)[m] == path[m]);
    }
    assert(path =~= qp.subrange(0, l));
}

/// Keyed children are matched by identity, not position: when the new child
/// at `j` carries a key that an old child carries too, the pair is diffed in
/// place. No subtree replacement is addressed at the matched position when
/// the pair's tags agree, and a pair equal as trees contributes no patch at
/// or below the matched position at all.
pub proof fn lemma_keyed_reorder(
    o: NodeV,
    n: NodeV,
    path: Seq<usize>,
    j: int,
    k: Seq<char>,
    i: int,
)
    requires
        o.tag == n.tag,
        n.children.len() <= usize::MAX,
        0 <= j < n.children.len(),
        j < o.children.len(),
        n.children[j].key == Some(k),
        find_keyed(o.children, k) == Some(i),
    ensures
        0 <= i < o.children.len(),
        o.children[i].key == Some(k),
        match_index(o.children, n.children, j) == Some(i),
        o.children[i].tag == n.children[j].tag ==> forall|idx: int|
            0 <= idx < diff_v(o, n, path).len() ==> !((#[trigger] diff_v(o, n, path)[idx])
                is ReplaceNode && patchv_path(diff_v(o, n, path)[idx]) == path.push(j as usize)),
        o.children[i] == n.children[j] && wf(o.children[i]) ==> forall|idx: int|
            0 <= idx < diff_v(o, n, path).len() ==> !path.push(j as usize).is_prefix_of(
                patchv_path(#[trigger] diff_v(o, n, path)[idx]),
            ),
{
    lemma_find_keyed_bounds(o.children, k, 0);
    assert(match_index(o.children, n.children, j) == Some(i));
    lemma_adds_updates_paths(o.props, n.props, path, 0);
    lemma_removals_paths(o.props, n.props, path, 0);
    lemma_child_diffs_target(o.children, n, 0, path, j, i);
    let d = diff_v(o, n, path);
    let a = adds_updates_from(o.props, n.props, path, 0);
    let r = removals_from(o.props, n.props, path, 0);
    let c = child_diffs(o.children, n, 0, path);
    let s = structural_ops(o.children, n.children, path);
    assert(d =~= ((a + r) + c) + s);
    let pj = path.push(j as usize);
    if o.children[i].tag == n.children[j].tag {
        assert forall|idx: int| 0 <= idx < d.len() implies !((#[trigger] d[idx]) is ReplaceNode
            && patchv_path(d[idx]) == pj) by {
            if idx < a.len() {
                assert(d[idx] == a[idx]);
                assert(patchv_path(d[idx]) == path);
                assert(path.len() < pj.len());
            } else if idx < a.len() + r.len() {
                assert(d[idx] == r[idx - a.len()]);
                assert(path.len() < pj.len());
            } else if idx < a.len() + r.len() + c.len() {
                assert(d[idx] == c[idx - a.len() - r.len()]);
            } else {
                assert(d[idx] == s[idx - a.len() - r.len() - c.len()]);
                assert(s.len() <= 1);
                if n.children.len() < o.children.len() {
                    assert(d[idx] == (PatchV::RemoveChildren {
                        path,
                        start: n.children.len() as usize,
                        end: o.children.len() as usize,
                    }));
                } else {
                    assert(d[idx] == (PatchV::AppendChildren {
                        path,
                        nodes: n.children.skip(o.children.len() as int),
                    }));
                }
                assert(path.len() < pj.len());
            }
        }
    }
    if o.children[i] == n.children[j] && wf(o.children[i]) {
        assert forall|idx: int| 0 <= idx < d.len() implies !pj.is_prefix_of(
            patchv_path(#[trigger] d[idx]),
        ) by {
            if idx < a.len() {
                assert(d[idx] == a[idx]);
                assert(patchv_path(d[idx]).len() < pj.len());
            } else if idx < a.len() + r.len() {
                assert(d[idx] == r[idx - a.len()]);
                assert(patchv_path(d[idx]).len() < pj.len());
            } else if idx < a.len() + r.len() + c.len() {
                assert(d[idx] == c[idx - a.len() - r.len()]);
            } else {
                assert(d[idx] == s[idx - a.len() - r.len() - c.len()]);
                assert(s.len() <= 1);
                if n.children.len() < o.children.len() {
                    assert(d[idx] == (PatchV::RemoveChildren {
                        path,
                        start: n.children.len() as usize,
                        end: o.children.len() as usize,
                    }));
                } else {
                    assert(d[idx] == (PatchV::AppendChildren {
                        path,
                        nodes: n.children.skip(o.children.len() as int),
                    }));
                }
                assert(patchv_path(d[idx]).len() < pj.len());
            }
        }
    }
}

/// A successful keyed search stays in bounds and lands on the key.
proof fn lemma_find_keyed_bounds(cs: Seq<NodeV>, k: Seq<char>, j: int)
    requires
        0 <= j,
    ensures
        match find_keyed_from(cs, k, j) {
            Some(i) => j <= i < cs.len() && cs[i].key == Some(k),
            None => true,
        },
    decreases cs.len() - j,
{
    if j < cs.len() {
        if cs[j].key == Some(k) {
        } else {
            lemma_find_keyed_bounds(cs, k, j + 1);
        }
    }
}

/// The nested patches of the child segments, with respect to one matched
/// target position `j`: no segment other than `j`'s addresses a position at
/// or below `path.push(j)`, and segment `j` is empty when its matched pair
/// is equal and well-formed.
proof fn lemma_child_diffs_target(
    oldc: Seq<NodeV>,
    n: NodeV,
    js: int,
    path: Seq<usize>,
    j: int,
    i: int,
)
    requires
        js >= 0,
        n.children.len() <= usize::MAX,
        0 <= j < n.children.len(),
        0 <= i < oldc.len(),
        match_index(oldc, n.children, j) == Some(i),
    ensures
        oldc[i].tag == n.children[j].tag ==> forall|idx: int|
            0 <= idx < child_diffs(oldc, n, js, path).len() ==> !((#[trigger] child_diffs(
                oldc,
                n,
                js,
                path,
            )[idx]) is ReplaceNode && patchv_path(child_diffs(oldc, n, js, path)[idx])
                == path.push(j as usize)),
        oldc[i] == n.children[j] && wf(oldc[i]) ==> forall|idx: int|
            0 <= idx < child_diffs(oldc, n, js, path).len() ==> !path.push(
                j as usize,
            ).is_prefix_of(patchv_path(#[trigger] child_diffs(oldc, n, js, path)[idx])),
    decreases n, 0nat, n.children.len() - js,
{
    let pj = path.push(j as usize);
    if js < n.children.len() {
        lemma_child_diffs_target(oldc, n, js + 1, path, j, i);
        let seg = match match_index(oldc, n.children, js) {
            Some(m) => if 0 <= m < oldc.len() {
                diff_v(oldc[m], n.children[js], path.push(js as usize))
            } else {
                Seq::<PatchV>::empty()
            },
            None => Seq::<PatchV>::empty(),
        };
        assert(child_diffs(oldc, n, js, path) == seg + child_diffs(oldc, n, js + 1, path));
        if js == j {
            // this is the matched pair's own segment
            if oldc[i] == n.children[j] && wf(oldc[i]) {
                lemma_diff_self(n.children[j], pj);
                assert(seg =~= Seq::<PatchV>::empty());
            }
            if oldc[i].tag == n.children[j].tag {
                lemma_diff_paths(oldc[i], n.children[j], pj);
            }
        } else {
            match match_index(oldc, n.children, js) {
                Some(m) => {
                    if 0 <= m < oldc.len() {
                        lemma_diff_paths(oldc[m], n.children[js], path.push(js as usize));
                    }
                },
                None => {},
            }
        }
        assert forall|idx: int| 0 <= idx < child_diffs(oldc, n, js, path).len() implies {
            &&& (oldc[i].tag == n.children[j].tag ==> !((#[trigger] child_diffs(
                oldc,
                n,
                js,
                path,
            )[idx]) is ReplaceNode && patchv_path(child_diffs(oldc, n, js, path)[idx]) == pj))
            &&& (oldc[i] == n.children[j] && wf(oldc[i]) ==> !pj.is_prefix_of(
                patchv_path(child_diffs(oldc, n, js, path)[idx]),
            ))
        } by {
            if idx < seg.len() {
                assert(child_diffs(oldc, n, js, path)[idx] == seg[idx]);
                if js == j {
                    // paths of the matched segment start at pj; a patch at
                    // exactly pj is not a replacement since the tags agree
                    assert(oldc[i].tag == n.children[j].tag ==> !(seg[idx] is ReplaceNode
                        && patchv_path(seg[idx]) == pj));
                } else {
                    let qp = patchv_path(seg[idx]);
                    assert(path.push(js as usize).is_prefix_of(qp));
                    lemma_prefix_drop_last(path, js as usize, qp);
                    assert(js as usize != j as usize);
                    if pj.is_prefix_of(qp) {
                        lemma_prefix_drop_last(path, j as usize, qp);
                        assert(false);
                    }
                    assert(!pj.is_prefix_of(qp));
                    assert(pj[path.len() as int] == j as usize);
                    assert(!(qp == pj));
                }
            } else {
                assert(child_diffs(oldc, n, js, path)[idx] == child_diffs(oldc, n, js + 1, path)[
                    idx - seg.len()]);
            }
        }
    }
}

} // verus!
