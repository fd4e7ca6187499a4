//! Replay correctness: applying the diff of two trees to the old tree yields
//! a tree that renders exactly like the new one.
//!
//! The law holds on replayable pairs: pairs whose diff the six patch
//! operations can faithfully replay. A pair is not replayable exactly where
//! a keyed child is matched away from its position (the patch vocabulary has
//! no move operation) or where the surviving old properties, in old order,
//! followed by the added ones do not reproduce the new property order.
//!
//! That boundary is inherent in the design, not a shortfall of the proof:
//! keyed matching must diff old children `[A(key=1), B(key=2)]` against new
//! children `[B(key=2), A(key=1)]` to the empty patch list (identity is
//! preserved, nothing inside either pair changed), and an empty list cannot
//! reorder the old tree. Universal replay correctness and keyed identity
//! matching cannot hold together with these six operations.

use vstd::prelude::*;

use crate::diff::{
    adds_updates_from, child_diffs, diff_v, match_index, prop_diff, removals_from,
    structural_ops,
};
use crate::node::{keys_unique, prop_lookup, props_remove, props_set, NodeV, ValueV};
use crate::patch::{
    apply_at_v, apply_list_v, apply_op_v, apply_patch_v, lemma_apply_list_split, patchv_path,
    ApplyError, PatchV,
};
use crate::render::{render_children_v, render_v};

verus! {

/// The subtree of `t` addressed by `p`, if the path exists.
pub open spec fn subtree_at(t: NodeV, p: Seq<usize>) -> Option<NodeV>
    decreases p.len(),
{
    if p.len() == 0 {
        Some(t)
    } else {
        let i = p[0] as int;
        if i < t.children.len() {
            subtree_at(t.children[i], p.drop_first())
        } else {
            None
        }
    }
}

/// `t` with the subtree addressed by `p` replaced by `x`.
pub open spec fn replace_at(t: NodeV, p: Seq<usize>, x: NodeV) -> NodeV
    decreases p.len(),
{
    if p.len() == 0 {
        x
    } else {
        let i = p[0] as int;
        if i < t.children.len() {
            NodeV { children: t.children.update(i, replace_at(t.children[i], p.drop_first(), x)), ..t }
        } else {
            t
        }
    }
}

/// Replacement at a path leaves the subtree there.
pub proof fn lemma_replace_subtree(t: NodeV, p: Seq<usize>, x: NodeV)
    requires
        subtree_at(t, p) is Some,
    ensures
        subtree_at(replace_at(t, p, x), p) == Some(x),
    decreases p.len(),
{
    if p.len() > 0 {
        let i = p[0] as int;
        lemma_replace_subtree(t.children[i], p.drop_first(), x);
    }
}

/// Replacing twice at one path keeps only the second replacement.
pub proof fn lemma_replace_replace(t: NodeV, p: Seq<usize>, x: NodeV, y: NodeV)
    requires
        subtree_at(t, p) is Some,
    ensures
        replace_at(replace_at(t, p, x), p, y) == replace_at(t, p, y),
    decreases p.len(),
{
    if p.len() > 0 {
        let i = p[0] as int;
        lemma_replace_replace(t.children[i], p.drop_first(), x, y);
        let t1 = replace_at(t, p, x);
        assert(t1.children.len() == t.children.len());
        assert(t1.children[i] == replace_at(t.children[i], p.drop_first(), x));
        assert(t1.children.update(i, replace_at(t1.children[i], p.drop_first(), y)) =~= t.children.update(
            i,
            replace_at(t.children[i], p.drop_first(), y),
        ));
        assert(replace_at(t1, p, y) =~~= replace_at(t, p, y));
    }
}

/// Applying a patch addressed at `p` applies its operation to the subtree
/// there, in place.
pub proof fn lemma_apply_patch_at(t: NodeV, p: Seq<usize>, s: NodeV, q: PatchV)
    requires
        patchv_path(q) == p,
        subtree_at(t, p) == Some(s),
    ensures
        apply_patch_v(t, q) == (match apply_op_v(s, q) {
            Ok(s2) => Ok::<NodeV, ApplyError>(replace_at(t, p, s2)),
            Err(e) => Err::<NodeV, ApplyError>(e),
        }),
    decreases p.len(),
{
    lemma_apply_at(t, p, s, q);
}

proof fn lemma_apply_at(t: NodeV, p: Seq<usize>, s: NodeV, q: PatchV)
    requires
        subtree_at(t, p) == Some(s),
    ensures
        apply_at_v(t, p, q) == (match apply_op_v(s, q) {
            Ok(s2) => Ok::<NodeV, ApplyError>(replace_at(t, p, s2)),
            Err(e) => Err::<NodeV, ApplyError>(e),
        }),
    decreases p.len(),
{
    if p.len() > 0 {
        let i = p[0] as int;
        lemma_apply_at(t.children[i], p.drop_first(), s, q);
    }
}

/// A subtree one step below: the path extended by a child index.
pub proof fn lemma_subtree_push(t: NodeV, p: Seq<usize>, s: NodeV, j: int)
    requires
        subtree_at(t, p) == Some(s),
        0 <= j < s.children.len(),
        j <= usize::MAX,
    ensures
        subtree_at(t, p.push(j as usize)) == Some(s.children[j]),
    decreases p.len(),
{
    if p.len() == 0 {
        assert(p.push(j as usize).drop_first() =~= Seq::<usize>::empty());
        assert(subtree_at(t.children[j], Seq::empty()) == Some(t.children[j]));
    } else {
        let i = p[0] as int;
        lemma_subtree_push(t.children[i], p.drop_first(), s, j);
        assert(p.push(j as usize).drop_first() =~= p.drop_first().push(j as usize));
    }
}

/// Replacing one step below replaces the child in place.
pub proof fn lemma_replace_push(t: NodeV, p: Seq<usize>, s: NodeV, j: int, x: NodeV)
    requires
        subtree_at(t, p) == Some(s),
        0 <= j < s.children.len(),
        j <= usize::MAX,
    ensures
        replace_at(t, p.push(j as usize), x) == replace_at(
            t,
            p,
            NodeV { children: s.children.update(j, x), ..s },
        ),
    decreases p.len(),
{
    if p.len() == 0 {
        assert(p.push(j as usize)[0] == j as usize);
        assert(p.push(j as usize).drop_first() =~= Seq::<usize>::empty());
        assert(replace_at(t.children[j], Seq::<usize>::empty(), x) == x);
        assert(replace_at(t, p.push(j as usize), x) =~~= (NodeV {
            children: s.children.update(j, x),
            ..s
        }));
    } else {
        let i = p[0] as int;
        lemma_replace_push(t.children[i], p.drop_first(), s, j, x);
        assert(p.push(j as usize)[0] == p[0]);
        assert(p.push(j as usize).drop_first() =~= p.drop_first().push(j as usize));
        assert(replace_at(t, p.push(j as usize), x) =~~= replace_at(
            t,
            p,
            NodeV { children: s.children.update(j, x), ..s },
        ));
    }
}

/// Application distributes over list concatenation.
pub proof fn lemma_apply_list_concat(t: NodeV, xs: Seq<PatchV>, ys: Seq<PatchV>)
    ensures
        apply_list_v(t, xs + ys) == (match apply_list_v(t, xs) {
            Ok(u) => apply_list_v(u, ys),
            Err(e) => Err(e),
        }),
{
    lemma_apply_list_split(t, xs + ys, xs.len() as int);
    assert((xs + ys).take(xs.len() as int) =~= xs);
    assert((xs + ys).skip(xs.len() as int) =~= ys);
}

/// A singleton list applies its one patch.
pub proof fn lemma_apply_list_one(t: NodeV, q: PatchV)
    ensures
        apply_list_v(t, seq![q]) == (match apply_patch_v(t, q) {
            Ok(u) => Ok::<NodeV, ApplyError>(u),
            Err(e) => Err::<NodeV, ApplyError>(e),
        }),
{
    assert(seq![q][0] == q);
    assert(seq![q].drop_first() =~= Seq::<PatchV>::empty());
    match apply_patch_v(t, q) {
        Ok(u) => {
            assert(apply_list_v(u, Seq::<PatchV>::empty()) == Ok::<NodeV, ApplyError>(u));
        },
        Err(e) => {},
    }
}

/// The old properties that survive: those whose key is also new, in old
/// order, each carrying the new value.
pub open spec fn kept(op: Seq<(Seq<char>, ValueV)>, np: Seq<(Seq<char>, ValueV)>) -> Seq<
    (Seq<char>, ValueV),
>
    decreases op.len(),
{
    if op.len() == 0 {
        Seq::empty()
    } else {
        (match prop_lookup(np, op[0].0) {
            Some(v) => seq![(op[0].0, v)],
            None => Seq::empty(),
        }) + kept(op.drop_first(), np)
    }
}

/// The new properties whose key is not old, in new order.
pub open spec fn added(op: Seq<(Seq<char>, ValueV)>, np: Seq<(Seq<char>, ValueV)>) -> Seq<
    (Seq<char>, ValueV),
>
    decreases np.len(),
{
    if np.len() == 0 {
        Seq::empty()
    } else {
        (if prop_lookup(op, np[0].0) is None {
            seq![np[0]]
        } else {
            Seq::empty()
        }) + added(op, np.drop_first())
    }
}

/// What replaying a property diff produces: the surviving old properties in
/// old order with their new values, then the added new properties in new
/// order.
pub open spec fn merged_props(
    op: Seq<(Seq<char>, ValueV)>,
    np: Seq<(Seq<char>, ValueV)>,
) -> Seq<(Seq<char>, ValueV)> {
    kept(op, np) + added(op, np)
}

/// The children of the replayed tree, from index `j` on: pairs within both
/// lists are replayed recursively, trailing new children are taken as
/// authored.
pub open spec fn patched_children(a: NodeV, b: NodeV, j: int) -> Seq<NodeV>
    decreases b, 0nat, b.children.len() - j,
{
    if j < 0 || j >= b.children.len() {
        Seq::empty()
    } else {
        seq![
            if j < a.children.len() {
                patched(a.children[j], b.children[j])
            } else {
                b.children[j]
            },
        ] + patched_children(a, b, j + 1)
    }
}

/// The tree that replaying `diff_v(a, b, _)` on `a` produces. On a tag
/// mismatch the new tree replaces the old wholesale; otherwise the old node
/// keeps its identity metadata and takes the merged properties and the
/// replayed children.
pub open spec fn patched(a: NodeV, b: NodeV) -> NodeV
    decreases b, 1nat, 0nat,
{
    if a.tag != b.tag {
        b
    } else {
        NodeV { props: merged_props(a.props, b.props), children: patched_children(a, b, 0), ..a }
    }
}

/// A pair of trees whose diff the patch operations replay faithfully: the
/// merged properties reproduce the new property order exactly, every child
/// pair within both lists is matched positionally (a keyed match away from
/// its position cannot be replayed: the patch vocabulary has no move
/// operation), and the pair is replayable recursively. Property keys are
/// unique on both sides, as diffing assumes, and child counts fit the
/// machine.
pub open spec fn replayable(a: NodeV, b: NodeV) -> bool
    decreases b,
{
    a.tag != b.tag || {
        &&& keys_unique(a.props)
        &&& keys_unique(b.props)
        &&& merged_props(a.props, b.props) == b.props
        &&& a.children.len() <= usize::MAX
        &&& b.children.len() <= usize::MAX
        &&& forall|j: int|
            0 <= j < b.children.len() && j < a.children.len() ==> match_index(
                a.children,
                b.children,
                j,
            ) == Some(j) && replayable(a.children[j], #[trigger] b.children[j])
    }
}

/// The length and the elements of the replayed children.
pub proof fn lemma_patched_children_idx(a: NodeV, b: NodeV, j: int)
    requires
        0 <= j <= b.children.len(),
    ensures
        patched_children(a, b, j).len() == b.children.len() - j,
        forall|m: int|
            j <= m < b.children.len() ==> patched_children(a, b, j)[m - j] == (if m
                < a.children.len() {
                patched(a.children[m], #[trigger] b.children[m])
            } else {
                b.children[m]
            }),
    decreases b.children.len() - j,
{
    if j < b.children.len() {
        lemma_patched_children_idx(a, b, j + 1);
    }
}

/// The replayed tree renders exactly like the new tree.
pub proof fn lemma_patched_renders_like_new(a: NodeV, b: NodeV, reg: Seq<(u64, Seq<char>)>)
    requires
        replayable(a, b),
    ensures
        render_v(patched(a, b), reg) == render_v(b, reg),
    decreases b, 1nat, 0nat,
{
    if a.tag == b.tag {
        let pt = patched(a, b);
        assert(pt.tag == b.tag);
        assert(pt.props == b.props);
        lemma_patched_children_render(a, b, reg, 0);
    }
}

proof fn lemma_patched_children_render(a: NodeV, b: NodeV, reg: Seq<(u64, Seq<char>)>, j: int)
    requires
        replayable(a, b),
        a.tag == b.tag,
        0 <= j <= b.children.len(),
    ensures
        render_children_v(patched(a, b), reg, j) == render_children_v(b, reg, j),
    decreases b, 0nat, b.children.len() - j,
{
    let pt = patched(a, b);
    lemma_patched_children_idx(a, b, 0);
    assert(pt.children.len() == b.children.len());
    if j < b.children.len() {
        assert(pt.children[j] == patched_children(a, b, 0)[j]);
        if j < a.children.len() {
            assert(replayable(a.children[j], b.children[j]));
            lemma_patched_renders_like_new(a.children[j], b.children[j], reg);
            assert(render_v(pt.children[j], reg) == render_v(b.children[j], reg));
        } else {
            assert(pt.children[j] == b.children[j]);
        }
        lemma_patched_children_render(a, b, reg, j + 1);
    }
}

/// The old properties with every value refreshed from `seen` where `seen`
/// binds the key.
pub open spec fn upd_by(
    op: Seq<(Seq<char>, ValueV)>,
    seen: Seq<(Seq<char>, ValueV)>,
) -> Seq<(Seq<char>, ValueV)>
    decreases op.len(),
{
    if op.len() == 0 {
        Seq::empty()
    } else {
        seq![
            match prop_lookup(seen, op[0].0) {
                Some(v) => (op[0].0, v),
                None => op[0],
            },
        ] + upd_by(op.drop_first(), seen)
    }
}

/// A failed lookup means no entry carries the key.
proof fn lemma_lookup_none_keys(s: Seq<(Seq<char>, ValueV)>, k: Seq<char>)
    requires
        prop_lookup(s, k) is None,
    ensures
        forall|m: int| 0 <= m < s.len() ==> (#[trigger] s[m]).0 != k,
    decreases s.len(),
{
    if s.len() > 0 {
        lemma_lookup_none_keys(s.drop_first(), k);
        assert forall|m: int| 0 <= m < s.len() implies (#[trigger] s[m]).0 != k by {
            if m > 0 {
                assert(s.drop_first()[m - 1] == s[m]);
            }
        }
    }
}

/// A successful lookup resolves to the first entry carrying the key.
proof fn lemma_lookup_some_index(s: Seq<(Seq<char>, ValueV)>, k: Seq<char>)
    requires
        prop_lookup(s, k) is Some,
    ensures
        exists|m: int|
            0 <= m < s.len() && (#[trigger] s[m]).0 == k && s[m].1 == prop_lookup(s, k)->Some_0
                && (forall|l: int| 0 <= l < m ==> (#[trigger] s[l]).0 != k),
    decreases s.len(),
{
    if s[0].0 == k {
        assert(0 <= 0 < s.len() && (#[trigger] s[0]).0 == k && s[0].1 == prop_lookup(s, k)->Some_0
            && (forall|l: int| 0 <= l < 0 ==> (#[trigger] s[l]).0 != k));
    } else {
        lemma_lookup_some_index(s.drop_first(), k);
        let m0 = choose|m: int|
            0 <= m < s.drop_first().len() && (#[trigger] s.drop_first()[m]).0 == k
                && s.drop_first()[m].1 == prop_lookup(s.drop_first(), k)->Some_0 && (forall|l: int|
                0 <= l < m ==> (#[trigger] s.drop_first()[l]).0 != k);
        assert forall|l: int| 0 <= l < m0 + 1 implies (#[trigger] s[l]).0 != k by {
            if l > 0 {
                assert(s.drop_first()[l - 1] == s[l]);
            }
        }
        assert(s[m0 + 1] == s.drop_first()[m0]);
        assert(0 <= m0 + 1 < s.len() && (#[trigger] s[m0 + 1]).0 == k && s[m0 + 1].1
            == prop_lookup(s, k)->Some_0 && (forall|l: int|
            0 <= l < m0 + 1 ==> (#[trigger] s[l]).0 != k));
    }
}

/// Looking a key up in an extended list: an existing binding wins, else the
/// appended entry answers.
proof fn lemma_lookup_snoc(s: Seq<(Seq<char>, ValueV)>, x: (Seq<char>, ValueV), k: Seq<char>)
    ensures
        prop_lookup(s.push(x), k) == (if prop_lookup(s, k) is Some {
            prop_lookup(s, k)
        } else if x.0 == k {
            Some(x.1)
        } else {
            None::<ValueV>
        }),
    decreases s.len(),
{
    if s.len() == 0 {
        assert(s.push(x)[0] == x);
        assert(s.push(x).drop_first() =~= Seq::<(Seq<char>, ValueV)>::empty());
        assert(prop_lookup(Seq::<(Seq<char>, ValueV)>::empty(), k) is None);
    } else {
        lemma_lookup_snoc(s.drop_first(), x, k);
        assert(s.push(x)[0] == s[0]);
        assert(s.push(x).drop_first() =~= s.drop_first().push(x));
    }
}

/// The refreshed list, element by element.
proof fn lemma_upd_by_idx(op: Seq<(Seq<char>, ValueV)>, seen: Seq<(Seq<char>, ValueV)>)
    ensures
        upd_by(op, seen).len() == op.len(),
        forall|m: int|
            0 <= m < op.len() ==> upd_by(op, seen)[m] == (match prop_lookup(
                seen,
                (#[trigger] op[m]).0,
            ) {
                Some(v) => (op[m].0, v),
                None => op[m],
            }),
    decreases op.len(),
{
    if op.len() > 0 {
        lemma_upd_by_idx(op.drop_first(), seen);
        assert forall|m: int|
            0 <= m < op.len() implies upd_by(op, seen)[m] == (match prop_lookup(
                seen,
                (#[trigger] op[m]).0,
            ) {
                Some(v) => (op[m].0, v),
                None => op[m],
            }) by {
            if m > 0 {
                assert(op.drop_first()[m - 1] == op[m]);
                assert(upd_by(op, seen)[m] == upd_by(op.drop_first(), seen)[m - 1]);
            }
        }
    }
}

/// Every added property is new: absent among the old keys and bound among
/// the seen ones.
proof fn lemma_added_member(op: Seq<(Seq<char>, ValueV)>, seen: Seq<(Seq<char>, ValueV)>)
    ensures
        forall|m: int|
            0 <= m < added(op, seen).len() ==> prop_lookup(op, (#[trigger] added(op, seen)[m]).0)
                is None && prop_lookup(seen, added(op, seen)[m].0) is Some,
    decreases seen.len(),
{
    if seen.len() > 0 {
        lemma_added_member(op, seen.drop_first());
        let head: Seq<(Seq<char>, ValueV)> = if prop_lookup(op, seen[0].0) is None {
            seq![seen[0]]
        } else {
            Seq::empty()
        };
        assert(added(op, seen) == head + added(op, seen.drop_first()));
        assert forall|m: int|
            0 <= m < added(op, seen).len() implies prop_lookup(
                op,
                (#[trigger] added(op, seen)[m]).0,
            ) is None && prop_lookup(seen, added(op, seen)[m].0) is Some by {
            if m < head.len() {
                assert(added(op, seen)[m] == seen[0]);
            } else {
                assert(added(op, seen)[m] == added(op, seen.drop_first())[m - head.len()]);
            }
        }
    }
}

/// Extending the seen list extends the added properties at the end.
proof fn lemma_added_snoc(
    op: Seq<(Seq<char>, ValueV)>,
    s: Seq<(Seq<char>, ValueV)>,
    x: (Seq<char>, ValueV),
)
    ensures
        added(op, s.push(x)) == added(op, s) + (if prop_lookup(op, x.0) is None {
            seq![x]
        } else {
            Seq::<(Seq<char>, ValueV)>::empty()
        }),
    decreases s.len(),
{
    if s.len() == 0 {
        assert(s.push(x)[0] == x);
        assert(s.push(x).drop_first() =~= Seq::<(Seq<char>, ValueV)>::empty());
        assert(added(op, Seq::<(Seq<char>, ValueV)>::empty()) == Seq::<(Seq<char>, ValueV)>::empty());
        if prop_lookup(op, x.0) is None {
            assert(added(op, s.push(x)) =~~= added(op, s) + seq![x]);
        } else {
            assert(added(op, s.push(x)) =~~= added(op, s) + Seq::<(Seq<char>, ValueV)>::empty());
        }
    } else {
        lemma_added_snoc(op, s.drop_first(), x);
        assert(s.push(x)[0] == s[0]);
        assert(s.push(x).drop_first() =~= s.drop_first().push(x));
        if prop_lookup(op, x.0) is None {
            assert(added(op, s.push(x)) =~~= added(op, s) + seq![x]);
        } else {
            assert(added(op, s.push(x)) =~~= added(op, s) + Seq::<(Seq<char>, ValueV)>::empty());
        }
    }
}

/// Extending the old list extends the kept properties at the end.
proof fn lemma_kept_snoc(
    s: Seq<(Seq<char>, ValueV)>,
    x: (Seq<char>, ValueV),
    np: Seq<(Seq<char>, ValueV)>,
)
    ensures
        kept(s.push(x), np) == kept(s, np) + (match prop_lookup(np, x.0) {
            Some(v) => seq![(x.0, v)],
            None => Seq::<(Seq<char>, ValueV)>::empty(),
        }),
    decreases s.len(),
{
    if s.len() == 0 {
        assert(s.push(x)[0] == x);
        assert(s.push(x).drop_first() =~= Seq::<(Seq<char>, ValueV)>::empty());
        assert(kept(Seq::<(Seq<char>, ValueV)>::empty(), np) == Seq::<(Seq<char>, ValueV)>::empty());
        match prop_lookup(np, x.0) {
            Some(v) => {
                assert(kept(s.push(x), np) =~~= kept(s, np) + seq![(x.0, v)]);
            },
            None => {
                assert(kept(s.push(x), np) =~~= kept(s, np) + Seq::<(Seq<char>, ValueV)>::empty());
            },
        }
    } else {
        lemma_kept_snoc(s.drop_first(), x, np);
        assert(s.push(x)[0] == s[0]);
        assert(s.push(x).drop_first() =~= s.drop_first().push(x));
        match prop_lookup(np, x.0) {
            Some(v) => {
                assert(kept(s.push(x), np) =~~= kept(s, np) + seq![(x.0, v)]);
            },
            None => {
                assert(kept(s.push(x), np) =~~= kept(s, np) + Seq::<(Seq<char>, ValueV)>::empty());
            },
        }
    }
}

/// Removal distributes over concatenation.
proof fn lemma_props_remove_concat(
    xs: Seq<(Seq<char>, ValueV)>,
    ys: Seq<(Seq<char>, ValueV)>,
    k: Seq<char>,
)
    ensures
        props_remove(xs + ys, k) == props_remove(xs, k) + props_remove(ys, k),
    decreases xs.len(),
{
    if xs.len() == 0 {
        assert(xs + ys =~= ys);
        assert(props_remove(xs, k) + props_remove(ys, k) =~~= props_remove(ys, k));
    } else {
        lemma_props_remove_concat(xs.drop_first(), ys, k);
        assert((xs + ys)[0] == xs[0]);
        assert((xs + ys).drop_first() =~= xs.drop_first() + ys);
        assert(props_remove(xs + ys, k) =~~= props_remove(xs, k) + props_remove(ys, k));
    }
}

/// Removing an absent key changes nothing.
proof fn lemma_props_remove_absent(s: Seq<(Seq<char>, ValueV)>, k: Seq<char>)
    requires
        forall|m: int| 0 <= m < s.len() ==> (#[trigger] s[m]).0 != k,
    ensures
        props_remove(s, k) == s,
    decreases s.len(),
{
    if s.len() > 0 {
        assert forall|m: int| 0 <= m < s.drop_first().len() implies (#[trigger] s.drop_first()[m]).0
            != k by {
            assert(s.drop_first()[m] == s[m + 1]);
        }
        lemma_props_remove_absent(s.drop_first(), k);
        assert(props_remove(s, k) =~~= s);
    }
}

/// Every kept property's key is bound among the new ones.
proof fn lemma_kept_member(s: Seq<(Seq<char>, ValueV)>, np: Seq<(Seq<char>, ValueV)>)
    ensures
        forall|m: int|
            0 <= m < kept(s, np).len() ==> prop_lookup(np, (#[trigger] kept(s, np)[m]).0) is Some,
    decreases s.len(),
{
    if s.len() > 0 {
        lemma_kept_member(s.drop_first(), np);
        let head: Seq<(Seq<char>, ValueV)> = match prop_lookup(np, s[0].0) {
            Some(v) => seq![(s[0].0, v)],
            None => Seq::empty(),
        };
        assert(kept(s, np) == head + kept(s.drop_first(), np));
        assert forall|m: int|
            0 <= m < kept(s, np).len() implies prop_lookup(np, (#[trigger] kept(s, np)[m]).0)
                is Some by {
            if m < head.len() {
                assert(kept(s, np)[m] == head[0]);
            } else {
                assert(kept(s, np)[m] == kept(s.drop_first(), np)[m - head.len()]);
            }
        }
    }
}

/// Replacing a subtree by itself changes nothing.
pub proof fn lemma_replace_id(t: NodeV, p: Seq<usize>, s: NodeV)
    requires
        subtree_at(t, p) == Some(s),
    ensures
        replace_at(t, p, s) == t,
    decreases p.len(),
{
    if p.len() > 0 {
        let i = p[0] as int;
        lemma_replace_id(t.children[i], p.drop_first(), s);
        assert(t.children.update(i, t.children[i]) =~= t.children);
        assert(replace_at(t, p, s) =~~= t);
    }
}

/// The property list midway through replaying the additions and updates:
/// the first `i` new properties have refreshed the old values in place or
/// been appended.
pub open spec fn stage1(
    op: Seq<(Seq<char>, ValueV)>,
    np: Seq<(Seq<char>, ValueV)>,
    i: int,
) -> Seq<(Seq<char>, ValueV)> {
    upd_by(op, np.take(i)) + added(op, np.take(i))
}

/// The property list midway through replaying the removals: the first `i`
/// old properties have been dropped where their key is not new.
pub open spec fn stage2(
    op: Seq<(Seq<char>, ValueV)>,
    np: Seq<(Seq<char>, ValueV)>,
    i: int,
) -> Seq<(Seq<char>, ValueV)> {
    kept(op.take(i), np) + upd_by(op.skip(i), np) + added(op, np)
}

/// In a duplicate-free list, the prefix before an index does not bind that
/// index's key.
proof fn lemma_take_unique_lookup(np: Seq<(Seq<char>, ValueV)>, i: int)
    requires
        keys_unique(np),
        0 <= i < np.len(),
    ensures
        prop_lookup(np.take(i), np[i].0) is None,
{
    assert forall|j: int| 0 <= j < i implies (#[trigger] np.take(i)[j]).0 != np[i].0 by {
        assert(np.take(i)[j] == np[j]);
    }
    crate::diff::lemma_prop_lookup_at(np.take(i), np[i].0, i);
}

/// Replaying an addition moves the stage forward by one.
proof fn lemma_stage1_add(op: Seq<(Seq<char>, ValueV)>, np: Seq<(Seq<char>, ValueV)>, i: int)
    requires
        keys_unique(np),
        0 <= i < np.len(),
        prop_lookup(op, np[i].0) is None,
    ensures
        props_set(stage1(op, np, i), np[i].0, np[i].1) == stage1(op, np, i + 1),
{
    let k = np[i].0;
    let v = np[i].1;
    lemma_take_unique_lookup(np, i);
    lemma_upd_by_idx(op, np.take(i));
    lemma_upd_by_idx(op, np.take(i + 1));
    lemma_lookup_none_keys(op, k);
    lemma_added_member(op, np.take(i));
    let u = upd_by(op, np.take(i));
    let ad = added(op, np.take(i));
    assert forall|m: int| 0 <= m < stage1(op, np, i).len() implies (#[trigger] stage1(op, np, i)[m]).0
        != k by {
        if m < u.len() {
            assert(stage1(op, np, i)[m] == u[m]);
            assert(u[m].0 == op[m].0);
        } else {
            assert(stage1(op, np, i)[m] == ad[m - u.len()]);
            assert(prop_lookup(np.take(i), ad[m - u.len()].0) is Some);
        }
    }
    crate::node::lemma_props_set_absent(stage1(op, np, i), k, v);
    assert(np.take(i + 1) =~= np.take(i).push(np[i]));
    lemma_added_snoc(op, np.take(i), np[i]);
    assert forall|m: int| 0 <= m < op.len() implies upd_by(op, np.take(i + 1))[m] == upd_by(
        op,
        np.take(i),
    )[m] by {
        lemma_lookup_snoc(np.take(i), np[i], op[m].0);
    }
    assert(upd_by(op, np.take(i + 1)) =~~= upd_by(op, np.take(i)));
    assert(stage1(op, np, i).push((k, v)) =~~= stage1(op, np, i + 1));
}

/// Replaying an update, or skipping an unchanged value, moves the stage
/// forward by one.
proof fn lemma_stage1_upd(
    op: Seq<(Seq<char>, ValueV)>,
    np: Seq<(Seq<char>, ValueV)>,
    i: int,
    w: ValueV,
)
    requires
        keys_unique(op),
        keys_unique(np),
        0 <= i < np.len(),
        prop_lookup(op, np[i].0) == Some(w),
    ensures
        w != np[i].1 ==> props_set(stage1(op, np, i), np[i].0, np[i].1) == stage1(op, np, i + 1),
        w == np[i].1 ==> stage1(op, np, i) == stage1(op, np, i + 1),
{
    let k = np[i].0;
    let v = np[i].1;
    lemma_take_unique_lookup(np, i);
    lemma_lookup_some_index(op, k);
    let m0 = choose|m: int|
        0 <= m < op.len() && (#[trigger] op[m]).0 == k && op[m].1 == prop_lookup(op, k)->Some_0
            && (forall|l: int| 0 <= l < m ==> (#[trigger] op[l]).0 != k);
    lemma_upd_by_idx(op, np.take(i));
    lemma_upd_by_idx(op, np.take(i + 1));
    assert(np.take(i + 1) =~= np.take(i).push(np[i]));
    lemma_added_snoc(op, np.take(i), np[i]);
    let u = upd_by(op, np.take(i));
    assert(stage1(op, np, i)[m0] == u[m0]);
    assert(u[m0] == (k, w));
    assert forall|m: int| 0 <= m < op.len() implies upd_by(op, np.take(i + 1))[m] == (if m == m0 {
        (k, v)
    } else {
        u[m]
    }) by {
        lemma_lookup_snoc(np.take(i), np[i], op[m].0);
        if m != m0 && op[m].0 == k {
            // impossible: keys are unique and m0 already carries k
            assert(false);
        }
    }
    assert(upd_by(op, np.take(i + 1)) =~~= u.update(m0, (k, v)));
    assert(stage1(op, np, i + 1) =~~= stage1(op, np, i).update(m0, (k, v)));
    if w != v {
        assert forall|l: int| 0 <= l < m0 implies (#[trigger] stage1(op, np, i)[l]).0 != k by {
            assert(stage1(op, np, i)[l] == u[l]);
            assert(u[l].0 == op[l].0);
            assert(op[l].0 != k);
        }
        crate::node::lemma_props_set_at(stage1(op, np, i), k, v, m0);
    } else {
        assert(stage1(op, np, i + 1) =~~= stage1(op, np, i));
    }
}

/// Replaying starts from the old properties.
proof fn lemma_stage1_start(op: Seq<(Seq<char>, ValueV)>, np: Seq<(Seq<char>, ValueV)>)
    ensures
        stage1(op, np, 0) == op,
{
    assert(np.take(0) =~= Seq::<(Seq<char>, ValueV)>::empty());
    lemma_upd_by_idx(op, Seq::empty());
    assert(prop_lookup(Seq::<(Seq<char>, ValueV)>::empty(), arbitrary()) is None);
    assert forall|m: int| 0 <= m < op.len() implies upd_by(
        op,
        Seq::<(Seq<char>, ValueV)>::empty(),
    )[m] == op[m] by {
        assert(prop_lookup(Seq::<(Seq<char>, ValueV)>::empty(), op[m].0) is None);
    }
    assert(added(op, Seq::<(Seq<char>, ValueV)>::empty()) == Seq::<(Seq<char>, ValueV)>::empty());
    assert(stage1(op, np, 0) =~~= op);
}

/// The removal phase starts where the addition phase ended.
proof fn lemma_stage2_start(op: Seq<(Seq<char>, ValueV)>, np: Seq<(Seq<char>, ValueV)>)
    ensures
        stage2(op, np, 0) == stage1(op, np, np.len() as int),
{
    assert(op.take(0) =~= Seq::<(Seq<char>, ValueV)>::empty());
    assert(kept(Seq::<(Seq<char>, ValueV)>::empty(), np) == Seq::<(Seq<char>, ValueV)>::empty());
    assert(op.skip(0) =~= op);
    assert(np.take(np.len() as int) =~= np);
    assert(stage2(op, np, 0) =~~= stage1(op, np, np.len() as int));
}

/// The removal phase ends at the merged properties.
proof fn lemma_stage2_end(op: Seq<(Seq<char>, ValueV)>, np: Seq<(Seq<char>, ValueV)>)
    ensures
        stage2(op, np, op.len() as int) == merged_props(op, np),
{
    assert(op.take(op.len() as int) =~= op);
    assert(op.skip(op.len() as int) =~= Seq::<(Seq<char>, ValueV)>::empty());
    assert(upd_by(Seq::<(Seq<char>, ValueV)>::empty(), np) == Seq::<(Seq<char>, ValueV)>::empty());
    assert(stage2(op, np, op.len() as int) =~~= merged_props(op, np));
}

/// Replaying a removal moves the stage forward by one.
proof fn lemma_stage2_remove(op: Seq<(Seq<char>, ValueV)>, np: Seq<(Seq<char>, ValueV)>, i: int)
    requires
        keys_unique(op),
        0 <= i < op.len(),
        prop_lookup(np, op[i].0) is None,
    ensures
        props_remove(stage2(op, np, i), op[i].0) == stage2(op, np, i + 1),
{
    let k = op[i].0;
    let u = upd_by(op.skip(i), np);
    let ke = kept(op.take(i), np);
    let ad = added(op, np);
    lemma_kept_member(op.take(i), np);
    lemma_added_member(op, np);
    lemma_upd_by_idx(op.skip(i), np);
    lemma_upd_by_idx(op.skip(i + 1), np);
    lemma_props_remove_concat(ke + u, ad, k);
    lemma_props_remove_concat(ke, u, k);
    assert forall|m: int| 0 <= m < ke.len() implies (#[trigger] ke[m]).0 != k by {
        assert(prop_lookup(np, ke[m].0) is Some);
    }
    lemma_props_remove_absent(ke, k);
    assert forall|m: int| 0 <= m < ad.len() implies (#[trigger] ad[m]).0 != k by {
        assert(prop_lookup(np, ad[m].0) is Some);
    }
    lemma_props_remove_absent(ad, k);
    // the refreshed remainder starts with the removed key and continues
    // with the refreshed rest
    assert(op.skip(i)[0] == op[i]);
    assert(u[0].0 == k);
    assert(op.skip(i).drop_first() =~= op.skip(i + 1));
    assert(u.drop_first() =~~= upd_by(op.skip(i + 1), np));
    assert forall|m: int| 0 <= m < upd_by(op.skip(i + 1), np).len() implies (#[trigger] upd_by(
        op.skip(i + 1),
        np,
    )[m]).0 != k by {
        assert(upd_by(op.skip(i + 1), np)[m].0 == op.skip(i + 1)[m].0);
        assert(op.skip(i + 1)[m] == op[i + 1 + m]);
    }
    lemma_props_remove_absent(upd_by(op.skip(i + 1), np), k);
    assert(props_remove(u, k) == props_remove(u.drop_first(), k));
    assert(props_remove(u, k) == upd_by(op.skip(i + 1), np));
    assert(op.take(i + 1) =~= op.take(i).push(op[i]));
    lemma_kept_snoc(op.take(i), op[i], np);
    assert(kept(op.take(i + 1), np) =~~= ke);
    assert(props_remove(stage2(op, np, i), k) =~~= stage2(op, np, i + 1));
}

/// A surviving old property only changes the bookkeeping: the stage is the
/// same list, split one step later.
proof fn lemma_stage2_keep(
    op: Seq<(Seq<char>, ValueV)>,
    np: Seq<(Seq<char>, ValueV)>,
    i: int,
    v: ValueV,
)
    requires
        0 <= i < op.len(),
        prop_lookup(np, op[i].0) == Some(v),
    ensures
        stage2(op, np, i) == stage2(op, np, i + 1),
{
    let k = op[i].0;
    lemma_upd_by_idx(op.skip(i), np);
    lemma_upd_by_idx(op.skip(i + 1), np);
    assert(op.skip(i)[0] == op[i]);
    assert(op.skip(i).drop_first() =~= op.skip(i + 1));
    assert(upd_by(op.skip(i), np)[0] == (k, v));
    assert(upd_by(op.skip(i), np).drop_first() =~~= upd_by(op.skip(i + 1), np));
    assert(upd_by(op.skip(i), np) =~~= seq![(k, v)] + upd_by(op.skip(i + 1), np));
    assert(op.take(i + 1) =~= op.take(i).push(op[i]));
    lemma_kept_snoc(op.take(i), op[i], np);
    assert(kept(op.take(i + 1), np) =~~= kept(op.take(i), np).push((k, v)));
    assert(stage2(op, np, i) =~~= stage2(op, np, i + 1));
}

/// Replaying the additions and updates from index `i` on drives the subtree
/// at `p` from stage `i` to the fully refreshed stage.
proof fn lemma_apply_adds(
    t: NodeV,
    p: Seq<usize>,
    base: NodeV,
    np: Seq<(Seq<char>, ValueV)>,
    i: int,
)
    requires
        keys_unique(base.props),
        keys_unique(np),
        0 <= i <= np.len(),
        subtree_at(t, p) == Some(NodeV { props: stage1(base.props, np, i), ..base }),
    ensures
        apply_list_v(t, adds_updates_from(base.props, np, p, i)) == Ok::<NodeV, ApplyError>(
            replace_at(t, p, NodeV { props: stage1(base.props, np, np.len() as int), ..base }),
        ),
    decreases np.len() - i,
{
    let op = base.props;
    let s_i = NodeV { props: stage1(op, np, i), ..base };
    if i == np.len() {
        lemma_replace_id(t, p, s_i);
        assert(apply_list_v(t, Seq::<PatchV>::empty()) == Ok::<NodeV, ApplyError>(t));
        assert(adds_updates_from(op, np, p, i) =~= Seq::<PatchV>::empty());
    } else {
        let k = np[i].0;
        let v = np[i].1;
        match prop_lookup(op, k) {
            None => {
                let q = PatchV::AddProp { path: p, key: k, value: v };
                assert(adds_updates_from(op, np, p, i) == seq![q] + adds_updates_from(
                    op,
                    np,
                    p,
                    i + 1,
                ));
                lemma_apply_list_concat(t, seq![q], adds_updates_from(op, np, p, i + 1));
                lemma_apply_list_one(t, q);
                lemma_apply_patch_at(t, p, s_i, q);
                lemma_stage1_add(op, np, i);
                let s_next = NodeV { props: stage1(op, np, i + 1), ..base };
                assert(apply_op_v(s_i, q) == Ok::<NodeV, ApplyError>(s_next));
                let t1 = replace_at(t, p, s_next);
                lemma_replace_subtree(t, p, s_next);
                lemma_apply_adds(t1, p, base, np, i + 1);
                let s_end = NodeV { props: stage1(op, np, np.len() as int), ..base };
                lemma_replace_replace(t, p, s_next, s_end);
            },
            Some(w) => {
                lemma_stage1_upd(op, np, i, w);
                if w != v {
                    let q = PatchV::UpdateProp { path: p, key: k, value: v };
                    assert(adds_updates_from(op, np, p, i) == seq![q] + adds_updates_from(
                        op,
                        np,
                        p,
                        i + 1,
                    ));
                    lemma_apply_list_concat(t, seq![q], adds_updates_from(op, np, p, i + 1));
                    lemma_apply_list_one(t, q);
                    lemma_apply_patch_at(t, p, s_i, q);
                    let s_next = NodeV { props: stage1(op, np, i + 1), ..base };
                    assert(apply_op_v(s_i, q) == Ok::<NodeV, ApplyError>(s_next));
                    let t1 = replace_at(t, p, s_next);
                    lemma_replace_subtree(t, p, s_next);
                    lemma_apply_adds(t1, p, base, np, i + 1);
                    let s_end = NodeV { props: stage1(op, np, np.len() as int), ..base };
                    lemma_replace_replace(t, p, s_next, s_end);
                } else {
                    assert(adds_updates_from(op, np, p, i) =~= adds_updates_from(
                        op,
                        np,
                        p,
                        i + 1,
                    ));
                    assert(stage1(op, np, i) == stage1(op, np, i + 1));
                    lemma_apply_adds(t, p, base, np, i + 1);
                }
            },
        }
    }
}

/// Replaying the removals from index `i` on drives the subtree at `p` from
/// stage `i` to the merged properties.
proof fn lemma_apply_removes(
    t: NodeV,
    p: Seq<usize>,
    base: NodeV,
    np: Seq<(Seq<char>, ValueV)>,
    i: int,
)
    requires
        keys_unique(base.props),
        0 <= i <= base.props.len(),
        subtree_at(t, p) == Some(NodeV { props: stage2(base.props, np, i), ..base }),
    ensures
        apply_list_v(t, removals_from(base.props, np, p, i)) == Ok::<NodeV, ApplyError>(
            replace_at(
                t,
                p,
                NodeV { props: stage2(base.props, np, base.props.len() as int), ..base },
            ),
        ),
    decreases base.props.len() - i,
{
    let op = base.props;
    let s_i = NodeV { props: stage2(op, np, i), ..base };
    if i == op.len() {
        lemma_replace_id(t, p, s_i);
        assert(apply_list_v(t, Seq::<PatchV>::empty()) == Ok::<NodeV, ApplyError>(t));
        assert(removals_from(op, np, p, i) =~= Seq::<PatchV>::empty());
    } else {
        let k = op[i].0;
        match prop_lookup(np, k) {
            None => {
                let q = PatchV::RemoveProp { path: p, key: k };
                assert(removals_from(op, np, p, i) == seq![q] + removals_from(op, np, p, i + 1));
                lemma_apply_list_concat(t, seq![q], removals_from(op, np, p, i + 1));
                lemma_apply_list_one(t, q);
                lemma_apply_patch_at(t, p, s_i, q);
                lemma_stage2_remove(op, np, i);
                let s_next = NodeV { props: stage2(op, np, i + 1), ..base };
                assert(apply_op_v(s_i, q) == Ok::<NodeV, ApplyError>(s_next));
                let t1 = replace_at(t, p, s_next);
                lemma_replace_subtree(t, p, s_next);
                lemma_apply_removes(t1, p, base, np, i + 1);
                let s_end = NodeV { props: stage2(op, np, op.len() as int), ..base };
                lemma_replace_replace(t, p, s_next, s_end);
            },
            Some(v) => {
                lemma_stage2_keep(op, np, i, v);
                assert(removals_from(op, np, p, i) =~= removals_from(op, np, p, i + 1));
                lemma_apply_removes(t, p, base, np, i + 1);
            },
        }
    }
}

/// Replaying the whole property diff drives the subtree at `p` from the old
/// properties to the merged ones.
proof fn lemma_apply_props(t: NodeV, p: Seq<usize>, a: NodeV, np: Seq<(Seq<char>, ValueV)>)
    requires
        keys_unique(a.props),
        keys_unique(np),
        subtree_at(t, p) == Some(a),
    ensures
        apply_list_v(t, prop_diff(a.props, np, p)) == Ok::<NodeV, ApplyError>(
            replace_at(t, p, NodeV { props: merged_props(a.props, np), ..a }),
        ),
{
    let op = a.props;
    lemma_stage1_start(op, np);
    assert(a =~~= (NodeV { props: stage1(op, np, 0), ..a }));
    lemma_apply_list_concat(t, adds_updates_from(op, np, p, 0), removals_from(op, np, p, 0));
    lemma_apply_adds(t, p, a, np, 0);
    let s_mid = NodeV { props: stage1(op, np, np.len() as int), ..a };
    let t1 = replace_at(t, p, s_mid);
    lemma_replace_subtree(t, p, s_mid);
    lemma_stage2_start(op, np);
    assert(s_mid =~~= (NodeV { props: stage2(op, np, 0), ..a }));
    lemma_apply_removes(t1, p, a, np, 0);
    let s_end = NodeV { props: stage2(op, np, op.len() as int), ..a };
    lemma_replace_replace(t, p, s_mid, s_end);
    lemma_stage2_end(op, np);
    assert(s_end =~~= (NodeV { props: merged_props(op, np), ..a }));
}

/// The children after the child segments have been replayed but before the
/// structural patches: pairs within both lists replayed, old trailing
/// children still in place.
pub open spec fn final_children(a: NodeV, b: NodeV) -> Seq<NodeV> {
    Seq::new(
        a.children.len(),
        |m: int|
            if 0 <= m < a.children.len() {
                if m < b.children.len() {
                    patched(a.children[m], b.children[m])
                } else {
                    a.children[m]
                }
            } else {
                arbitrary()
            },
    )
}

/// Replaying the child segments from index `j` on patches each matched pair
/// in place.
proof fn lemma_apply_children(a: NodeV, b: NodeV, p: Seq<usize>, t: NodeV, j: int, u: NodeV)
    requires
        replayable(a, b),
        a.tag == b.tag,
        0 <= j <= b.children.len(),
        subtree_at(t, p) == Some(u),
        u.children.len() == a.children.len(),
        forall|m: int|
            0 <= m < a.children.len() ==> #[trigger] u.children[m] == (if m < j
                && m < b.children.len() {
                patched(a.children[m], b.children[m])
            } else {
                a.children[m]
            }),
    ensures
        apply_list_v(t, child_diffs(a.children, b, j, p)) == Ok::<NodeV, ApplyError>(
            replace_at(t, p, NodeV { children: final_children(a, b), ..u }),
        ),
    decreases b, 0nat, b.children.len() - j,
{
    if j == b.children.len() {
        assert(child_diffs(a.children, b, j, p) =~= Seq::<PatchV>::empty());
        assert(apply_list_v(t, Seq::<PatchV>::empty()) == Ok::<NodeV, ApplyError>(t));
        assert forall|m: int| 0 <= m < a.children.len() implies u.children[m] == final_children(
            a,
            b,
        )[m] by {
            assert(final_children(a, b)[m] == (if m < b.children.len() {
                patched(a.children[m], b.children[m])
            } else {
                a.children[m]
            }));
        }
        assert(u.children =~= final_children(a, b));
        assert(u =~~= (NodeV { children: final_children(a, b), ..u }));
        lemma_replace_id(t, p, u);
    } else {
        if j < a.children.len() {
            assert(match_index(a.children, b.children, j) == Some(j));
            assert(replayable(a.children[j], b.children[j]));
            let seg = diff_v(a.children[j], b.children[j], p.push(j as usize));
            assert(child_diffs(a.children, b, j, p) == seg + child_diffs(a.children, b, j + 1, p));
            lemma_apply_list_concat(t, seg, child_diffs(a.children, b, j + 1, p));
            assert(u.children[j] == a.children[j]);
            lemma_subtree_push(t, p, u, j);
            lemma_apply_diff_at(a.children[j], b.children[j], p.push(j as usize), t);
            let pj = patched(a.children[j], b.children[j]);
            lemma_replace_push(t, p, u, j, pj);
            let u2 = NodeV { children: u.children.update(j, pj), ..u };
            let t1 = replace_at(t, p, u2);
            lemma_replace_subtree(t, p, u2);
            lemma_apply_children(a, b, p, t1, j + 1, u2);
            assert((NodeV { children: final_children(a, b), ..u2 }) =~~= (NodeV {
                children: final_children(a, b),
                ..u
            }));
            lemma_replace_replace(t, p, u2, NodeV { children: final_children(a, b), ..u });
        } else {
            assert(match_index(a.children, b.children, j) is None);
            assert(child_diffs(a.children, b, j, p) =~= child_diffs(a.children, b, j + 1, p));
            lemma_apply_children(a, b, p, t, j + 1, u);
        }
    }
}

/// Replaying the diff of a replayable pair, addressed at `p`, turns the old
/// subtree there into the replayed tree, and nothing else.
pub proof fn lemma_apply_diff_at(a: NodeV, b: NodeV, p: Seq<usize>, t: NodeV)
    requires
        replayable(a, b),
        subtree_at(t, p) == Some(a),
    ensures
        apply_list_v(t, diff_v(a, b, p)) == Ok::<NodeV, ApplyError>(
            replace_at(t, p, patched(a, b)),
        ),
    decreases b, 1nat, 0nat,
{
    if a.tag != b.tag {
        let q = PatchV::ReplaceNode { path: p, node: b };
        assert(diff_v(a, b, p) == seq![q]);
        lemma_apply_list_one(t, q);
        lemma_apply_patch_at(t, p, a, q);
        assert(apply_op_v(a, q) == Ok::<NodeV, ApplyError>(b));
    } else {
        let pd = prop_diff(a.props, b.props, p);
        let cd = child_diffs(a.children, b, 0, p);
        let so = structural_ops(a.children, b.children, p);
        assert(diff_v(a, b, p) == (pd + cd) + so);
        lemma_apply_list_concat(t, pd + cd, so);
        lemma_apply_list_concat(t, pd, cd);
        lemma_apply_props(t, p, a, b.props);
        let a1 = NodeV { props: merged_props(a.props, b.props), ..a };
        let t1 = replace_at(t, p, a1);
        lemma_replace_subtree(t, p, a1);
        lemma_apply_children(a, b, p, t1, 0, a1);
        let a2 = NodeV { children: final_children(a, b), ..a1 };
        lemma_replace_replace(t, p, a1, a2);
        let t2 = replace_at(t, p, a2);
        lemma_replace_subtree(t, p, a2);
        lemma_patched_children_idx(a, b, 0);
        if b.children.len() < a.children.len() {
            let q = PatchV::RemoveChildren {
                path: p,
                start: b.children.len() as usize,
                end: a.children.len() as usize,
            };
            assert(so == seq![q]);
            lemma_apply_list_one(t2, q);
            lemma_apply_patch_at(t2, p, a2, q);
            let a3 = NodeV {
                children: a2.children.subrange(0, b.children.len() as int)
                    + a2.children.subrange(
                    a.children.len() as int,
                    a2.children.len() as int,
                ),
                ..a2
            };
            assert(apply_op_v(a2, q) == Ok::<NodeV, ApplyError>(a3));
            assert(a3.children.len() == b.children.len());
            assert forall|m: int| 0 <= m < b.children.len() implies a3.children[m]
                == patched_children(a, b, 0)[m] by {
                assert(a3.children[m] == a2.children.subrange(0, b.children.len() as int)[m]);
                assert(final_children(a, b)[m] == patched(a.children[m], b.children[m]));
                assert(patched_children(a, b, 0)[m] == patched(a.children[m], b.children[m]));
            }
            assert(a3.children =~= patched_children(a, b, 0));
            assert(a3 =~~= patched(a, b));
            lemma_replace_replace(t, p, a2, a3);
        } else if b.children.len() > a.children.len() {
            let q = PatchV::AppendChildren {
                path: p,
                nodes: b.children.skip(a.children.len() as int),
            };
            assert(so == seq![q]);
            lemma_apply_list_one(t2, q);
            lemma_apply_patch_at(t2, p, a2, q);
            let a3 = NodeV {
                children: a2.children + b.children.skip(a.children.len() as int),
                ..a2
            };
            assert(apply_op_v(a2, q) == Ok::<NodeV, ApplyError>(a3));
            assert(a3.children.len() == b.children.len());
            assert forall|m: int| 0 <= m < b.children.len() implies a3.children[m]
                == patched_children(a, b, 0)[m] by {
                if m < a.children.len() {
                    assert(a3.children[m] == final_children(a, b)[m]);
                    assert(final_children(a, b)[m] == patched(a.children[m], b.children[m]));
                } else {
                    assert(a3.children[m] == b.children.skip(a.children.len() as int)[m
                        - a.children.len()]);
                    assert(a3.children[m] == b.children[m]);
                }
                assert(patched_children(a, b, 0)[m] == (if m < a.children.len() {
                    patched(a.children[m], b.children[m])
                } else {
                    b.children[m]
                }));
            }
            assert(a3.children =~= patched_children(a, b, 0));
            assert(a3 =~~= patched(a, b));
            lemma_replace_replace(t, p, a2, a3);
        } else {
            assert(so =~= Seq::<PatchV>::empty());
            assert(apply_list_v(t2, Seq::<PatchV>::empty()) == Ok::<NodeV, ApplyError>(t2));
            assert forall|m: int| 0 <= m < b.children.len() implies a2.children[m]
                == patched_children(a, b, 0)[m] by {
                assert(final_children(a, b)[m] == patched(a.children[m], b.children[m]));
                assert(patched_children(a, b, 0)[m] == patched(a.children[m], b.children[m]));
            }
            assert(a2.children =~= patched_children(a, b, 0));
            assert(a2 =~~= patched(a, b));
        }
    }
}

/// Replay correctness: on a replayable pair the diff applies cleanly to the
/// old tree, and the tree it produces renders exactly like the new tree,
/// under any handler registry.
pub proof fn lemma_replay_correct(a: NodeV, b: NodeV, reg: Seq<(u64, Seq<char>)>)
    requires
        replayable(a, b),
    ensures
        apply_list_v(a, diff_v(a, b, Seq::empty())) == Ok::<NodeV, ApplyError>(patched(a, b)),
        render_v(patched(a, b), reg) == render_v(b, reg),
{
    assert(subtree_at(a, Seq::<usize>::empty()) == Some(a));
    lemma_apply_diff_at(a, b, Seq::empty(), a);
    assert(replace_at(a, Seq::<usize>::empty(), patched(a, b)) == patched(a, b));
    lemma_patched_renders_like_new(a, b, reg);
}

} // verus!
