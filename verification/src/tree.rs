//! The shape of a search tree inside the arena, and the steps that keep it.

use crate::arena::{
    appended, credit, no_slots, removed, unlisted, without, MctsNode, Slot,
};
use vstd::prelude::*;

verus! {

/// Whether `c` is a live node one level below its parent `id`.
pub open spec fn child_wf(slots: Map<usize, Slot>, id: usize, c: usize) -> bool {
    &&& slots.dom().contains(c)
    &&& slots[c].parent == Some(id)
    &&& slots[c].depth == slots[id].depth + 1
}

/// Whether the live node `id` sits rightly in the tree under `root`: no
/// deeper than `height`; without parent only if it is the root, else listed
/// by its parent; its children live, distinct and one level down; and with
/// children only if it was expanded and the game is not over there.
#[verifier::opaque]
pub open spec fn node_wf(slots: Map<usize, Slot>, root: usize, height: nat, id: usize) -> bool {
    let s = slots[id];
    &&& s.depth <= height
    &&& (s.parent is None <==> id == root)
    &&& (s.parent matches Some(p) ==> slots.dom().contains(p) && slots[p].depth + 1 == s.depth
        && slots[p].children.contains(id))
    &&& (forall|k: int| 0 <= k < s.children.len() ==> child_wf(slots, id, #[trigger] s.children[k]))
    &&& (forall|i: int, j: int|
        0 <= i < j < s.children.len() ==> #[trigger] s.children[i] != #[trigger] s.children[j])
    &&& (!s.payload.is_expanded ==> s.children.len() == 0)
    &&& (s.payload.terminally_searched ==> s.children.len() == 0)
}

/// Whether the live nodes, finitely many, form one tree under `root`, no
/// deeper than `height`.
pub open spec fn tree_wf(slots: Map<usize, Slot>, root: usize, height: nat) -> bool {
    &&& slots.dom().finite()
    &&& slots.dom().contains(root)
    &&& forall|id: usize| #[trigger] slots.dom().contains(id) ==> node_wf(slots, root, height, id)
}

/// Whether `after` is `before` with new nodes under `n` at most: every node
/// is still there, at its depth and under its parent, with its children
/// unless it is `n`, and every new node is a child of `n`.
pub open spec fn grown_at(before: Map<usize, Slot>, after: Map<usize, Slot>, n: usize) -> bool {
    &&& forall|x: usize| #[trigger]
        before.dom().contains(x) ==> after.dom().contains(x) && after[x].parent
            == before[x].parent && after[x].depth == before[x].depth && (x != n
            ==> after[x].children == before[x].children)
    &&& forall|x: usize| #[trigger]
        after.dom().contains(x) && !before.dom().contains(x) ==> after[x].parent == Some(n)
}

/// The actions stored on the way from the root to `node`, in that order.
pub open spec fn path_actions(slots: Map<usize, Slot>, node: usize) -> Seq<u64>
    decreases slots[node].depth,
{
    if slots[node].parent is Some && slots[slots[node].parent->0].depth < slots[node].depth {
        path_actions(slots, slots[node].parent->0).push(slots[node].payload.action)
    } else {
        Seq::empty()
    }
}

/// The way to a node is the same in two arenas that agree on parents, depths
/// and stored actions.
pub(crate) proof fn lemma_path_actions_stable(
    before: Map<usize, Slot>,
    after: Map<usize, Slot>,
    node: usize,
)
    requires
        forall|x: usize|
            (#[trigger] after[x]).parent == before[x].parent && after[x].depth == before[x].depth
                && after[x].payload.action == before[x].payload.action,
    ensures
        path_actions(after, node) == path_actions(before, node),
    decreases before[node].depth,
{
    assert(after[node].parent == before[node].parent);
    if before[node].parent is Some {
        let p = before[node].parent->0;
        assert(after[p].depth == before[p].depth);
        if before[p].depth < before[node].depth {
            lemma_path_actions_stable(before, after, p);
        }
    }
}

/// Whether `x` is `from` or one of its ancestors.
pub open spec fn on_path(slots: Map<usize, Slot>, from: usize, x: usize) -> bool
    decreases slots[from].depth,
{
    from == x || (slots[from].parent is Some && slots[slots[from].parent->0].depth
        < slots[from].depth && on_path(slots, slots[from].parent->0, x))
}

/// Whether `after` is `before` with the round credited to each node between
/// `from` and the root, and to no other.
pub open spec fn credited_along(
    before: Map<usize, Slot>,
    after: Map<usize, Slot>,
    from: usize,
    best: u64,
    sum: u64,
    rounds: u64,
) -> bool {
    &&& after.dom() == before.dom()
    &&& forall|x: usize| #[trigger]
        before.dom().contains(x) ==> after[x] == (if on_path(before, from, x) {
            Slot { payload: credit(before[x].payload, best, sum, rounds), ..before[x] }
        } else {
            before[x]
        })
}

/// Whether `after` came from `before` by pruning below `id`: no node is new
/// or has moved; the nodes no deeper than `id` are all there, and but for the
/// children of `id` nothing of them has changed.
pub open spec fn pruned_below(before: Map<usize, Slot>, after: Map<usize, Slot>, id: usize) -> bool {
    &&& forall|x: usize| #[trigger]
        after.dom().contains(x) ==> before.dom().contains(x) && after[x].depth == before[x].depth
    &&& forall|x: usize| #[trigger]
        before.dom().contains(x) && before[x].depth <= before[id].depth ==> after.dom().contains(x)
            && (x != id ==> after[x] == before[x])
    &&& after[id].payload == before[id].payload
    &&& after[id].parent == before[id].parent
}

/// A new payload in place of an old one keeps the tree, where the node has
/// no children or the new payload is expanded and not over.
pub(crate) proof fn lemma_write_keeps_tree(
    slots: Map<usize, Slot>,
    root: usize,
    height: nat,
    id: usize,
    payload: MctsNode,
)
    requires
        tree_wf(slots, root, height),
        slots.dom().contains(id),
        !payload.is_expanded || payload.terminally_searched ==> slots[id].children.len() == 0,
    ensures
        tree_wf(slots.insert(id, Slot { payload, ..slots[id] }), root, height),
{
    reveal(node_wf);
    let after = slots.insert(id, Slot { payload, ..slots[id] });
    assert forall|x: usize| #[trigger] after.dom().contains(x) implies node_wf(
        after,
        root,
        height,
        x,
    ) by {
        assert(slots.dom().contains(x));
        assert(node_wf(slots, root, height, x));
        let s = after[x];
        assert(s.children == slots[x].children);
        assert forall|k: int| 0 <= k < s.children.len() implies child_wf(
            after,
            x,
            #[trigger] s.children[k],
        ) by {
            assert(child_wf(slots, x, slots[x].children[k]));
        }
        if s.parent is Some {
            let p = s.parent->0;
            assert(after[p].children == slots[p].children);
        }
    }
}

/// A new last child keeps the tree, one level higher if need be, where the
/// parent is expanded and the game is not over there.
pub(crate) proof fn lemma_append_keeps_tree(
    slots: Map<usize, Slot>,
    root: usize,
    height: nat,
    parent: usize,
    child: usize,
    payload: MctsNode,
)
    requires
        tree_wf(slots, root, height),
        slots.dom().contains(parent),
        !slots.dom().contains(child),
        slots[parent].payload.is_expanded,
        !slots[parent].payload.terminally_searched,
        slots[parent].depth < height,
    ensures
        tree_wf(appended(slots, parent, child, payload), root, height),
{
    reveal(node_wf);
    let after = appended(slots, parent, child, payload);
    let grown = slots[parent].children.push(child);
    assert(node_wf(slots, root, height, parent));
    assert forall|x: usize| #[trigger] after.dom().contains(x) implies node_wf(
        after,
        root,
        height,
        x,
    ) by {
        if x == child {
            assert(grown[grown.len() - 1] == child);
            assert(after[parent].children.contains(child));
        } else {
            assert(slots.dom().contains(x));
            assert(node_wf(slots, root, height, x));
            let s = after[x];
            assert forall|k: int| 0 <= k < s.children.len() implies child_wf(
                after,
                x,
                #[trigger] s.children[k],
            ) by {
                if x == parent && k == grown.len() - 1 {
                } else {
                    assert(s.children[k] == slots[x].children[k]);
                    assert(child_wf(slots, x, slots[x].children[k]));
                }
            }
            assert forall|i: int, j: int| 0 <= i < j < s.children.len() implies #[trigger] s.children[i]
                != #[trigger] s.children[j] by {
                if x == parent {
                    assert(child_wf(slots, x, slots[x].children[i]));
                    if j < grown.len() - 1 {
                        assert(slots[x].children[i] != slots[x].children[j]);
                    }
                }
            }
            if s.parent is Some {
                let p = s.parent->0;
                let w = choose|w: int| 0 <= w < slots[p].children.len() && slots[p].children[w] == x;
                assert(after[p].children[w] == x);
            }
        }
    }
}

/// Taking out a node without children, other than the root, keeps the tree
/// and takes the node out of its parent's children at the one place it held.
pub(crate) proof fn lemma_remove_keeps_tree(
    before: Map<usize, Slot>,
    after: Map<usize, Slot>,
    root: usize,
    height: nat,
    id: usize,
    place: int,
)
    requires
        tree_wf(before, root, height),
        before.dom().contains(id),
        before[id].children.len() == 0,
        before[id].parent is Some,
        0 <= place < before[before[id].parent->0].children.len(),
        before[before[id].parent->0].children[place] == id,
        removed(before, after, id),
    ensures
        tree_wf(after, root, height),
        after[before[id].parent->0] == (Slot {
            children: without(before[before[id].parent->0].children, place),
            ..before[before[id].parent->0]
        }),
{
    reveal(node_wf);
    let p = before[id].parent->0;
    assert(node_wf(before, root, height, id));
    assert(node_wf(before, root, height, p));
    let old_kids = before[p].children;
    let k = choose|k: int| unlisted(before[p], after[p], id, k);
    assert(unlisted(before[p], after[p], id, k));
    if k != place {
        if k < place {
            assert(old_kids[k] != old_kids[place]);
        } else {
            assert(old_kids[place] != old_kids[k]);
        }
    }
    let new_kids = without(old_kids, place);
    assert(after[p].children == new_kids);
    assert forall|x: usize| #[trigger] after.dom().contains(x) implies node_wf(
        after,
        root,
        height,
        x,
    ) by {
        assert(before.dom().contains(x));
        assert(node_wf(before, root, height, x));
        if x == p {
            lemma_remove_parent(before, after, root, height, id, place);
        } else {
            lemma_remove_other(before, after, root, height, id, place, x);
        }
    }
}

/// The parent of a removed node still sits rightly in the tree.
proof fn lemma_remove_parent(
    before: Map<usize, Slot>,
    after: Map<usize, Slot>,
    root: usize,
    height: nat,
    id: usize,
    place: int,
)
    requires
        tree_wf(before, root, height),
        before.dom().contains(id),
        before[id].children.len() == 0,
        before[id].parent is Some,
        removed(before, after, id),
        unlisted(before[before[id].parent->0], after[before[id].parent->0], id, place),
    ensures
        node_wf(after, root, height, before[id].parent->0),
{
    reveal(node_wf);
    let p = before[id].parent->0;
    assert(node_wf(before, root, height, id));
    assert(node_wf(before, root, height, p));
    let old_kids = before[p].children;
    let s = after[p];
    assert forall|m: int| 0 <= m < s.children.len() implies child_wf(
        after,
        p,
        #[trigger] s.children[m],
    ) by {
        let m0 = if m < place {
            m
        } else {
            m + 1
        };
        let c = old_kids[m0];
        assert(s.children[m] == c);
        assert(child_wf(before, p, c));
        if m0 < place {
            assert(old_kids[m0] != old_kids[place]);
        } else {
            assert(old_kids[place] != old_kids[m0]);
        }
        assert(after.dom().contains(c));
        if c != p {
            assert(after[c] == before[c]);
        }
    }
    assert forall|i: int, j: int| 0 <= i < j < s.children.len() implies #[trigger] s.children[i]
        != #[trigger] s.children[j] by {
        let i0 = if i < place {
            i
        } else {
            i + 1
        };
        let j0 = if j < place {
            j
        } else {
            j + 1
        };
        assert(old_kids[i0] != old_kids[j0]);
    }
    if s.parent is Some {
        let q = s.parent->0;
        assert(q != id);
        assert(after.dom().contains(q));
        assert(q != p);
        assert(after[q] == before[q]);
    }
}

/// A node that is neither the removed one nor its parent still sits rightly
/// in the tree.
proof fn lemma_remove_other(
    before: Map<usize, Slot>,
    after: Map<usize, Slot>,
    root: usize,
    height: nat,
    id: usize,
    place: int,
    x: usize,
)
    requires
        tree_wf(before, root, height),
        before.dom().contains(id),
        before[id].children.len() == 0,
        before[id].parent is Some,
        removed(before, after, id),
        unlisted(before[before[id].parent->0], after[before[id].parent->0], id, place),
        after.dom().contains(x),
        x != before[id].parent->0,
    ensures
        node_wf(after, root, height, x),
{
    reveal(node_wf);
    let p = before[id].parent->0;
    assert(node_wf(before, root, height, id));
    assert(node_wf(before, root, height, p));
    assert(node_wf(before, root, height, x));
    assert(after[x] == before[x]);
    let old_kids = before[p].children;
    let s = after[x];
    assert forall|m: int| 0 <= m < s.children.len() implies child_wf(
        after,
        x,
        #[trigger] s.children[m],
    ) by {
        let c = before[x].children[m];
        assert(child_wf(before, x, c));
        assert(c != id);
        assert(after.dom().contains(c));
        if c != p {
            assert(after[c] == before[c]);
        }
    }
    if s.parent is Some {
        let q = s.parent->0;
        assert(before[q].children.contains(x));
        let w = choose|w: int| 0 <= w < before[q].children.len() && before[q].children[w] == x;
        if q == id {
        } else if q == p {
            let w1 = if w < place {
                w
            } else {
                w - 1
            };
            assert(without(old_kids, place)[w1] == x);
        } else {
            assert(after.dom().contains(q));
            assert(after[q] == before[q]);
            assert(after[q].children[w] == x);
        }
    }
}

/// Pruning below a child of `id` is pruning below `id`, and leaves `id` and
/// the child's place under it as they were.
pub(crate) proof fn lemma_pruned_deeper(
    start: Map<usize, Slot>,
    before: Map<usize, Slot>,
    middle: Map<usize, Slot>,
    id: usize,
    child: usize,
)
    requires
        start.dom().contains(id),
        before.dom().contains(id),
        pruned_below(start, before, id),
        child_wf(before, id, child),
        pruned_below(before, middle, child),
    ensures
        pruned_below(start, middle, id),
        middle.dom().contains(id),
        middle[id] == before[id],
        child_wf(middle, id, child),
        middle[child].payload == before[child].payload,
{
    assert(before[id].depth == start[id].depth);
    assert forall|x: usize| #[trigger]
        start.dom().contains(x) && start[x].depth <= start[id].depth implies middle.dom().contains(
        x,
    ) && (x != id ==> middle[x] == start[x]) by {
        assert(before.dom().contains(x));
        assert(before[x].depth == start[x].depth);
    }
}

/// Taking out a child of `id` after pruning below `id` is pruning below `id`.
pub(crate) proof fn lemma_pruned_removed(
    start: Map<usize, Slot>,
    middle: Map<usize, Slot>,
    after: Map<usize, Slot>,
    id: usize,
    child: usize,
)
    requires
        start.dom().contains(id),
        middle.dom().contains(id),
        pruned_below(start, middle, id),
        child_wf(middle, id, child),
        removed(middle, after, child),
    ensures
        pruned_below(start, after, id),
        after.dom().contains(id),
{
    assert(middle[id].depth == start[id].depth);
    let k = choose|k: int| unlisted(middle[id], after[id], child, k);
    assert(unlisted(middle[id], after[id], child, k));
    assert forall|x: usize| #[trigger] after.dom().contains(x) implies start.dom().contains(x)
        && after[x].depth == start[x].depth by {
        assert(middle.dom().contains(x));
        if x != id {
            assert(after[x] == middle[x]);
        }
    }
    assert forall|x: usize| #[trigger]
        start.dom().contains(x) && start[x].depth <= start[id].depth implies after.dom().contains(
        x,
    ) && (x != id ==> after[x] == start[x]) by {
        assert(middle.dom().contains(x));
        assert(middle[x].depth == start[x].depth);
        assert(x != child);
        if x != id {
            assert(after[x] == middle[x]);
        }
    }
}

/// What the tree says of one live node: its depth is within the bound, it has
/// children only if it was expanded and the game goes on there, and it has
/// no parent only if it is the root, else a live parent one level up.
pub(crate) proof fn lemma_node_facts(slots: Map<usize, Slot>, root: usize, height: nat, id: usize)
    requires
        tree_wf(slots, root, height),
        slots.dom().contains(id),
    ensures
        slots[id].depth <= height,
        !slots[id].payload.is_expanded ==> slots[id].children.len() == 0,
        slots[id].payload.terminally_searched ==> slots[id].children.len() == 0,
        slots[id].parent is None <==> id == root,
        slots[id].parent is Some ==> slots.dom().contains(slots[id].parent->0)
            && slots[slots[id].parent->0].depth + 1 == slots[id].depth,
{
    reveal(node_wf);
    assert(node_wf(slots, root, height, id));
}

/// What the tree says of the child at place `k` of a live node: it is live,
/// one level down, within the bound, and at no other place.
pub(crate) proof fn lemma_child_facts(slots: Map<usize, Slot>, root: usize, height: nat, id: usize, k: int)
    requires
        tree_wf(slots, root, height),
        slots.dom().contains(id),
        0 <= k < slots[id].children.len(),
    ensures
        child_wf(slots, id, slots[id].children[k]),
        slots[slots[id].children[k]].depth <= height,
{
    reveal(node_wf);
    assert(node_wf(slots, root, height, id));
    assert(node_wf(slots, root, height, slots[id].children[k]));
}

/// A tree within a bound is within every higher bound.
pub(crate) proof fn lemma_taller(slots: Map<usize, Slot>, root: usize, low: nat, high: nat)
    requires
        tree_wf(slots, root, low),
        low <= high,
    ensures
        tree_wf(slots, root, high),
{
    reveal(node_wf);
    assert forall|x: usize| #[trigger] slots.dom().contains(x) implies node_wf(
        slots,
        root,
        high,
        x,
    ) by {
        assert(node_wf(slots, root, low, x));
    }
}

/// A root without parent or children, alone in the arena, is a tree.
pub(crate) proof fn lemma_single_root(slots: Map<usize, Slot>, root: usize, payload: MctsNode)
    requires
        slots == no_slots().insert(
            root,
            Slot { payload, parent: None, children: Seq::empty(), depth: 0 },
        ),
    ensures
        tree_wf(slots, root, 0),
{
    reveal(node_wf);
    assert(node_wf(slots, root, 0, root));
}

/// The parent of a node on the path from `from` is on that path too.
pub(crate) proof fn lemma_path_grows(slots: Map<usize, Slot>, from: usize, x: usize)
    requires
        on_path(slots, from, x),
        slots[x].parent is Some,
        slots[slots[x].parent->0].depth < slots[x].depth,
    ensures
        on_path(slots, from, slots[x].parent->0),
    decreases slots[from].depth,
{
    if from != x {
        lemma_path_grows(slots, slots[from].parent->0, x);
    } else {
        assert(on_path(slots, slots[x].parent->0, slots[x].parent->0));
    }
}

/// Every node on the path from `from` is no deeper than `from`.
pub(crate) proof fn lemma_path_climbs(slots: Map<usize, Slot>, from: usize, x: usize)
    ensures
        on_path(slots, from, x) ==> slots[x].depth <= slots[from].depth,
        on_path(slots, from, x) && x != from ==> slots[x].depth < slots[from].depth,
    decreases slots[from].depth,
{
    if from != x && on_path(slots, from, x) {
        lemma_path_climbs(slots, slots[from].parent->0, x);
    }
}

/// The path from every live node ends at the root.
pub(crate) proof fn lemma_root_on_path(slots: Map<usize, Slot>, root: usize, height: nat, x: usize)
    requires
        tree_wf(slots, root, height),
        slots.dom().contains(x),
    ensures
        on_path(slots, x, root),
    decreases slots[x].depth,
{
    lemma_node_facts(slots, root, height, x);
    if x != root {
        lemma_root_on_path(slots, root, height, slots[x].parent->0);
    }
}

/// Under a root without children there is no other node.
pub(crate) proof fn lemma_bare_root_alone(slots: Map<usize, Slot>, root: usize, height: nat, x: usize)
    requires
        tree_wf(slots, root, height),
        slots[root].children.len() == 0,
        slots.dom().contains(x),
    ensures
        x == root,
    decreases slots[x].depth,
{
    reveal(node_wf);
    assert(node_wf(slots, root, height, x));
    if x != root {
        let p = slots[x].parent->0;
        lemma_bare_root_alone(slots, root, height, p);
    }
}

/// Whether nothing is left to search below the node of `slot`: the game is
/// over there, or its children were made and none is left.
pub open spec fn settled(slot: Slot) -> bool {
    slot.payload.terminally_searched || (slot.payload.is_expanded && slot.children.len() == 0)
}

/// Whether every node of `after` is a node of `before`, at its depth, under
/// its parent and with its payload.
pub open spec fn survivors(before: Map<usize, Slot>, after: Map<usize, Slot>) -> bool {
    forall|x: usize| #[trigger]
        after.dom().contains(x) ==> before.dom().contains(x) && after[x].depth == before[x].depth
            && after[x].parent == before[x].parent && after[x].payload == before[x].payload
}

/// Whether `after` is `before` swept below `id`: no node is new or has
/// changed but in its children, nothing outside the subtree of `id` has
/// changed at all, and no settled node is left below `id`.
pub open spec fn swept(before: Map<usize, Slot>, after: Map<usize, Slot>, id: usize) -> bool {
    &&& survivors(before, after)
    &&& after.dom().contains(id)
    &&& forall|x: usize| #[trigger]
        before.dom().contains(x) && !on_path(before, x, id) ==> after.dom().contains(x) && after[x]
            == before[x]
    &&& forall|x: usize| #[trigger]
        after.dom().contains(x) && on_path(before, x, id) && x != id ==> !settled(after[x])
}

/// Whether `cur` is `start` swept below the first `k` children of `id`, and
/// as it was everywhere else.
pub open spec fn partly_swept(
    start: Map<usize, Slot>,
    cur: Map<usize, Slot>,
    id: usize,
    kids: Seq<usize>,
    k: int,
) -> bool {
    &&& survivors(start, cur)
    &&& cur.dom().contains(id)
    &&& forall|x: usize| #[trigger]
        start.dom().contains(x) && !on_path(start, x, id) ==> cur.dom().contains(x) && cur[x]
            == start[x]
    &&& forall|x: usize, m: int|
        cur.dom().contains(x) && 0 <= m < k && #[trigger] on_path(start, x, kids[m]) ==> !settled(
            cur[x],
        )
    &&& forall|x: usize, m: int|
        start.dom().contains(x) && k <= m < kids.len() && #[trigger] on_path(start, x, kids[m])
            ==> cur.dom().contains(x) && cur[x] == start[x]
}

/// What the tree says of two children of a live node: they differ.
pub(crate) proof fn lemma_children_distinct(
    slots: Map<usize, Slot>,
    root: usize,
    height: nat,
    id: usize,
    i: int,
    j: int,
)
    requires
        tree_wf(slots, root, height),
        slots.dom().contains(id),
        0 <= i < slots[id].children.len(),
        0 <= j < slots[id].children.len(),
        i != j,
    ensures
        slots[id].children[i] != slots[id].children[j],
{
    reveal(node_wf);
    assert(node_wf(slots, root, height, id));
    if i < j {
        assert(slots[id].children[i] != slots[id].children[j]);
    } else {
        assert(slots[id].children[j] != slots[id].children[i]);
    }
}

/// What the tree says of a node with a parent: the parent lists it.
pub(crate) proof fn lemma_listed(slots: Map<usize, Slot>, root: usize, height: nat, x: usize)
    requires
        tree_wf(slots, root, height),
        slots.dom().contains(x),
        slots[x].parent is Some,
    ensures
        slots[slots[x].parent->0].children.contains(x),
{
    reveal(node_wf);
    assert(node_wf(slots, root, height, x));
}

/// The path from a surviving node is what it was.
pub(crate) proof fn lemma_path_stable(
    before: Map<usize, Slot>,
    after: Map<usize, Slot>,
    root: usize,
    height: nat,
    x: usize,
    t: usize,
)
    requires
        tree_wf(after, root, height),
        survivors(before, after),
        after.dom().contains(x),
    ensures
        on_path(after, x, t) == on_path(before, x, t),
    decreases after[x].depth,
{
    lemma_node_facts(after, root, height, x);
    if x != t && after[x].parent is Some {
        lemma_path_stable(before, after, root, height, after[x].parent->0, t);
    }
}

/// A node has one ancestor at each depth.
pub(crate) proof fn lemma_path_unique(slots: Map<usize, Slot>, x: usize, a: usize, b: usize)
    requires
        on_path(slots, x, a),
        on_path(slots, x, b),
        slots[a].depth == slots[b].depth,
    ensures
        a == b,
    decreases slots[x].depth,
{
    lemma_path_climbs(slots, x, a);
    lemma_path_climbs(slots, x, b);
    if x != a && x != b {
        lemma_path_unique(slots, slots[x].parent->0, a, b);
    }
}

/// An ancestor of an ancestor is an ancestor.
pub(crate) proof fn lemma_path_joins(slots: Map<usize, Slot>, x: usize, c: usize, id: usize)
    requires
        on_path(slots, x, c),
        on_path(slots, c, id),
    ensures
        on_path(slots, x, id),
    decreases slots[x].depth,
{
    if x != c {
        lemma_path_joins(slots, slots[x].parent->0, c, id);
    }
}

/// Below a node without children there is nothing.
pub(crate) proof fn lemma_nothing_below_leaf(
    slots: Map<usize, Slot>,
    root: usize,
    height: nat,
    id: usize,
    x: usize,
)
    requires
        tree_wf(slots, root, height),
        slots.dom().contains(x),
        slots[id].children.len() == 0,
        on_path(slots, x, id),
    ensures
        x == id,
    decreases slots[x].depth,
{
    if x != id {
        lemma_node_facts(slots, root, height, x);
        lemma_listed(slots, root, height, x);
        lemma_nothing_below_leaf(slots, root, height, id, slots[x].parent->0);
    }
}

/// Every node below `id` is a child of `id` or below one.
pub(crate) proof fn lemma_below_some_child(
    slots: Map<usize, Slot>,
    root: usize,
    height: nat,
    id: usize,
    x: usize,
) -> (m: int)
    requires
        tree_wf(slots, root, height),
        slots.dom().contains(x),
        on_path(slots, x, id),
        x != id,
    ensures
        0 <= m < slots[id].children.len(),
        on_path(slots, x, slots[id].children[m]),
    decreases slots[x].depth,
{
    lemma_node_facts(slots, root, height, x);
    let p = slots[x].parent->0;
    if p == id {
        lemma_listed(slots, root, height, x);
        let m = choose|m: int| 0 <= m < slots[id].children.len() && slots[id].children[m] == x;
        m
    } else {
        lemma_below_some_child(slots, root, height, id, p)
    }
}

/// A tree is swept below a node without children as it stands.
pub(crate) proof fn lemma_leaf_is_swept(slots: Map<usize, Slot>, root: usize, height: nat, id: usize)
    requires
        tree_wf(slots, root, height),
        slots.dom().contains(id),
        slots[id].children.len() == 0,
    ensures
        swept(slots, slots, id),
{
    assert forall|x: usize| #[trigger]
        slots.dom().contains(x) && on_path(slots, x, id) && x != id implies !settled(slots[x]) by {
        lemma_nothing_below_leaf(slots, root, height, id, x);
    }
}

/// A tree swept below none of the children of `id` is the tree as it was.
pub(crate) proof fn lemma_sweep_starts(slots: Map<usize, Slot>, id: usize)
    requires
        slots.dom().contains(id),
    ensures
        partly_swept(slots, slots, id, slots[id].children, 0),
{
}

/// A tree swept below each child of `id` is swept below `id`.
pub(crate) proof fn lemma_sweep_ends(
    start: Map<usize, Slot>,
    cur: Map<usize, Slot>,
    root: usize,
    height: nat,
    id: usize,
)
    requires
        tree_wf(start, root, height),
        start.dom().contains(id),
        partly_swept(start, cur, id, start[id].children, start[id].children.len() as int),
    ensures
        swept(start, cur, id),
{
    let kids = start[id].children;
    assert forall|x: usize| #[trigger]
        cur.dom().contains(x) && on_path(start, x, id) && x != id implies !settled(cur[x]) by {
        let m = lemma_below_some_child(start, root, height, id, x);
        assert(on_path(start, x, kids[m]));
    }
}

/// Sweeping below the next child of `id`, and taking the child out if it is
/// settled then, sweeps below one child more.
pub(crate) proof fn lemma_sweep_step(
    start: Map<usize, Slot>,
    before: Map<usize, Slot>,
    middle: Map<usize, Slot>,
    after: Map<usize, Slot>,
    root: usize,
    height: nat,
    id: usize,
    k: int,
    searched: bool,
)
    requires
        tree_wf(start, root, height),
        tree_wf(before, root, height),
        tree_wf(middle, root, height),
        start.dom().contains(id),
        0 <= k < start[id].children.len(),
        partly_swept(start, before, id, start[id].children, k),
        child_wf(before, id, start[id].children[k]),
        swept(before, middle, start[id].children[k]),
        searched == settled(middle[start[id].children[k]]),
        searched ==> removed(middle, after, start[id].children[k]),
        !searched ==> after == middle,
    ensures
        partly_swept(start, after, id, start[id].children, k + 1),
{
    let kids = start[id].children;
    let c = kids[k];
    lemma_child_facts(start, root, height, id, k);
    assert(on_path(start, id, id));
    assert(on_path(start, c, id));
    assert(on_path(start, c, c));
    // the node itself is outside the child's subtree
    lemma_path_climbs(before, id, c);
    assert(middle[id] == before[id]);
    assert forall|x: usize| #[trigger] after.dom().contains(x) implies (middle.dom().contains(x)
        && (x != id ==> after[x] == middle[x]) && after[x].depth == middle[x].depth
        && after[x].parent == middle[x].parent && after[x].payload == middle[x].payload) by {
        if searched && x == id {
            let w = choose|w: int| unlisted(middle[id], after[id], c, w);
            assert(unlisted(middle[id], after[id], c, w));
        }
    }
    assert(after.dom().contains(id));
    assert forall|x: usize|
        #[trigger] start.dom().contains(x) && !on_path(start, x, c) && before.dom().contains(
            x,
        ) implies !on_path(before, x, c) by {
        lemma_path_stable(start, before, root, height, x, c);
    }
    assert forall|x: usize| #[trigger]
        start.dom().contains(x) && !on_path(start, x, id) implies after.dom().contains(x)
        && after[x] == start[x] by {
        if on_path(start, x, c) {
            lemma_path_joins(start, x, c, id);
        }
        assert(middle.dom().contains(x) && middle[x] == before[x]);
    }
    assert forall|x: usize, m: int|
        after.dom().contains(x) && 0 <= m < k + 1 && #[trigger] on_path(
            start,
            x,
            kids[m],
        ) implies !settled(after[x]) by {
        assert(before.dom().contains(x));
        lemma_child_facts(start, root, height, id, m);
        lemma_path_climbs(start, x, kids[m]);
        assert(x != id);
        if m < k {
            lemma_children_distinct(start, root, height, id, m, k);
            if on_path(start, x, c) {
                lemma_path_unique(start, x, kids[m], c);
            }
            assert(middle[x] == before[x]);
            assert(x != c);
        } else {
            lemma_path_stable(start, before, root, height, x, c);
            if x == c {
                assert(!searched);
            }
        }
    }
    assert forall|x: usize, m: int|
        start.dom().contains(x) && k + 1 <= m < kids.len() && #[trigger] on_path(
            start,
            x,
            kids[m],
        ) implies after.dom().contains(x) && after[x] == start[x] by {
        lemma_child_facts(start, root, height, id, m);
        lemma_path_climbs(start, x, kids[m]);
        lemma_children_distinct(start, root, height, id, m, k);
        if on_path(start, x, c) {
            lemma_path_unique(start, x, kids[m], c);
        }
        assert(before.dom().contains(x) && before[x] == start[x]);
        assert(middle.dom().contains(x) && middle[x] == before[x]);
        assert(x != c);
        assert(x != id);
    }
}

} // verus!
