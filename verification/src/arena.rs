//! The search tree's storage: an index-addressed arena of nodes, with the
//! model that the engine's proofs speak of.

use indextree::Arena;
use std::num::NonZeroUsize;
use vstd::prelude::*;

verus! {

/// One decision point of the explored tree.
#[derive(Clone, Copy, Debug)]
pub struct MctsNode {
    /// The action that led here; means nothing at the root.
    pub action: u64,
    /// The best score of any playout below this node.
    pub best_rollout: u64,
    /// The number of playouts below this node.
    pub num_simulations: u64,
    /// The sum of the scores of the playouts below this node.
    pub total_accumulation: u64,
    /// Whether the node's children have been made.
    pub is_expanded: bool,
    /// Whether the game is over here.
    pub terminally_searched: bool,
}

impl MctsNode {
    /// A node reached by `action`, with nothing played below it yet.
    pub fn fresh(action: u64) -> (node: Self)
        ensures
            node == fresh_node(action),
    {
        MctsNode {
            action,
            best_rollout: 0,
            num_simulations: 0,
            total_accumulation: 0,
            is_expanded: false,
            terminally_searched: false,
        }
    }

    /// The node after a round below it of `rounds` playouts whose scores sum
    /// to `sum` and peak at `best`; the totals stop at the largest number.
    pub fn credited(self, best: u64, sum: u64, rounds: u64) -> (node: Self)
        ensures
            node == credit(self, best, sum, rounds),
    {
        MctsNode {
            best_rollout: if best > self.best_rollout {
                best
            } else {
                self.best_rollout
            },
            total_accumulation: self.total_accumulation.saturating_add(sum),
            num_simulations: self.num_simulations.saturating_add(rounds),
            ..self
        }
    }
}

/// A node reached by `action`, with nothing played below it yet.
pub open spec fn fresh_node(action: u64) -> MctsNode {
    MctsNode {
        action,
        best_rollout: 0,
        num_simulations: 0,
        total_accumulation: 0,
        is_expanded: false,
        terminally_searched: false,
    }
}

/// The node `node` after a round below it of `rounds` playouts whose scores
/// sum to `sum` and peak at `best`.
pub open spec fn credit(node: MctsNode, best: u64, sum: u64, rounds: u64) -> MctsNode {
    MctsNode {
        best_rollout: if best > node.best_rollout {
            best
        } else {
            node.best_rollout
        },
        total_accumulation: capped_sum(node.total_accumulation, sum),
        num_simulations: capped_sum(node.num_simulations, rounds),
        ..node
    }
}

/// The sum of `a` and `b`, or the largest number where that does not fit.
pub open spec fn capped_sum(a: u64, b: u64) -> u64 {
    if a + b > u64::MAX {
        u64::MAX
    } else {
        (a + b) as u64
    }
}

/// indextree's arena: opaque, spoken of through `arena_slots` and `arena_len`.
///
/// The engine names a node by its one-based index; each wrapper below turns
/// the index into indextree's handle with `Arena::get_node_id_at`, which knows
/// every live node, and a handle into its index with `usize::from`.
#[verifier::external_type_specification]
#[verifier::external_body]
#[verifier::reject_recursive_types(T)]
pub struct ExArena<T>(Arena<T>);

/// What the arena holds of one live node.
pub struct Slot {
    /// The node's payload.
    pub payload: MctsNode,
    /// The index of the parent, `None` for a node without one.
    pub parent: Option<usize>,
    /// The indices of the children, first to last.
    pub children: Seq<usize>,
    /// The number of ancestors.
    pub depth: nat,
}

/// The live nodes of the arena, by their one-based index.
pub uninterp spec fn arena_slots(arena: Arena<MctsNode>) -> Map<usize, Slot>;

/// The number of slots of the arena, those of removed nodes among them.
pub uninterp spec fn arena_len(arena: Arena<MctsNode>) -> nat;

/// `Arena::new`: an arena without nodes or slots.
#[verifier::external_body]
pub(crate) fn arena_new() -> (made: Arena<MctsNode>)
    ensures
        arena_slots(made) == no_slots(),
        arena_len(made) == 0,
{
    Arena::new()
}

/// `Arena::new_node`: a new live node without parent or children, at an index
/// that held no live node; it takes a freed slot or one new slot, a new one
/// where there was no slot at all.
#[verifier::external_body]
pub(crate) fn arena_new_node(arena: &mut Arena<MctsNode>, payload: MctsNode) -> (index: usize)
    requires
        arena_len(*old(arena)) < usize::MAX,
    ensures
        !arena_slots(*old(arena)).dom().contains(index),
        arena_slots(*final(arena)) == arena_slots(*old(arena)).insert(
            index,
            Slot { payload, parent: None, children: Seq::empty(), depth: 0 },
        ),
        arena_len(*old(arena)) <= arena_len(*final(arena)) <= arena_len(*old(arena)) + 1,
        arena_len(*old(arena)) == 0 ==> arena_len(*final(arena)) == 1,
{
    usize::from(arena.new_node(payload))
}

/// `Arena::get` and `Node::get`: the payload of a live node.
#[verifier::external_body]
pub(crate) fn arena_read(arena: &Arena<MctsNode>, index: usize) -> (payload: MctsNode)
    requires
        arena_slots(*arena).dom().contains(index),
    ensures
        payload == arena_slots(*arena)[index].payload,
{
    let id = arena.get_node_id_at(NonZeroUsize::new(index).unwrap()).unwrap();
    *arena.get(id).unwrap().get()
}

/// `Arena::get_mut` and `Node::get_mut`: replaces the payload of a live node
/// and nothing else.
#[verifier::external_body]
pub(crate) fn arena_write(arena: &mut Arena<MctsNode>, index: usize, payload: MctsNode)
    requires
        arena_slots(*old(arena)).dom().contains(index),
    ensures
        arena_slots(*final(arena)) == arena_slots(*old(arena)).insert(
            index,
            Slot { payload, ..arena_slots(*old(arena))[index] },
        ),
        arena_len(*final(arena)) == arena_len(*old(arena)),
{
    let id = arena.get_node_id_at(NonZeroUsize::new(index).unwrap()).unwrap();
    *arena.get_mut(id).unwrap().get_mut() = payload;
}

/// `NodeId::children`: the children of a live node, first to last.
#[verifier::external_body]
pub(crate) fn arena_children(arena: &Arena<MctsNode>, index: usize) -> (children: Vec<usize>)
    requires
        arena_slots(*arena).dom().contains(index),
    ensures
        children@ == arena_slots(*arena)[index].children,
{
    let id = arena.get_node_id_at(NonZeroUsize::new(index).unwrap()).unwrap();
    id.children(arena).map(usize::from).collect()
}

/// `Node::parent`: the parent of a live node, if it has one.
#[verifier::external_body]
pub(crate) fn arena_parent(arena: &Arena<MctsNode>, index: usize) -> (parent: Option<usize>)
    requires
        arena_slots(*arena).dom().contains(index),
    ensures
        parent == arena_slots(*arena)[index].parent,
{
    let id = arena.get_node_id_at(NonZeroUsize::new(index).unwrap()).unwrap();
    arena.get(id).unwrap().parent().map(usize::from)
}

/// `NodeId::append_value`: a new live node as the last child of a live node,
/// one level below it, at an index that held no live node.
#[verifier::external_body]
pub(crate) fn arena_append(arena: &mut Arena<MctsNode>, parent: usize, payload: MctsNode) -> (index:
    usize)
    requires
        arena_slots(*old(arena)).dom().contains(parent),
        arena_len(*old(arena)) < usize::MAX,
    ensures
        !arena_slots(*old(arena)).dom().contains(index),
        arena_slots(*final(arena)) == appended(arena_slots(*old(arena)), parent, index, payload),
        arena_len(*old(arena)) <= arena_len(*final(arena)) <= arena_len(*old(arena)) + 1,
{
    let id = arena.get_node_id_at(NonZeroUsize::new(parent).unwrap()).unwrap();
    usize::from(id.append_value(payload, arena))
}

/// `NodeId::remove`, on a live node without children: the node leaves the
/// arena and its parent's list of children, and its slot stays.
#[verifier::external_body]
pub(crate) fn arena_remove(arena: &mut Arena<MctsNode>, index: usize)
    requires
        arena_slots(*old(arena)).dom().contains(index),
        arena_slots(*old(arena))[index].children.len() == 0,
    ensures
        removed(arena_slots(*old(arena)), arena_slots(*final(arena)), index),
        arena_len(*final(arena)) == arena_len(*old(arena)),
{
    let id = arena.get_node_id_at(NonZeroUsize::new(index).unwrap()).unwrap();
    id.remove(arena);
}

/// `Arena::count`: the number of slots.
#[verifier::external_body]
#[allow(deprecated)]
pub(crate) fn arena_count(arena: &Arena<MctsNode>) -> (count: usize)
    ensures
        count == arena_len(*arena),
{
    arena.count()
}

/// `Arena::live_count`: the number of live nodes.
#[verifier::external_body]
pub(crate) fn arena_live(arena: &Arena<MctsNode>) -> (count: usize)
    ensures
        count == arena_slots(*arena).dom().len(),
{
    arena.live_count()
}

/// The slots of an arena without nodes.
pub open spec fn no_slots() -> Map<usize, Slot> {
    Map::empty()
}

/// The slots after `child` with `payload` became the last child of `parent`.
pub open spec fn appended(slots: Map<usize, Slot>, parent: usize, child: usize, payload: MctsNode)
    -> Map<usize, Slot> {
    slots.insert(
        parent,
        Slot { children: slots[parent].children.push(child), ..slots[parent] },
    ).insert(
        child,
        Slot {
            payload,
            parent: Some(parent),
            children: Seq::empty(),
            depth: slots[parent].depth + 1,
        },
    )
}

/// The sequence `s` without its element at `k`.
pub open spec fn without(s: Seq<usize>, k: int) -> Seq<usize> {
    Seq::new(
        (s.len() - 1) as nat,
        |j: int|
            if j < k {
                s[j]
            } else {
                s[j + 1]
            },
    )
}

/// Whether `after` is the slot `before` with the child `id` gone from place `k`.
pub open spec fn unlisted(before: Slot, after: Slot, id: usize, k: int) -> bool {
    &&& 0 <= k < before.children.len()
    &&& before.children[k] == id
    &&& after == (Slot { children: without(before.children, k), ..before })
}

/// Whether `after` is `before` without the node `id`: gone from the live
/// nodes and from one place in its parent's children, all else as it was.
pub open spec fn removed(before: Map<usize, Slot>, after: Map<usize, Slot>, id: usize) -> bool {
    &&& after.dom() == before.dom().remove(id)
    &&& forall|x: usize|
        after.dom().contains(x) && before[id].parent != Some(x) ==> #[trigger] after[x]
            == before[x]
    &&& before[id].parent is Some && before.dom().contains(before[id].parent->0) ==> exists|k: int|
     #[trigger]
        unlisted(before[before[id].parent->0], after[before[id].parent->0], id, k)
}

} // verus!
