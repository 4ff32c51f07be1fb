use crate::fs::entry::FsEntry;
use indextree::{Arena, NodeId};
use vstd::prelude::*;

verus! {

#[verifier::external_type_specification]
#[verifier::external_body]
#[verifier::reject_recursive_types(T)]
pub struct ExArena<T>(Arena<T>);

#[verifier::external_type_specification]
#[verifier::external_body]
pub struct ExNodeId(NodeId);

/// What an `indextree::Arena` of entries holds: for each live node, keyed by
/// its `NodeId`, the entry it carries and the ids of its children in order.
pub uninterp spec fn arena_nodes(arena: Arena<FsEntry>) -> Map<NodeId, (FsEntry, Seq<NodeId>)>;

/// The shape of `arena_nodes`.
pub type ArenaModel = Map<NodeId, (FsEntry, Seq<NodeId>)>;

/// Every id but `h`.
pub open spec fn other_than(h: NodeId) -> spec_fn(NodeId) -> bool {
    |c: NodeId| c != h
}

/// `p` walks from parent to child at every step.
pub open spec fn child_chain(m: ArenaModel, p: Seq<NodeId>) -> bool {
    forall|i: int|
        #![trigger p[i]]
        0 <= i < p.len() - 1 ==> m.contains_key(p[i]) && m[p[i]].1.contains(p[i + 1])
}

/// `b` is `a` or lies below `a`.
pub open spec fn descends(m: ArenaModel, a: NodeId, b: NodeId) -> bool {
    exists|p: Seq<NodeId>| p.len() >= 1 && p[0] == a && p.last() == b && #[trigger] child_chain(m, p)
}

/// `Arena::new`: an arena with no nodes.
#[verifier::external_body]
pub(crate) fn arena_new() -> (arena: Arena<FsEntry>)
    ensures
        arena_nodes(arena) == ArenaModel::empty(),
{
    Arena::new()
}

/// `Arena::new_node`: a new live node without parent or children, under an
/// id that no live node had and that no live node lists as a child.
#[verifier::external_body]
pub(crate) fn arena_new_node(a: &mut Arena<FsEntry>, data: FsEntry) -> (h: NodeId)
    ensures
        !arena_nodes(*old(a)).contains_key(h),
        arena_nodes(*final(a)) == arena_nodes(*old(a)).insert(h, (data, Seq::<NodeId>::empty())),
        forall|p: NodeId|
            arena_nodes(*final(a)).contains_key(p) ==> !(#[trigger] arena_nodes(
                *final(a),
            )[p].1.contains(h)),
{
    a.new_node(data)
}

/// `NodeId::append`: a live childless node that no node lists as a child
/// becomes the last child of another live node.
#[verifier::external_body]
pub(crate) fn arena_append(a: &mut Arena<FsEntry>, parent: NodeId, child: NodeId)
    requires
        parent != child,
        arena_nodes(*old(a)).contains_key(parent),
        arena_nodes(*old(a)).contains_key(child),
        arena_nodes(*old(a))[child].1.len() == 0,
        forall|p: NodeId|
            arena_nodes(*old(a)).contains_key(p) ==> !(#[trigger] arena_nodes(
                *old(a),
            )[p].1.contains(child)),
    ensures
        arena_nodes(*final(a)) == arena_nodes(*old(a)).insert(
            parent,
            (arena_nodes(*old(a))[parent].0, arena_nodes(*old(a))[parent].1.push(child)),
        ),
{
    parent.append(child, a);
}

/// `NodeId::children`: the ids of a live node's children, in order.
#[verifier::external_body]
pub(crate) fn arena_children(a: &Arena<FsEntry>, h: NodeId) -> (r: Vec<NodeId>)
    requires
        arena_nodes(*a).contains_key(h),
    ensures
        r@ == arena_nodes(*a)[h].1,
{
    h.children(a).collect::<Vec<NodeId>>()
}

/// `Node::get` on `arena[id]`: the entry of a live node.
#[verifier::external_body]
pub(crate) fn arena_entry(a: &Arena<FsEntry>, h: NodeId) -> (r: &FsEntry)
    requires
        arena_nodes(*a).contains_key(h),
    ensures
        *r == arena_nodes(*a)[h].0,
{
    a[h].get()
}

/// `Node::get_mut` on `arena[id]`: the entry of a live node, to be changed in
/// place; nothing else in the arena changes.
#[verifier::external_body]
pub(crate) fn arena_entry_mut(a: &mut Arena<FsEntry>, h: NodeId) -> (r: &mut FsEntry)
    requires
        arena_nodes(*old(a)).contains_key(h),
    ensures
        *r == arena_nodes(*old(a))[h].0,
        arena_nodes(*final(a)) == arena_nodes(*old(a)).insert(
            h,
            (*final(r), arena_nodes(*old(a))[h].1),
        ),
{
    a[h].get_mut()
}

/// `NodeId::remove_subtree`: a live node and everything below it stop being
/// live, and the node leaves its parent's list of children.
#[verifier::external_body]
pub(crate) fn arena_remove_subtree(a: &mut Arena<FsEntry>, h: NodeId)
    requires
        arena_nodes(*old(a)).contains_key(h),
    ensures
        forall|k: NodeId|
            #![trigger arena_nodes(*final(a)).contains_key(k)]
            arena_nodes(*final(a)).contains_key(k) <==> (arena_nodes(*old(a)).contains_key(k)
                && !descends(arena_nodes(*old(a)), h, k)),
        forall|k: NodeId|
            #![trigger arena_nodes(*final(a))[k]]
            arena_nodes(*final(a)).contains_key(k) ==> arena_nodes(*final(a))[k] == (
                arena_nodes(*old(a))[k].0,
                arena_nodes(*old(a))[k].1.filter(other_than(h)),
            ),
{
    h.remove_subtree(a);
}

/// `Arena::get`: whether an id names a live node of the arena.
#[verifier::external_body]
pub(crate) fn arena_contains(a: &Arena<FsEntry>, h: NodeId) -> (r: bool)
    ensures
        r == arena_nodes(*a).contains_key(h),
{
    a.get(h).is_some()
}

/// `Arena::live_count`: the number of live nodes.
#[verifier::external_body]
pub(crate) fn arena_live_count(a: &Arena<FsEntry>) -> (r: usize)
    ensures
        r == arena_nodes(*a).dom().len(),
{
    a.live_count()
}

} // verus!
