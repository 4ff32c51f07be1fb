use crate::fs::arena::{child_chain, descends, other_than, ArenaModel};
use crate::fs::entry::FsEntry;
use indextree::NodeId;
use vstd::prelude::*;

verus! {

/// A node of the tree as the library sees it: the arena index that holds it,
/// its entry, and its children in order.
pub struct FsNode {
    pub handle: NodeId,
    pub entry: FsEntry,
    pub children: Seq<FsNode>,
}

/// The arena indices of a list of nodes.
pub open spec fn handles(cs: Seq<FsNode>) -> Seq<NodeId> {
    cs.map_values(|c: FsNode| c.handle)
}

/// The arena holds the node and everything below it, as the node describes.
pub open spec fn wf_node(m: ArenaModel, t: FsNode) -> bool
    decreases t,
{
    &&& m.contains_key(t.handle)
    &&& m[t.handle] == (t.entry, handles(t.children))
    &&& wf_nodes(m, t.children)
}

pub open spec fn wf_nodes(m: ArenaModel, cs: Seq<FsNode>) -> bool
    decreases cs,
{
    cs.len() > 0 ==> wf_nodes(m, cs.drop_last()) && wf_node(m, cs.last())
}

/// The index `h` is the node's own or one below it.
pub open spec fn in_tree(t: FsNode, h: NodeId) -> bool
    decreases t,
{
    h == t.handle || in_nodes(t.children, h)
}

pub open spec fn in_nodes(cs: Seq<FsNode>, h: NodeId) -> bool
    decreases cs,
{
    cs.len() > 0 && (in_nodes(cs.drop_last(), h) || in_tree(cs.last(), h))
}

/// No index occurs twice in the tree.
pub open spec fn distinct_node(t: FsNode) -> bool
    decreases t,
{
    !in_nodes(t.children, t.handle) && distinct_nodes(t.children)
}

pub open spec fn distinct_nodes(cs: Seq<FsNode>) -> bool
    decreases cs,
{
    cs.len() > 0 ==> {
        &&& distinct_nodes(cs.drop_last())
        &&& distinct_node(cs.last())
        &&& forall|h: NodeId| in_tree(cs.last(), h) ==> !in_nodes(cs.drop_last(), h)
    }
}


pub proof fn lemma_wf_nodes_index(m: ArenaModel, cs: Seq<FsNode>, i: int)
    requires
        wf_nodes(m, cs),
        0 <= i < cs.len(),
    ensures
        wf_node(m, cs[i]),
    decreases cs.len(),
{
    if i < cs.len() - 1 {
        lemma_wf_nodes_index(m, cs.drop_last(), i);
        assert(cs.drop_last()[i] == cs[i]);
    }
}

pub proof fn lemma_wf_nodes_intro(m: ArenaModel, cs: Seq<FsNode>)
    requires
        forall|i: int| 0 <= i < cs.len() ==> wf_node(m, #[trigger] cs[i]),
    ensures
        wf_nodes(m, cs),
    decreases cs.len(),
{
    if cs.len() > 0 {
        let d = cs.drop_last();
        assert forall|i: int| 0 <= i < d.len() implies wf_node(m, #[trigger] d[i]) by {
            assert(d[i] == cs[i]);
        }
        lemma_wf_nodes_intro(m, d);
    }
}

pub proof fn lemma_in_nodes(cs: Seq<FsNode>, h: NodeId)
    ensures
        in_nodes(cs, h) <==> exists|i: int| 0 <= i < cs.len() && #[trigger] in_tree(cs[i], h),
    decreases cs.len(),
{
    if cs.len() > 0 {
        let d = cs.drop_last();
        lemma_in_nodes(d, h);
        if in_nodes(cs, h) {
            if in_nodes(d, h) {
                let i = choose|i: int| 0 <= i < d.len() && #[trigger] in_tree(d[i], h);
                assert(d[i] == cs[i]);
            } else {
                assert(in_tree(cs[cs.len() - 1], h));
            }
        }
        if exists|i: int| 0 <= i < cs.len() && #[trigger] in_tree(cs[i], h) {
            let i = choose|i: int| 0 <= i < cs.len() && #[trigger] in_tree(cs[i], h);
            if i < cs.len() - 1 {
                assert(d[i] == cs[i]);
                assert(in_tree(d[i], h));
            }
        }
    }
}

pub proof fn lemma_in_nodes_index(cs: Seq<FsNode>, i: int, h: NodeId)
    requires
        0 <= i < cs.len(),
        in_tree(cs[i], h),
    ensures
        in_nodes(cs, h),
{
    lemma_in_nodes(cs, h);
}

pub proof fn lemma_distinct_nodes_index(cs: Seq<FsNode>, i: int)
    requires
        distinct_nodes(cs),
        0 <= i < cs.len(),
    ensures
        distinct_node(cs[i]),
    decreases cs.len(),
{
    if i < cs.len() - 1 {
        lemma_distinct_nodes_index(cs.drop_last(), i);
        assert(cs.drop_last()[i] == cs[i]);
    }
}

pub proof fn lemma_distinct_nodes_disjoint(cs: Seq<FsNode>, i: int, j: int, h: NodeId)
    requires
        distinct_nodes(cs),
        0 <= i < cs.len(),
        0 <= j < cs.len(),
        i != j,
        in_tree(cs[i], h),
    ensures
        !in_tree(cs[j], h),
    decreases cs.len(),
{
    let d = cs.drop_last();
    let last = cs.len() - 1;
    if i < last && j < last {
        assert(d[i] == cs[i] && d[j] == cs[j]);
        lemma_distinct_nodes_disjoint(d, i, j, h);
    } else if i == last {
        assert(d[j] == cs[j]);
        if in_tree(cs[j], h) {
            lemma_in_nodes_index(d, j, h);
        }
    } else {
        assert(d[i] == cs[i]);
        lemma_in_nodes_index(d, i, h);
    }
}

pub proof fn lemma_distinct_nodes_intro(cs: Seq<FsNode>)
    requires
        forall|i: int| 0 <= i < cs.len() ==> distinct_node(#[trigger] cs[i]),
        forall|i: int, j: int, h: NodeId|
            0 <= i < cs.len() && 0 <= j < cs.len() && i != j && in_tree(cs[i], h) ==> !in_tree(
                cs[j],
                h,
            ),
    ensures
        distinct_nodes(cs),
    decreases cs.len(),
{
    if cs.len() > 0 {
        let d = cs.drop_last();
        let last = cs.len() - 1;
        assert forall|i: int| 0 <= i < d.len() implies distinct_node(#[trigger] d[i]) by {
            assert(d[i] == cs[i]);
        }
        assert forall|i: int, j: int, h: NodeId|
            0 <= i < d.len() && 0 <= j < d.len() && i != j && in_tree(d[i], h) implies !in_tree(
            d[j],
            h,
        ) by {
            assert(d[i] == cs[i] && d[j] == cs[j]);
        }
        lemma_distinct_nodes_intro(d);
        assert forall|h: NodeId| in_tree(cs.last(), h) implies !in_nodes(d, h) by {
            lemma_in_nodes(d, h);
            if in_nodes(d, h) {
                let i = choose|i: int| 0 <= i < d.len() && #[trigger] in_tree(d[i], h);
                assert(d[i] == cs[i]);
            }
        }
    }
}


/// `p` leads from the node down to one below it, a child index at each step.
pub open spec fn valid_pos(t: FsNode, p: Seq<int>) -> bool
    decreases p.len(),
{
    p.len() > 0 ==> 0 <= p[0] < t.children.len() && valid_pos(t.children[p[0]], p.drop_first())
}

/// The node that `p` leads to.
pub open spec fn node_at(t: FsNode, p: Seq<int>) -> FsNode
    decreases p.len(),
{
    if p.len() == 0 {
        t
    } else {
        node_at(t.children[p[0]], p.drop_first())
    }
}

/// The tree with the node that `p` leads to replaced by `n`.
pub open spec fn update_at(t: FsNode, p: Seq<int>, n: FsNode) -> FsNode
    decreases p.len(),
{
    if p.len() == 0 {
        n
    } else {
        FsNode {
            handle: t.handle,
            entry: t.entry,
            children: t.children.update(p[0], update_at(t.children[p[0]], p.drop_first(), n)),
        }
    }
}

pub proof fn lemma_node_at_push(t: FsNode, p: Seq<int>, i: int)
    requires
        valid_pos(t, p),
        0 <= i < node_at(t, p).children.len(),
    ensures
        valid_pos(t, p.push(i)),
        node_at(t, p.push(i)) == node_at(t, p).children[i],
    decreases p.len(),
{
    let q = p.push(i);
    if p.len() > 0 {
        let c = t.children[p[0]];
        assert(node_at(t, p) == node_at(c, p.drop_first()));
        lemma_node_at_push(c, p.drop_first(), i);
        assert(q.drop_first() =~= p.drop_first().push(i));
        assert(q[0] == p[0]);
        assert(valid_pos(c, q.drop_first()));
        assert(node_at(t, q) == node_at(c, q.drop_first()));
    } else {
        assert(q.drop_first() =~= Seq::<int>::empty());
        assert(q[0] == i);
        let c = t.children[i];
        assert(valid_pos(c, q.drop_first()));
        assert(node_at(c, q.drop_first()) == c);
        assert(node_at(t, q) == node_at(c, q.drop_first()));
    }
}

pub proof fn lemma_node_at_in_tree(t: FsNode, p: Seq<int>)
    requires
        valid_pos(t, p),
    ensures
        in_tree(t, node_at(t, p).handle),
    decreases p.len(),
{
    if p.len() > 0 {
        lemma_node_at_in_tree(t.children[p[0]], p.drop_first());
        lemma_in_nodes_index(t.children, p[0], node_at(t, p).handle);
    }
}

pub proof fn lemma_node_at_wf(m: ArenaModel, t: FsNode, p: Seq<int>)
    requires
        valid_pos(t, p),
        wf_node(m, t),
    ensures
        wf_node(m, node_at(t, p)),
    decreases p.len(),
{
    if p.len() > 0 {
        lemma_wf_nodes_index(m, t.children, p[0]);
        lemma_node_at_wf(m, t.children[p[0]], p.drop_first());
    }
}

pub proof fn lemma_node_at_distinct(t: FsNode, p: Seq<int>)
    requires
        valid_pos(t, p),
        distinct_node(t),
    ensures
        distinct_node(node_at(t, p)),
    decreases p.len(),
{
    if p.len() > 0 {
        lemma_distinct_nodes_index(t.children, p[0]);
        lemma_node_at_distinct(t.children[p[0]], p.drop_first());
    }
}

/// Every index in the tree is that of the node at some position.
pub proof fn lemma_in_tree_pos(t: FsNode, h: NodeId) -> (p: Seq<int>)
    requires
        in_tree(t, h),
    ensures
        valid_pos(t, p),
        node_at(t, p).handle == h,
    decreases t,
{
    if h == t.handle {
        Seq::<int>::empty()
    } else {
        lemma_in_nodes(t.children, h);
        let i = choose|i: int| 0 <= i < t.children.len() && #[trigger] in_tree(t.children[i], h);
        let q = lemma_in_tree_pos(t.children[i], h);
        let p = seq![i] + q;
        assert(p.drop_first() =~= q);
        p
    }
}

/// In a tree where no index occurs twice, an index names one position.
pub proof fn lemma_unique_pos(t: FsNode, p1: Seq<int>, p2: Seq<int>)
    requires
        distinct_node(t),
        valid_pos(t, p1),
        valid_pos(t, p2),
        node_at(t, p1).handle == node_at(t, p2).handle,
    ensures
        p1 == p2,
    decreases p1.len(),
{
    if p1.len() == 0 && p2.len() > 0 {
        lemma_node_at_in_tree(t.children[p2[0]], p2.drop_first());
        lemma_in_nodes_index(t.children, p2[0], t.handle);
    } else if p1.len() > 0 && p2.len() == 0 {
        lemma_node_at_in_tree(t.children[p1[0]], p1.drop_first());
        lemma_in_nodes_index(t.children, p1[0], t.handle);
    } else if p1.len() > 0 {
        let h = node_at(t, p1).handle;
        lemma_node_at_in_tree(t.children[p1[0]], p1.drop_first());
        lemma_node_at_in_tree(t.children[p2[0]], p2.drop_first());
        if p1[0] != p2[0] {
            lemma_distinct_nodes_disjoint(t.children, p1[0], p2[0], h);
        } else {
            lemma_distinct_nodes_index(t.children, p1[0]);
            lemma_unique_pos(t.children[p1[0]], p1.drop_first(), p2.drop_first());
            assert(p1 =~= seq![p1[0]] + p1.drop_first());
            assert(p2 =~= seq![p2[0]] + p2.drop_first());
        }
    } else {
        assert(p1 =~= p2);
    }
}

/// The children the arena lists for a node of the tree lie in the tree.
pub proof fn lemma_wf_child_in_tree(m: ArenaModel, t: FsNode, x: NodeId, c: NodeId)
    requires
        wf_node(m, t),
        in_tree(t, x),
        m[x].1.contains(c),
    ensures
        in_tree(t, c),
{
    let p = lemma_in_tree_pos(t, x);
    lemma_node_at_wf(m, t, p);
    let n = node_at(t, p);
    let i = choose|i: int| 0 <= i < m[x].1.len() && m[x].1[i] == c;
    assert(handles(n.children)[i] == n.children[i].handle);
    lemma_node_at_push(t, p, i);
    lemma_node_at_in_tree(t, p.push(i));
}

/// A tree stays described by an arena that agrees on all of its indices.
pub proof fn lemma_agree(m: ArenaModel, m2: ArenaModel, t: FsNode)
    requires
        wf_node(m, t),
        forall|h: NodeId| #[trigger] in_tree(t, h) ==> m2.contains_key(h) && m2[h] == m[h],
    ensures
        wf_node(m2, t),
    decreases t,
{
    assert(in_tree(t, t.handle));
    assert forall|i: int| 0 <= i < t.children.len() implies wf_node(m2, #[trigger] t.children[i]) by {
        lemma_wf_nodes_index(m, t.children, i);
        assert forall|h: NodeId| #[trigger] in_tree(t.children[i], h) implies m2.contains_key(h)
            && m2[h] == m[h] by {
            lemma_in_nodes_index(t.children, i, h);
            assert(in_tree(t, h));
        }
        lemma_agree(m, m2, t.children[i]);
    }
    lemma_wf_nodes_intro(m2, t.children);
}


/// Child `i` is the first child named `name`.
pub open spec fn is_first_named(cs: Seq<FsNode>, name: Seq<char>, i: int) -> bool {
    &&& 0 <= i < cs.len()
    &&& cs[i].entry.spec_name() == name
    &&& forall|j: int| 0 <= j < i ==> (#[trigger] cs[j]).entry.spec_name() != name
}

/// The position of the first child named `name`, or -1 when none is.
pub open spec fn first_named(cs: Seq<FsNode>, name: Seq<char>) -> int {
    if exists|i: int| is_first_named(cs, name, i) {
        choose|i: int| is_first_named(cs, name, i)
    } else {
        -1
    }
}

/// The position that a path of names leads to: at each step the first child
/// with the next name.
pub open spec fn pos_of(t: FsNode, path: Seq<Seq<char>>) -> Option<Seq<int>>
    decreases path.len(),
{
    if path.len() == 0 {
        Some(Seq::<int>::empty())
    } else {
        let i = first_named(t.children, path[0]);
        if i < 0 {
            None
        } else {
            match pos_of(t.children[i], path.drop_first()) {
                Some(q) => Some(seq![i] + q),
                None => None,
            }
        }
    }
}

/// The node that a path of names leads to.
pub open spec fn lookup(t: FsNode, path: Seq<Seq<char>>) -> Option<FsNode> {
    match pos_of(t, path) {
        Some(p) => Some(node_at(t, p)),
        None => None,
    }
}

pub proof fn lemma_first_named(cs: Seq<FsNode>, name: Seq<char>)
    ensures
        first_named(cs, name) >= 0 ==> is_first_named(cs, name, first_named(cs, name)),
        first_named(cs, name) < 0 ==> forall|i: int|
            0 <= i < cs.len() ==> (#[trigger] cs[i]).entry.spec_name() != name,
{
    if first_named(cs, name) < 0 {
        assert forall|i: int| 0 <= i < cs.len() implies (#[trigger] cs[i]).entry.spec_name()
            != name by {
            if cs[i].entry.spec_name() == name {
                lemma_first_named_exists(cs, name, i);
            }
        }
    }
}

/// A name that some child has is the name of a first such child.
pub proof fn lemma_first_named_exists(cs: Seq<FsNode>, name: Seq<char>, k: int)
    requires
        0 <= k < cs.len(),
        cs[k].entry.spec_name() == name,
    ensures
        exists|i: int| is_first_named(cs, name, i),
    decreases k,
{
    if exists|j: int| 0 <= j < k && (#[trigger] cs[j]).entry.spec_name() == name {
        let j = choose|j: int| 0 <= j < k && (#[trigger] cs[j]).entry.spec_name() == name;
        lemma_first_named_exists(cs, name, j);
    } else {
        assert(is_first_named(cs, name, k));
    }
}

/// The first child with a name is the one a left-to-right search stops at.
pub proof fn lemma_first_named_is(cs: Seq<FsNode>, name: Seq<char>, i: int)
    requires
        is_first_named(cs, name, i),
    ensures
        first_named(cs, name) == i,
{
    let j = first_named(cs, name);
    assert(is_first_named(cs, name, j));
    if j < i {
        assert(cs[j].entry.spec_name() != name);
    }
    if i < j {
        assert(cs[i].entry.spec_name() != name);
    }
}

pub proof fn lemma_pos_of_valid(t: FsNode, path: Seq<Seq<char>>)
    ensures
        pos_of(t, path) matches Some(p) ==> valid_pos(t, p) && p.len() == path.len(),
    decreases path.len(),
{
    if path.len() > 0 {
        let i = first_named(t.children, path[0]);
        lemma_first_named(t.children, path[0]);
        if i >= 0 {
            lemma_pos_of_valid(t.children[i], path.drop_first());
            if let Some(q) = pos_of(t.children[i], path.drop_first()) {
                let p = seq![i] + q;
                assert(p.drop_first() =~= q);
            }
        }
    }
}

/// Following one more name from where a path leads.
pub proof fn lemma_pos_of_push(t: FsNode, pre: Seq<Seq<char>>, x: Seq<char>)
    ensures
        pos_of(t, pre) is None ==> pos_of(t, pre.push(x)) is None,
        pos_of(t, pre) matches Some(q) ==> {
            let j = first_named(node_at(t, q).children, x);
            &&& j < 0 ==> pos_of(t, pre.push(x)) is None
            &&& j >= 0 ==> pos_of(t, pre.push(x)) == Some(q.push(j))
        },
    decreases pre.len(),
{
    let path = pre.push(x);
    if pre.len() == 0 {
        assert(path[0] == x);
        assert(path.drop_first() =~= Seq::<Seq<char>>::empty());
        let i = first_named(t.children, x);
        let q = Seq::<int>::empty();
        assert(pos_of(t, pre) == Some(q));
        assert(node_at(t, q) == t);
        if i >= 0 {
            assert(pos_of(t.children[i], path.drop_first()) == Some(q));
            assert(seq![i] + q =~= q.push(i));
        }
    } else {
        assert(path[0] == pre[0]);
        assert(path.drop_first() =~= pre.drop_first().push(x));
        let i = first_named(t.children, pre[0]);
        if i >= 0 {
            let c = t.children[i];
            lemma_pos_of_push(c, pre.drop_first(), x);
            if let Some(r) = pos_of(c, pre.drop_first()) {
                let q = seq![i] + r;
                assert(q[0] == i);
                assert(q.drop_first() =~= r);
                assert(node_at(t, q) == node_at(c, r));
                let j = first_named(node_at(t, q).children, x);
                if j >= 0 {
                    assert(seq![i] + r.push(j) =~= q.push(j));
                }
            }
        }
    }
}

/// A path whose beginning leads nowhere leads nowhere.
pub proof fn lemma_pos_of_prefix_none(t: FsNode, path: Seq<Seq<char>>, k: int)
    requires
        0 <= k <= path.len(),
        pos_of(t, path.take(k)) is None,
    ensures
        pos_of(t, path) is None,
    decreases path.len() - k,
{
    if k < path.len() {
        lemma_pos_of_push(t, path.take(k), path[k]);
        assert(path.take(k).push(path[k]) =~= path.take(k + 1));
        lemma_pos_of_prefix_none(t, path, k + 1);
    } else {
        assert(path.take(k) =~= path);
    }
}


/// What lies below the node a position leads to lies below the root.
pub proof fn lemma_node_at_sub(t: FsNode, p: Seq<int>, h: NodeId)
    requires
        valid_pos(t, p),
        in_tree(node_at(t, p), h),
    ensures
        in_tree(t, h),
    decreases p.len(),
{
    if p.len() > 0 {
        lemma_node_at_sub(t.children[p[0]], p.drop_first(), h);
        lemma_in_nodes_index(t.children, p[0], h);
    }
}

/// The node at a valid position is live in the arena.
pub proof fn lemma_node_at_in_tree_dom(m: ArenaModel, t: FsNode, p: Seq<int>)
    requires
        wf_node(m, t),
        valid_pos(t, p),
    ensures
        m.contains_key(node_at(t, p).handle),
        in_tree(t, node_at(t, p).handle),
{
    lemma_node_at_wf(m, t, p);
    lemma_node_at_in_tree(t, p);
}

/// Replacing a subtree by one with the same root index keeps the root index.
pub proof fn lemma_update_at_handle_root(t: FsNode, p: Seq<int>, n: FsNode)
    requires
        valid_pos(t, p),
        n.handle == node_at(t, p).handle,
    ensures
        update_at(t, p, n).handle == t.handle,
{
}

pub proof fn lemma_update_at_handle(t: FsNode, p: Seq<int>, n: FsNode)
    requires
        valid_pos(t, p),
        n.handle == node_at(t, p).handle,
    ensures
        update_at(t, p, n).handle == t.handle,
{
}

/// Replacing a subtree by one with the same root index keeps the tree
/// described by an arena that agrees outside the subtree, as long as the new
/// subtree brings no index found outside it.
pub proof fn lemma_update_at(m: ArenaModel, m2: ArenaModel, t: FsNode, p: Seq<int>, s2: FsNode)
    requires
        wf_node(m, t),
        distinct_node(t),
        valid_pos(t, p),
        s2.handle == node_at(t, p).handle,
        wf_node(m2, s2),
        distinct_node(s2),
        forall|h: NodeId|
            #[trigger] in_tree(t, h) && !in_tree(node_at(t, p), h) ==> m2.contains_key(h) && m2[h]
                == m[h],
        forall|h: NodeId| #[trigger]
            in_tree(s2, h) ==> !(in_tree(t, h) && !in_tree(node_at(t, p), h)),
    ensures
        wf_node(m2, update_at(t, p, s2)),
        distinct_node(update_at(t, p, s2)),
        forall|h: NodeId| #[trigger]
            in_tree(update_at(t, p, s2), h) <==> ((in_tree(t, h) && !in_tree(node_at(t, p), h))
                || in_tree(s2, h)),
    decreases p.len(),
{
    if p.len() == 0 {
        return;
    }
    let i = p[0];
    let c = t.children[i];
    let r = p.drop_first();
    let s = node_at(t, p);
    assert(s == node_at(c, r));
    lemma_wf_nodes_index(m, t.children, i);
    lemma_distinct_nodes_index(t.children, i);
    assert forall|h: NodeId| #[trigger] in_tree(c, h) implies in_tree(t, h) by {
        lemma_in_nodes_index(t.children, i, h);
    }
    assert forall|h: NodeId| #[trigger] in_tree(s, h) implies in_tree(c, h) by {
        lemma_node_at_sub(c, r, h);
    }
    assert forall|h: NodeId| #[trigger]
        in_tree(c, h) && !in_tree(node_at(c, r), h) implies m2.contains_key(h) && m2[h] == m[h] by {
        assert(in_tree(t, h));
    }
    assert forall|h: NodeId| #[trigger]
        in_tree(s2, h) implies !(in_tree(c, h) && !in_tree(node_at(c, r), h)) by {
        if in_tree(c, h) {
            assert(in_tree(t, h));
        }
    }
    lemma_update_at(m, m2, c, r, s2);
    let c2 = update_at(c, r, s2);
    lemma_update_at_handle(c, r, s2);
    let cs2 = t.children.update(i, c2);
    let tt = update_at(t, p, s2);
    assert(tt.children == cs2);
    assert(handles(cs2) =~= handles(t.children));
    // the root keeps its entry and its list of children
    assert(in_tree(t, t.handle));
    if in_tree(s, t.handle) {
        lemma_in_nodes_index(t.children, i, t.handle);
    }
    // the other children are untouched and lie outside the replaced subtree
    assert forall|j: int, h: NodeId|
        0 <= j < t.children.len() && j != i && #[trigger] in_tree(t.children[j], h) implies in_tree(
        t,
        h,
    ) && !in_tree(s, h) && !in_tree(c, h) by {
        lemma_in_nodes_index(t.children, j, h);
        if in_tree(c, h) {
            lemma_distinct_nodes_disjoint(t.children, j, i, h);
        }
    }
    assert forall|j: int| 0 <= j < cs2.len() implies wf_node(m2, #[trigger] cs2[j]) by {
        if j != i {
            lemma_wf_nodes_index(m, t.children, j);
            assert forall|h: NodeId| #[trigger] in_tree(t.children[j], h) implies m2.contains_key(h)
                && m2[h] == m[h] by {
                assert(in_tree(t, h) && !in_tree(s, h));
            }
            lemma_agree(m, m2, t.children[j]);
        }
    }
    lemma_wf_nodes_intro(m2, cs2);
    assert(wf_node(m2, tt));
    // no index occurs twice
    assert forall|j: int| 0 <= j < cs2.len() implies distinct_node(#[trigger] cs2[j]) by {
        if j != i {
            lemma_distinct_nodes_index(t.children, j);
        }
    }
    assert forall|j: int, k: int, h: NodeId|
        0 <= j < cs2.len() && 0 <= k < cs2.len() && j != k && in_tree(cs2[j], h) implies !in_tree(
        cs2[k],
        h,
    ) by {
        if j != i && k != i {
            lemma_distinct_nodes_disjoint(t.children, j, k, h);
        } else if j == i {
            if in_tree(cs2[k], h) {
                assert(in_tree(t.children[k], h));
                assert(in_tree(t, h) && !in_tree(s, h) && !in_tree(c, h));
            }
        } else {
            assert(in_tree(t.children[j], h));
            assert(in_tree(t, h) && !in_tree(s, h) && !in_tree(c, h));
        }
    }
    lemma_distinct_nodes_intro(cs2);
    lemma_in_nodes(cs2, t.handle);
    if in_nodes(cs2, t.handle) {
        let j = choose|j: int| 0 <= j < cs2.len() && #[trigger] in_tree(cs2[j], t.handle);
        if j != i {
            lemma_in_nodes_index(t.children, j, t.handle);
        } else {
            lemma_in_nodes_index(t.children, i, t.handle);
        }
    }
    assert(distinct_node(tt));
    // which indices the new tree holds
    assert forall|h: NodeId| #[trigger]
        in_tree(tt, h) <==> ((in_tree(t, h) && !in_tree(s, h)) || in_tree(s2, h)) by {
        lemma_in_nodes(cs2, h);
        lemma_in_nodes(t.children, h);
        if in_tree(tt, h) {
            if h != t.handle {
                let j = choose|j: int| 0 <= j < cs2.len() && #[trigger] in_tree(cs2[j], h);
                if j != i {
                    assert(in_tree(t.children[j], h));
                }
            }
        }
        if in_tree(s2, h) {
            assert(in_tree(cs2[i], h));
        }
        if in_tree(t, h) && !in_tree(s, h) && h != t.handle {
            let j = choose|j: int| 0 <= j < t.children.len() && #[trigger] in_tree(t.children[j], h);
            assert(in_tree(cs2[j], h));
        }
    }
}


/// The node with its list of children replaced.
pub open spec fn with_children(n: FsNode, cs: Seq<FsNode>) -> FsNode {
    FsNode { handle: n.handle, entry: n.entry, children: cs }
}

/// A node without children.
pub open spec fn leaf(h: NodeId, e: FsEntry) -> FsNode {
    FsNode { handle: h, entry: e, children: Seq::empty() }
}

/// A node with one more child, after the others.
pub open spec fn with_child(n: FsNode, c: FsNode) -> FsNode {
    FsNode { handle: n.handle, entry: n.entry, children: n.children.push(c) }
}

/// Every index of a described tree is live in the arena.
pub proof fn lemma_wf_in_dom(m: ArenaModel, t: FsNode, h: NodeId)
    requires
        wf_node(m, t),
        in_tree(t, h),
    ensures
        m.contains_key(h),
{
    let p = lemma_in_tree_pos(t, h);
    lemma_node_at_wf(m, t, p);
}

/// The arena holds a described node's entry and children.
pub proof fn lemma_node_entry(m: ArenaModel, n: FsNode)
    requires
        wf_node(m, n),
    ensures
        m.contains_key(n.handle),
        m[n.handle].0 == n.entry,
        m[n.handle].1 == handles(n.children),
{
}

/// A list of subtrees stays described by an arena that agrees on all of them.
pub proof fn lemma_agree_nodes(m: ArenaModel, m2: ArenaModel, cs: Seq<FsNode>)
    requires
        wf_nodes(m, cs),
        forall|h: NodeId| #[trigger] in_nodes(cs, h) ==> m2.contains_key(h) && m2[h] == m[h],
    ensures
        wf_nodes(m2, cs),
{
    assert forall|i: int| 0 <= i < cs.len() implies wf_node(m2, #[trigger] cs[i]) by {
        lemma_wf_nodes_index(m, cs, i);
        assert forall|h: NodeId| #[trigger] in_tree(cs[i], h) implies m2.contains_key(h) && m2[h]
            == m[h] by {
            lemma_in_nodes_index(cs, i, h);
        }
        lemma_agree(m, m2, cs[i]);
    }
    lemma_wf_nodes_intro(m2, cs);
}

/// Giving a node a new childless last child under a fresh index.
pub proof fn lemma_add_leaf(m: ArenaModel, m2: ArenaModel, n: FsNode, h: NodeId, e: FsEntry)
    requires
        wf_node(m, n),
        distinct_node(n),
        !in_tree(n, h),
        m2.contains_key(n.handle),
        m2[n.handle] == (n.entry, handles(n.children).push(h)),
        m2.contains_key(h),
        m2[h] == (e, Seq::<NodeId>::empty()),
        forall|x: NodeId| #[trigger] in_nodes(n.children, x) ==> m2.contains_key(x) && m2[x] == m[x],
    ensures
        wf_node(m2, with_child(n, leaf(h, e))),
        distinct_node(with_child(n, leaf(h, e))),
        forall|x: NodeId| #[trigger]
            in_tree(with_child(n, leaf(h, e)), x) <==> (in_tree(n, x) || x == h),
{
    let l = leaf(h, e);
    let s2 = with_child(n, l);
    assert(s2.children.drop_last() =~= n.children);
    assert(s2.children.last() == l);
    assert(handles(l.children) =~= Seq::<NodeId>::empty());
    assert(handles(s2.children) =~= handles(n.children).push(h));
    lemma_agree_nodes(m, m2, n.children);
    assert(wf_nodes(m2, l.children));
    assert(wf_node(m2, l));
    assert(wf_nodes(m2, s2.children));
    assert(!in_nodes(l.children, h));
    assert forall|x: NodeId| in_tree(l, x) implies !in_nodes(n.children, x) by {
        assert(x == h);
    }
    assert(distinct_node(l));
    assert(distinct_nodes(s2.children));
    assert(n.handle != h);
    assert forall|x: NodeId| #[trigger] in_nodes(s2.children, x) == (in_nodes(n.children, x) || x == h) by {
        assert(!in_nodes(l.children, x));
        assert(in_tree(l, x) == (x == h));
    }
    assert(!in_nodes(s2.children, n.handle));
    assert forall|x: NodeId| #[trigger] in_tree(s2, x) <==> (in_tree(n, x) || x == h) by {
        assert(in_nodes(s2.children, x) == (in_nodes(n.children, x) || x == h));
    }
}


/// The node with its entry replaced.
pub open spec fn with_entry(n: FsNode, e: FsEntry) -> FsNode {
    FsNode { handle: n.handle, entry: e, children: n.children }
}

/// Changing the entry of one node of the tree in the arena and in the tree.
pub proof fn lemma_set_entry(m: ArenaModel, m2: ArenaModel, t: FsNode, p: Seq<int>, e2: FsEntry)
    requires
        wf_node(m, t),
        distinct_node(t),
        valid_pos(t, p),
        m2 == m.insert(node_at(t, p).handle, (e2, m[node_at(t, p).handle].1)),
    ensures
        wf_node(m2, update_at(t, p, with_entry(node_at(t, p), e2))),
        distinct_node(update_at(t, p, with_entry(node_at(t, p), e2))),
        forall|h: NodeId| #[trigger] in_tree(update_at(t, p, with_entry(node_at(t, p), e2)), h) <==> in_tree(t, h),
        update_at(t, p, with_entry(node_at(t, p), e2)).handle == t.handle,
{
    let n = node_at(t, p);
    let s2 = with_entry(n, e2);
    lemma_node_at_wf(m, t, p);
    lemma_node_at_distinct(t, p);
    assert forall|x: NodeId| #[trigger] in_nodes(n.children, x) implies m2.contains_key(x) && m2[x]
        == m[x] by {
        lemma_wf_in_dom(m, n, x);
    }
    lemma_agree_nodes(m, m2, n.children);
    assert(wf_node(m2, s2));
    assert(distinct_node(s2));
    assert forall|x: NodeId| #[trigger] in_tree(t, x) && !in_tree(node_at(t, p), x) implies m2.contains_key(x)
        && m2[x] == m[x] by {
        lemma_wf_in_dom(m, t, x);
    }
    assert forall|x: NodeId| #[trigger] in_tree(s2, x) implies !(in_tree(t, x) && !in_tree(node_at(t, p), x)) by {
        assert(in_tree(n, x));
    }
    lemma_update_at(m, m2, t, p, s2);
    assert forall|h: NodeId| #[trigger] in_tree(update_at(t, p, s2), h) <==> in_tree(t, h) by {
        if in_tree(n, h) {
            lemma_node_at_sub(t, p, h);
        }
    }
    lemma_update_at_handle_root(t, p, s2);
}

/// The position of the node with a given index, when the tree holds it.
pub open spec fn pos_of_handle(t: FsNode, h: NodeId) -> Seq<int> {
    choose|p: Seq<int>| valid_pos(t, p) && node_at(t, p).handle == h
}

/// The tree after marking the node with index `h` as scanned; unchanged
/// when no node has that index.
pub open spec fn scanned_at(t: FsNode, h: NodeId) -> FsNode {
    if in_tree(t, h) {
        let p = pos_of_handle(t, h);
        update_at(t, p, with_entry(node_at(t, p), node_at(t, p).entry.with_scanned(true)))
    } else {
        t
    }
}


/// The size a node counts for once directory sizes are computed: the sum
/// over its children for a directory, its own size (or 0) for anything else.
pub open spec fn total(t: FsNode) -> nat
    decreases t,
{
    if t.entry.spec_is_dir() {
        total_seq(t.children)
    } else {
        match t.entry.spec_size() {
            Some(s) => s as nat,
            None => 0,
        }
    }
}

pub open spec fn total_seq(cs: Seq<FsNode>) -> nat
    decreases cs,
{
    if cs.len() == 0 {
        0
    } else {
        total_seq(cs.drop_last()) + total(cs.last())
    }
}

/// Every sum of children's sizes taken below and at the node fits in a `u64`.
pub open spec fn sizes_fit(t: FsNode) -> bool
    decreases t,
{
    total_seq(t.children) <= u64::MAX && sizes_fit_seq(t.children)
}

pub open spec fn sizes_fit_seq(cs: Seq<FsNode>) -> bool
    decreases cs,
{
    cs.len() > 0 ==> sizes_fit_seq(cs.drop_last()) && sizes_fit(cs.last())
}

/// The node after computing sizes: each directory below and at it gets the
/// sum of its children's sizes; other entries keep theirs.
pub open spec fn computed(t: FsNode) -> FsNode
    decreases t,
{
    FsNode {
        handle: t.handle,
        entry: if t.entry.spec_is_dir() {
            t.entry.with_size(Some(total_seq(t.children) as u64))
        } else {
            t.entry
        },
        children: computed_seq(t.children),
    }
}

pub open spec fn computed_seq(cs: Seq<FsNode>) -> Seq<FsNode>
    decreases cs,
{
    if cs.len() == 0 {
        Seq::empty()
    } else {
        computed_seq(cs.drop_last()).push(computed(cs.last()))
    }
}

pub proof fn lemma_computed_seq(cs: Seq<FsNode>)
    ensures
        computed_seq(cs).len() == cs.len(),
        forall|i: int| 0 <= i < cs.len() ==> #[trigger] computed_seq(cs)[i] == computed(cs[i]),
    decreases cs.len(),
{
    if cs.len() > 0 {
        lemma_computed_seq(cs.drop_last());
        assert forall|i: int| 0 <= i < cs.len() implies #[trigger] computed_seq(cs)[i] == computed(cs[i]) by {
            if i < cs.len() - 1 {
                assert(cs.drop_last()[i] == cs[i]);
            }
        }
    }
}

pub proof fn lemma_sizes_fit_index(cs: Seq<FsNode>, i: int)
    requires
        sizes_fit_seq(cs),
        0 <= i < cs.len(),
    ensures
        sizes_fit(cs[i]),
    decreases cs.len(),
{
    if i < cs.len() - 1 {
        lemma_sizes_fit_index(cs.drop_last(), i);
        assert(cs.drop_last()[i] == cs[i]);
    }
}

pub proof fn lemma_sizes_fit_intro(cs: Seq<FsNode>)
    requires
        forall|i: int| 0 <= i < cs.len() ==> sizes_fit(#[trigger] cs[i]),
    ensures
        sizes_fit_seq(cs),
    decreases cs.len(),
{
    if cs.len() > 0 {
        let d = cs.drop_last();
        assert forall|i: int| 0 <= i < d.len() implies sizes_fit(#[trigger] d[i]) by {
            assert(d[i] == cs[i]);
        }
        lemma_sizes_fit_intro(d);
    }
}

/// Sums over prefixes grow one child at a time and stay below the whole sum.
pub proof fn lemma_total_prefix(cs: Seq<FsNode>, i: int)
    requires
        0 <= i < cs.len(),
    ensures
        total_seq(cs.take(i + 1)) == total_seq(cs.take(i)) + total(cs[i]),
        total_seq(cs.take(i + 1)) <= total_seq(cs),
    decreases cs.len(),
{
    assert(cs.take(i + 1).drop_last() =~= cs.take(i));
    if i < cs.len() - 1 {
        lemma_total_prefix(cs.drop_last(), i);
        assert(cs.drop_last().take(i + 1) =~= cs.take(i + 1));
        assert(cs.drop_last().take(i) =~= cs.take(i));
    } else {
        assert(cs.take(i + 1) =~= cs);
    }
}

/// Computing sizes keeps the size every node counts for, and whether the
/// sums fit.
pub proof fn lemma_total_computed(t: FsNode)
    ensures
        total(computed(t)) == total(t),
        sizes_fit(computed(t)) == sizes_fit(t),
    decreases t,
{
    lemma_total_computed_seq(t.children);
    t.entry.lemma_with_size(Some(total_seq(t.children) as u64));
}

pub proof fn lemma_total_computed_seq(cs: Seq<FsNode>)
    ensures
        total_seq(computed_seq(cs)) == total_seq(cs),
        sizes_fit_seq(computed_seq(cs)) == sizes_fit_seq(cs),
    decreases cs,
{
    if cs.len() > 0 {
        lemma_total_computed_seq(cs.drop_last());
        lemma_total_computed(cs.last());
        let c = computed_seq(cs);
        assert(c.drop_last() =~= computed_seq(cs.drop_last()));
        assert(c.last() == computed(cs.last()));
    }
}

/// Computing directory sizes a second time changes nothing: the result of
/// the computation is its own fixed point.
pub proof fn lemma_computed_idempotent(t: FsNode)
    ensures
        computed(computed(t)) == computed(t),
    decreases t,
{
    lemma_computed_seq_idempotent(t.children);
    lemma_total_computed_seq(t.children);
    let x = Some(total_seq(t.children) as u64);
    t.entry.lemma_with_size(x);
    t.entry.lemma_with_size_twice(x, x);
}

pub proof fn lemma_computed_seq_idempotent(cs: Seq<FsNode>)
    ensures
        computed_seq(computed_seq(cs)) == computed_seq(cs),
    decreases cs,
{
    if cs.len() > 0 {
        lemma_computed_seq_idempotent(cs.drop_last());
        lemma_computed_idempotent(cs.last());
        let c = computed_seq(cs);
        assert(c.drop_last() =~= computed_seq(cs.drop_last()));
        assert(c.last() == computed(cs.last()));
        assert(computed_seq(c) =~= c);
    }
}

/// The tree is unchanged when a node is replaced by itself.
pub proof fn lemma_update_at_same(t: FsNode, p: Seq<int>)
    requires
        valid_pos(t, p),
    ensures
        update_at(t, p, node_at(t, p)) == t,
    decreases p.len(),
{
    if p.len() > 0 {
        lemma_update_at_same(t.children[p[0]], p.drop_first());
        assert(t.children.update(p[0], t.children[p[0]]) =~= t.children);
    }
}

/// After a replacement, the position leads to the new node.
pub proof fn lemma_update_at_node(t: FsNode, p: Seq<int>, x: FsNode)
    requires
        valid_pos(t, p),
    ensures
        valid_pos(update_at(t, p, x), p),
        node_at(update_at(t, p, x), p) == x,
    decreases p.len(),
{
    if p.len() > 0 {
        lemma_update_at_node(t.children[p[0]], p.drop_first(), x);
    }
}

/// Replacing a child of a replaced node is one replacement.
pub proof fn lemma_update_at_twice(t: FsNode, p: Seq<int>, x: FsNode, i: int, y: FsNode)
    requires
        valid_pos(t, p),
        0 <= i < x.children.len(),
    ensures
        update_at(update_at(t, p, x), p.push(i), y) == update_at(t, p, with_children(x, x.children.update(i, y))),
    decreases p.len(),
{
    let q = p.push(i);
    if p.len() == 0 {
        assert(q.drop_first() =~= Seq::<int>::empty());
        assert(q[0] == i);
        assert(update_at(x.children[i], q.drop_first(), y) == y);
        assert(update_at(t, p, x) == x);
    } else {
        let c = t.children[p[0]];
        lemma_update_at_twice(c, p.drop_first(), x, i, y);
        assert(q.drop_first() =~= p.drop_first().push(i));
        assert(q[0] == p[0]);
        let u = update_at(t, p, x);
        assert(u.children[p[0]] == update_at(c, p.drop_first(), x));
        assert(u.children.update(p[0], update_at(u.children[p[0]], q.drop_first(), y)) =~= t.children.update(
            p[0],
            update_at(update_at(c, p.drop_first(), x), p.drop_first().push(i), y),
        ));
    }
}


/// A node whose first `i` children have had their sizes computed.
pub open spec fn partial(n: FsNode, i: int) -> FsNode {
    FsNode {
        handle: n.handle,
        entry: n.entry,
        children: computed_seq(n.children.take(i)) + n.children.skip(i),
    }
}

pub proof fn lemma_partial(n: FsNode, i: int)
    requires
        0 <= i <= n.children.len(),
    ensures
        partial(n, i).children.len() == n.children.len(),
        i < n.children.len() ==> partial(n, i).children[i] == n.children[i],
        i < n.children.len() ==> with_children(n, partial(n, i).children.update(i, computed(n.children[i])))
            == partial(n, i + 1),
        partial(n, 0) == n,
        partial(n, n.children.len() as int).children == computed_seq(n.children),
{
    lemma_computed_seq(n.children.take(i));
    assert(n.children.take(0) =~= Seq::<FsNode>::empty());
    assert(computed_seq(n.children.take(0)) =~= Seq::<FsNode>::empty());
    assert(partial(n, 0).children =~= n.children);
    assert(n.children.take(n.children.len() as int) =~= n.children);
    assert(partial(n, n.children.len() as int).children =~= computed_seq(n.children));
    if i < n.children.len() {
        let c = n.children;
        assert(c.take(i + 1).drop_last() =~= c.take(i));
        assert(computed_seq(c.take(i + 1)) == computed_seq(c.take(i)).push(computed(c[i])));
        assert(partial(n, i).children.update(i, computed(c[i])) =~= partial(n, i + 1).children);
    }
}

/// A second replacement at the same position wins.
pub proof fn lemma_update_at_overwrite(t: FsNode, p: Seq<int>, x: FsNode, y: FsNode)
    requires
        valid_pos(t, p),
    ensures
        update_at(update_at(t, p, x), p, y) == update_at(t, p, y),
    decreases p.len(),
{
    if p.len() > 0 {
        lemma_update_at_overwrite(t.children[p[0]], p.drop_first(), x, y);
        let u = update_at(t, p, x);
        assert(u.children.update(p[0], update_at(u.children[p[0]], p.drop_first(), y)) =~= t.children.update(
            p[0],
            update_at(t.children[p[0]], p.drop_first(), y),
        ));
    }
}


/// The files a node counts as, where a directory counts, child by child, the
/// files of the first child that bears that child's name.
pub open spec fn fcount(t: FsNode) -> nat
    decreases t, 1int, 0int,
{
    if !t.entry.spec_is_dir() {
        1
    } else {
        fcount_upto(t, t.children.len() as int)
    }
}

/// The count over the first `k` children of a directory.
pub open spec fn fcount_upto(t: FsNode, k: int) -> nat
    decreases t, 0int, k,
{
    if k <= 0 || k > t.children.len() {
        0
    } else {
        let j = first_named(t.children, t.children[k - 1].entry.spec_name());
        fcount_upto(t, k - 1) + if 0 <= j < t.children.len() {
            fcount(t.children[j])
        } else {
            0
        }
    }
}

/// The files counted at a path: none where it leads nowhere.
pub open spec fn file_count(t: FsNode, path: Seq<Seq<char>>) -> nat {
    match lookup(t, path) {
        Some(n) => fcount(n),
        None => 0,
    }
}

pub proof fn lemma_fcount_upto_mono(t: FsNode, k: int, l: int)
    requires
        0 <= k <= l <= t.children.len(),
    ensures
        fcount_upto(t, k) <= fcount_upto(t, l),
    decreases l - k,
{
    if k < l {
        lemma_fcount_upto_mono(t, k, l - 1);
    }
}


/// Whatever lies below the root of a described tree in the arena lies in the tree.
pub proof fn lemma_descends_in_tree(m: ArenaModel, c: FsNode, k: NodeId)
    requires
        wf_node(m, c),
        descends(m, c.handle, k),
    ensures
        in_tree(c, k),
{
    let pp = choose|pp: Seq<NodeId>| pp.len() >= 1 && pp[0] == c.handle && pp.last() == k && #[trigger] child_chain(m, pp);
    lemma_chain_in_tree(m, c, pp, pp.len() - 1);
}

proof fn lemma_chain_in_tree(m: ArenaModel, c: FsNode, pp: Seq<NodeId>, i: int)
    requires
        wf_node(m, c),
        pp.len() >= 1,
        pp[0] == c.handle,
        child_chain(m, pp),
        0 <= i < pp.len(),
    ensures
        in_tree(c, pp[i]),
    decreases i,
{
    if i > 0 {
        lemma_chain_in_tree(m, c, pp, i - 1);
        assert(m[pp[i - 1]].1.contains(pp[i - 1 + 1]));
        lemma_wf_child_in_tree(m, c, pp[i - 1], pp[i]);
    }
}

/// The children of a node without repeated indices have distinct indices.
pub proof fn lemma_handles_no_dup(cs: Seq<FsNode>)
    requires
        distinct_nodes(cs),
    ensures
        handles(cs).no_duplicates(),
{
    assert forall|i: int, k: int| 0 <= i < handles(cs).len() && 0 <= k < handles(cs).len() && i != k implies handles(cs)[i] != handles(cs)[k] by {
        if handles(cs)[i] == handles(cs)[k] {
            assert(in_tree(cs[i], cs[i].handle));
            assert(in_tree(cs[k], cs[i].handle));
            lemma_distinct_nodes_disjoint(cs, i, k, cs[i].handle);
        }
    }
}

/// Leaving out an id that does not occur leaves the list as it was.
pub proof fn lemma_filter_absent(s: Seq<NodeId>, h: NodeId)
    requires
        !s.contains(h),
    ensures
        s.filter(other_than(h)) == s,
    decreases s.len(),
{
    reveal(Seq::filter);
    if s.len() > 0 {
        assert(!s.drop_last().contains(h)) by {
            if s.drop_last().contains(h) {
                let i = choose|i: int| 0 <= i < s.drop_last().len() && s.drop_last()[i] == h;
                assert(s[i] == h);
            }
        }
        lemma_filter_absent(s.drop_last(), h);
        assert(s.drop_last().push(s.last()) =~= s);
    }
}

/// Leaving out an id that occurs once takes out that one place.
pub proof fn lemma_filter_once(s: Seq<NodeId>, j: int, h: NodeId)
    requires
        s.no_duplicates(),
        0 <= j < s.len(),
        s[j] == h,
    ensures
        s.filter(other_than(h)) == s.remove(j),
    decreases s.len(),
{
    reveal(Seq::filter);
    let d = s.drop_last();
    if j == s.len() - 1 {
        assert(!d.contains(h)) by {
            if d.contains(h) {
                let i = choose|i: int| 0 <= i < d.len() && d[i] == h;
                assert(s[i] == h);
            }
        }
        lemma_filter_absent(d, h);
        assert(s.remove(j) =~= d);
    } else {
        assert(d.no_duplicates());
        assert(d[j] == h);
        lemma_filter_once(d, j, h);
        assert(s.last() != h);
        assert(d.remove(j).push(s.last()) =~= s.remove(j));
    }
}

/// A node without its child `j`.
pub open spec fn without_child(n: FsNode, j: int) -> FsNode {
    with_children(n, n.children.remove(j))
}

/// The tree without the subtree at a position below the root.
pub open spec fn removed_at(t: FsNode, p: Seq<int>) -> FsNode {
    update_at(t, p.drop_last(), without_child(node_at(t, p.drop_last()), p.last()))
}

/// The tree without the subtree a path leads to; unchanged when the path
/// leads nowhere or to the root.
pub open spec fn removed_path(t: FsNode, path: Seq<Seq<char>>) -> FsNode {
    match pos_of(t, path) {
        Some(p) => if p.len() > 0 {
            removed_at(t, p)
        } else {
            t
        },
        None => t,
    }
}

/// The tree after removing the subtrees that a list of paths leads to, one
/// after the other.
pub open spec fn removed_paths(t: FsNode, paths: Seq<Seq<Seq<char>>>) -> FsNode
    decreases paths.len(),
{
    if paths.len() == 0 {
        t
    } else {
        removed_path(removed_paths(t, paths.drop_last()), paths.last())
    }
}

/// Positions that reach two different places, one a strict prefix of the
/// other's parent, differ.
pub proof fn lemma_valid_pos_prefix(t: FsNode, p: Seq<int>, k: int)
    requires
        valid_pos(t, p),
        0 <= k <= p.len(),
    ensures
        valid_pos(t, p.take(k)),
        k < p.len() ==> 0 <= p[k] < node_at(t, p.take(k)).children.len() && node_at(t, p.take(k + 1)) == node_at(t, p.take(k)).children[p[k]],
    decreases k,
{
    if k > 0 {
        lemma_valid_pos_prefix(t, p, k - 1);
        lemma_node_at_push(t, p.take(k - 1), p[k - 1]);
        assert(p.take(k - 1).push(p[k - 1]) =~= p.take(k));
    } else {
        assert(p.take(0) =~= Seq::<int>::empty());
    }
    if k < p.len() {
        lemma_valid_pos_tail(t, p, k);
    }
}

proof fn lemma_valid_pos_tail(t: FsNode, p: Seq<int>, k: int)
    requires
        valid_pos(t, p),
        0 <= k < p.len(),
    ensures
        valid_pos(t, p.take(k)),
        0 <= p[k] < node_at(t, p.take(k)).children.len(),
        node_at(t, p.take(k + 1)) == node_at(t, p.take(k)).children[p[k]],
    decreases k,
{
    if k == 0 {
        assert(p.take(0) =~= Seq::<int>::empty());
        assert(p.take(1) =~= seq![p[0]]);
        assert(seq![p[0]].drop_first() =~= Seq::<int>::empty());
        assert(node_at(t.children[p[0]], Seq::<int>::empty()) == t.children[p[0]]);
    } else {
        let c = t.children[p[0]];
        let r = p.drop_first();
        lemma_valid_pos_tail(c, r, k - 1);
        assert(p.take(k).drop_first() =~= r.take(k - 1));
        assert(p.take(k + 1).drop_first() =~= r.take(k));
        assert(p.take(k)[0] == p[0]);
        assert(p.take(k + 1)[0] == p[0]);
    }
}


/// The children of a node without its child `j` are children of the node.
pub proof fn lemma_without_child(n: FsNode, j: int)
    requires
        0 <= j < n.children.len(),
    ensures
        without_child(n, j).children.len() == n.children.len() - 1,
        forall|i: int| 0 <= i < without_child(n, j).children.len() ==> #[trigger] without_child(n, j).children[i]
            == n.children[if i < j { i } else { i + 1 }],
        forall|x: NodeId| #[trigger] in_tree(without_child(n, j), x) ==> in_tree(n, x),
        distinct_node(n) ==> distinct_node(without_child(n, j)),
        handles(without_child(n, j).children) == handles(n.children).remove(j),
{
    let s2 = without_child(n, j);
    let cs = n.children;
    let ds = s2.children;
    assert forall|i: int| 0 <= i < ds.len() implies #[trigger] ds[i] == cs[if i < j { i } else { i + 1 }] by {
    }
    assert forall|x: NodeId| #[trigger] in_tree(s2, x) implies in_tree(n, x) by {
        if x != n.handle {
            lemma_in_nodes(ds, x);
            let i = choose|i: int| 0 <= i < ds.len() && #[trigger] in_tree(ds[i], x);
            lemma_in_nodes_index(cs, if i < j { i } else { i + 1 }, x);
        }
    }
    if distinct_node(n) {
        assert forall|i: int| 0 <= i < ds.len() implies distinct_node(#[trigger] ds[i]) by {
            lemma_distinct_nodes_index(cs, if i < j { i } else { i + 1 });
        }
        assert forall|i: int, k: int, x: NodeId|
            0 <= i < ds.len() && 0 <= k < ds.len() && i != k && in_tree(ds[i], x) implies !in_tree(ds[k], x) by {
            lemma_distinct_nodes_disjoint(cs, if i < j { i } else { i + 1 }, if k < j { k } else { k + 1 }, x);
        }
        lemma_distinct_nodes_intro(ds);
        if in_nodes(ds, n.handle) {
            assert(in_tree(s2, n.handle) ==> in_tree(n, n.handle));
            lemma_in_nodes(ds, n.handle);
            let i = choose|i: int| 0 <= i < ds.len() && #[trigger] in_tree(ds[i], n.handle);
            lemma_in_nodes_index(cs, if i < j { i } else { i + 1 }, n.handle);
        }
    }
    assert(handles(ds) =~= handles(cs).remove(j));
}

/// Removing a subtree below the root from the arena and from the tree.
pub proof fn lemma_remove_child(m: ArenaModel, m2: ArenaModel, t: FsNode, p: Seq<int>)
    requires
        wf_node(m, t),
        distinct_node(t),
        valid_pos(t, p),
        p.len() > 0,
        forall|k: NodeId| #[trigger] m2.contains_key(k) <==> (m.contains_key(k) && !descends(m, node_at(t, p).handle, k)),
        forall|k: NodeId| #[trigger] m2.contains_key(k) ==> m2[k] == (m[k].0, m[k].1.filter(other_than(node_at(t, p).handle))),
    ensures
        wf_node(m2, removed_at(t, p)),
        distinct_node(removed_at(t, p)),
        removed_at(t, p).handle == t.handle,
{
    let q = p.drop_last();
    let j = p.last();
    assert(q.push(j) =~= p);
    lemma_valid_pos_prefix(t, p, p.len() - 1);
    assert(p.take(p.len() - 1) =~= q);
    assert(p.take(p.len() as int) =~= p);
    let n = node_at(t, q);
    lemma_node_at_push(t, q, j);
    let c = n.children[j];
    let h = c.handle;
    assert(node_at(t, p) == c);
    lemma_node_at_wf(m, t, q);
    lemma_node_at_distinct(t, q);
    lemma_wf_nodes_index(m, n.children, j);
    lemma_node_at_in_tree(t, q);
    // what lies in the removed subtree
    assert forall|k: NodeId| descends(m, h, k) implies #[trigger] in_tree(c, k) by {
        lemma_descends_in_tree(m, c, k);
    }
    assert forall|k: NodeId| #[trigger] in_tree(c, k) implies in_tree(n, k) by {
        lemma_in_nodes_index(n.children, j, k);
    }
    assert(!in_tree(c, n.handle)) by {
        if in_tree(c, n.handle) {
            lemma_in_nodes_index(n.children, j, n.handle);
        }
    }
    // nodes of the tree outside the removed subtree keep their place in the arena
    assert forall|x: NodeId| in_tree(t, x) && !in_tree(c, x) && x != n.handle implies #[trigger] m2.contains_key(x) && m2[x] == m[x] by {
        lemma_wf_in_dom(m, t, x);
        if descends(m, h, x) {
            assert(in_tree(c, x));
        }
        assert(m2.contains_key(x));
        if m[x].1.contains(h) {
            let px = lemma_in_tree_pos(t, x);
            lemma_node_at_wf(m, t, px);
            let xn = node_at(t, px);
            let i = choose|i: int| 0 <= i < m[x].1.len() && m[x].1[i] == h;
            assert(handles(xn.children)[i] == xn.children[i].handle);
            lemma_node_at_push(t, px, i);
            lemma_unique_pos(t, px.push(i), p);
            assert(px =~= px.push(i).drop_last());
        }
        lemma_filter_absent(m[x].1, h);
    }
    let s2 = without_child(n, j);
    lemma_without_child(n, j);
    // the parent loses the child
    assert(m2.contains_key(n.handle)) by {
        lemma_wf_in_dom(m, t, n.handle);
        if descends(m, h, n.handle) {
            assert(in_tree(c, n.handle));
        }
    }
    lemma_handles_no_dup(n.children);
    lemma_filter_once(handles(n.children), j, h);
    assert(m2[n.handle] == (s2.entry, handles(s2.children)));
    assert forall|i: int| 0 <= i < s2.children.len() implies wf_node(m2, #[trigger] s2.children[i]) by {
        let i2 = if i < j { i } else { i + 1 };
        lemma_wf_nodes_index(m, n.children, i2);
        assert forall|x: NodeId| #[trigger] in_tree(n.children[i2], x) implies m2.contains_key(x) && m2[x] == m[x] by {
            lemma_in_nodes_index(n.children, i2, x);
            assert(in_tree(n, x));
            lemma_node_at_sub(t, q, x);
            assert(in_tree(t, x));
            if in_tree(c, x) {
                lemma_distinct_nodes_disjoint(n.children, i2, j, x);
            }
            assert(x != n.handle);
            assert(m2.contains_key(x));
        }
        lemma_agree(m, m2, n.children[i2]);
    }
    lemma_wf_nodes_intro(m2, s2.children);
    assert(wf_node(m2, s2));
    assert forall|x: NodeId| #[trigger] in_tree(t, x) && !in_tree(node_at(t, q), x) implies m2.contains_key(x) && m2[x] == m[x] by {
        assert(x != n.handle);
        assert(!in_tree(c, x));
    }
    assert forall|x: NodeId| #[trigger] in_tree(s2, x) implies !(in_tree(t, x) && !in_tree(node_at(t, q), x)) by {
    }
    lemma_update_at(m, m2, t, q, s2);
    lemma_update_at_handle_root(t, q, s2);
}


/// An entry of a directory that was made up to stand on a path: the name
/// given, not scanned, without size or times.
pub open spec fn is_new_dir(e: FsEntry, name: Seq<char>) -> bool {
    &&& e.spec_name() == name
    &&& e.spec_is_dir()
    &&& !e.spec_scanned()
    &&& e.spec_size() is None
    &&& e.spec_created() is None
    &&& e.spec_modified() is None
}

/// The tree after making sure a path leads somewhere: at each step the first
/// child with the next name is followed, and where there is none, the next
/// of the `fresh` nodes becomes the last child.
pub open spec fn ensured(t: FsNode, path: Seq<Seq<char>>, fresh: Seq<FsNode>) -> FsNode
    decreases path.len(),
{
    if path.len() == 0 {
        t
    } else {
        let i = first_named(t.children, path[0]);
        if i >= 0 {
            with_children(t, t.children.update(i, ensured(t.children[i], path.drop_first(), fresh)))
        } else {
            with_children(
                t,
                t.children.push(ensured(fresh[0], path.drop_first(), fresh.drop_first())),
            )
        }
    }
}

/// `fresh` holds exactly the directories that `ensured` adds, in order: each
/// without children and named as its component.
pub open spec fn fresh_ok(t: FsNode, path: Seq<Seq<char>>, fresh: Seq<FsNode>) -> bool
    decreases path.len(),
{
    if path.len() == 0 {
        fresh.len() == 0
    } else {
        let i = first_named(t.children, path[0]);
        if i >= 0 {
            fresh_ok(t.children[i], path.drop_first(), fresh)
        } else {
            &&& fresh.len() > 0
            &&& fresh[0].children.len() == 0
            &&& is_new_dir(fresh[0].entry, path[0])
            &&& fresh_ok(fresh[0], path.drop_first(), fresh.drop_first())
        }
    }
}

pub proof fn lemma_ensured_root(t: FsNode, path: Seq<Seq<char>>, fresh: Seq<FsNode>)
    ensures
        ensured(t, path, fresh).handle == t.handle,
        ensured(t, path, fresh).entry == t.entry,
{
}

/// Where the names agree, so does the first child with a name.
pub proof fn lemma_first_named_same_names(cs: Seq<FsNode>, ds: Seq<FsNode>, name: Seq<char>)
    requires
        cs.len() == ds.len(),
        forall|i: int| 0 <= i < cs.len() ==> (#[trigger] cs[i]).entry.spec_name() == ds[i].entry.spec_name(),
    ensures
        first_named(cs, name) == first_named(ds, name),
{
    lemma_first_named(cs, name);
    lemma_first_named(ds, name);
    if first_named(cs, name) >= 0 {
        let i = first_named(cs, name);
        assert forall|j: int| 0 <= j < i implies (#[trigger] ds[j]).entry.spec_name() != name by {
            assert(cs[j].entry.spec_name() != name);
        }
        assert(is_first_named(ds, name, i));
        lemma_first_named_is(ds, name, i);
    } else if first_named(ds, name) >= 0 {
        let i = first_named(ds, name);
        assert(cs[i].entry.spec_name() == name);
    }
}

/// A name no child has is first borne by a new last child with that name.
pub proof fn lemma_first_named_push(cs: Seq<FsNode>, y: FsNode, name: Seq<char>)
    requires
        first_named(cs, name) < 0,
        y.entry.spec_name() == name,
    ensures
        first_named(cs.push(y), name) == cs.len(),
{
    lemma_first_named(cs, name);
    let ds = cs.push(y);
    assert forall|j: int| 0 <= j < cs.len() implies (#[trigger] ds[j]).entry.spec_name() != name by {
        assert(ds[j] == cs[j]);
    }
    assert(is_first_named(ds, name, cs.len() as int));
    lemma_first_named_is(ds, name, cs.len() as int);
}

/// Ensuring one more component: either it is found under the node the rest
/// leads to, or the next fresh directory is added there.
pub proof fn lemma_ensured_push(
    t: FsNode,
    pre: Seq<Seq<char>>,
    fr: Seq<FsNode>,
    x: Seq<char>,
    l: FsNode,
)
    requires
        fresh_ok(t, pre, fr),
    ensures
        pos_of(ensured(t, pre, fr), pre) is Some,
        ({
            let tt = ensured(t, pre, fr);
            let q = pos_of(tt, pre)->0;
            let nn = node_at(tt, q);
            let j = first_named(nn.children, x);
            &&& valid_pos(tt, q)
            &&& j >= 0 ==> ensured(t, pre.push(x), fr) == tt && fresh_ok(t, pre.push(x), fr)
                && pos_of(tt, pre.push(x)) == Some(q.push(j))
            &&& (j < 0 && l.children.len() == 0 && is_new_dir(l.entry, x)) ==> ensured(
                t,
                pre.push(x),
                fr.push(l),
            ) == update_at(tt, q, with_child(nn, l)) && fresh_ok(t, pre.push(x), fr.push(l))
                && pos_of(update_at(tt, q, with_child(nn, l)), pre.push(x)) == Some(
                q.push(nn.children.len() as int),
            )
        }),
    decreases pre.len(),
{
    let tt = ensured(t, pre, fr);
    let path = pre.push(x);
    if pre.len() == 0 {
        assert(fr.len() == 0);
        assert(tt == t);
        let q = Seq::<int>::empty();
        assert(pos_of(tt, pre) == Some(q));
        assert(node_at(tt, q) == tt);
        assert(path[0] == x);
        assert(path.drop_first() =~= Seq::<Seq<char>>::empty());
        lemma_pos_of_push(tt, pre, x);
        let j = first_named(t.children, x);
        lemma_first_named(t.children, x);
        if j >= 0 {
            assert(ensured(t.children[j], path.drop_first(), fr) == t.children[j]);
            assert(t.children.update(j, t.children[j]) =~= t.children);
            assert(fresh_ok(t.children[j], path.drop_first(), fr));
        } else {
            let f2 = fr.push(l);
            assert(f2[0] == l);
            assert(f2.drop_first() =~= Seq::<FsNode>::empty());
            assert(ensured(l, path.drop_first(), f2.drop_first()) == l);
            assert(fresh_ok(l, path.drop_first(), f2.drop_first()));
            if l.children.len() == 0 && is_new_dir(l.entry, x) {
                let nw = with_child(t, l);
                assert(update_at(tt, q, with_child(t, l)) == nw);
                assert(nw.children == t.children.push(l));
                lemma_first_named_push(t.children, l, x);
                assert(pos_of(l, path.drop_first()) == Some(q));
                assert(seq![t.children.len() as int] + q =~= q.push(t.children.len() as int));
            }
        }
    } else {
        assert(path[0] == pre[0]);
        assert(path.drop_first() =~= pre.drop_first().push(x));
        let rest = pre.drop_first();
        let i = first_named(t.children, pre[0]);
        lemma_first_named(t.children, pre[0]);
        if i >= 0 {
            let c = t.children[i];
            lemma_ensured_push(c, rest, fr, x, l);
            let tc = ensured(c, rest, fr);
            lemma_ensured_root(c, rest, fr);
            assert(tt == with_children(t, t.children.update(i, tc)));
            lemma_first_named_same_names(t.children, tt.children, pre[0]);
            let qc = pos_of(tc, rest)->0;
            let q = seq![i] + qc;
            assert(q[0] == i);
            assert(q.drop_first() =~= qc);
            assert(pos_of(tt, pre) == Some(q));
            assert(node_at(tt, q) == node_at(tc, qc));
            let nn = node_at(tc, qc);
            let j = first_named(nn.children, x);
            if j >= 0 {
                assert(ensured(c, path.drop_first(), fr) == tc);
                assert(t.children.update(i, tc) =~= tt.children);
                assert(tt.children.update(i, tc) =~= tt.children);
                assert(fresh_ok(c, path.drop_first(), fr));
                lemma_pos_of_push(tt, pre, x);
            } else if l.children.len() == 0 && is_new_dir(l.entry, x) {
                let y = update_at(tc, qc, with_child(nn, l));
                assert(ensured(c, path.drop_first(), fr.push(l)) == y);
                assert(fresh_ok(c, path.drop_first(), fr.push(l)));
                let nw = with_children(tt, tt.children.update(i, y));
                assert(y.entry == tc.entry) by {
                    if qc.len() == 0 {
                        assert(nn == tc);
                    }
                }
                lemma_first_named_same_names(t.children, nw.children, pre[0]);
                assert(pos_of(y, path.drop_first()) == Some(qc.push(nn.children.len() as int)));
                assert(nw.children[i] == y);
                assert(seq![i] + qc.push(nn.children.len() as int) =~= q.push(nn.children.len() as int));
                assert(update_at(tt, q, with_child(nn, l)) == with_children(
                    tt,
                    tt.children.update(i, y),
                ));
                assert(t.children.update(i, y) =~= tt.children.update(i, y));
            }
        } else {
            let f0 = fr[0];
            let fd = fr.drop_first();
            lemma_ensured_push(f0, rest, fd, x, l);
            let tf = ensured(f0, rest, fd);
            lemma_ensured_root(f0, rest, fd);
            assert(tt == with_children(t, t.children.push(tf)));
            lemma_first_named_push(t.children, tf, pre[0]);
            let k = t.children.len() as int;
            let qf = pos_of(tf, rest)->0;
            let q = seq![k] + qf;
            assert(q[0] == k);
            assert(q.drop_first() =~= qf);
            assert(tt.children[k] == tf);
            assert(pos_of(tt, pre) == Some(q));
            assert(node_at(tt, q) == node_at(tf, qf));
            let nn = node_at(tf, qf);
            let j = first_named(nn.children, x);
            if j >= 0 {
                assert(ensured(f0, path.drop_first(), fd) == tf);
                assert(fresh_ok(f0, path.drop_first(), fd));
                assert(tt.children.update(k, tf) =~= tt.children);
                lemma_pos_of_push(tt, pre, x);
            } else if l.children.len() == 0 && is_new_dir(l.entry, x) {
                let f2 = fr.push(l);
                assert(f2[0] == f0);
                assert(f2.drop_first() =~= fd.push(l));
                let y = update_at(tf, qf, with_child(nn, l));
                assert(ensured(f0, path.drop_first(), fd.push(l)) == y);
                assert(fresh_ok(f0, path.drop_first(), fd.push(l)));
                let nw = with_children(tt, tt.children.update(k, y));
                assert(y.entry == tf.entry) by {
                    if qf.len() == 0 {
                        assert(nn == tf);
                    }
                }
                assert(nw.children =~= t.children.push(y));
                lemma_first_named_push(t.children, y, pre[0]);
                assert(pos_of(y, path.drop_first()) == Some(qf.push(nn.children.len() as int)));
                assert(seq![k] + qf.push(nn.children.len() as int) =~= q.push(nn.children.len() as int));
                assert(update_at(tt, q, with_child(nn, l)) == with_children(
                    tt,
                    tt.children.update(k, y),
                ));
                assert(t.children.push(y) =~= tt.children.update(k, y));
            }
        }
    }
}

} // verus!
