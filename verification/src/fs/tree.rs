use crate::fs::arena::{
    arena_append, arena_children, arena_contains, arena_entry, arena_entry_mut, arena_live_count, arena_new,
    arena_new_node, arena_nodes, arena_remove_subtree, descends,
};
use crate::fs::entry::FsEntry;
use crate::fs::model::{
    distinct_node, first_named, handles, in_nodes, in_tree, is_first_named, leaf,
    lemma_add_leaf, lemma_first_named, lemma_first_named_is, lemma_node_at_distinct, lemma_node_at_in_tree_dom, lemma_update_at_handle_root,
    lemma_set_entry, lemma_in_tree_pos, lemma_agree, pos_of_handle, scanned_at, with_entry,
    computed, computed_seq, partial, lemma_partial, lemma_update_at_overwrite, lemma_update_at_twice,
    lemma_update_at_node, lemma_update_at_same, total, total_seq, sizes_fit, sizes_fit_seq,
    lemma_sizes_fit_index, lemma_sizes_fit_intro, lemma_node_entry, lemma_total_prefix, lemma_computed_seq, fcount, fcount_upto, file_count,
    lemma_fcount_upto_mono, lemma_first_named_exists, lemma_without_child, without_child, lemma_first_named_push, lemma_first_named_same_names, lemma_remove_child, removed_at, removed_path,
    removed_paths, ensured, fresh_ok, is_new_dir, lemma_ensured_push,
    lemma_node_at_push, lemma_node_at_sub, lemma_node_at_wf, lemma_node_at_in_tree, lemma_unique_pos, lemma_pos_of_prefix_none,
    lemma_pos_of_push, lemma_pos_of_valid, lemma_update_at, lemma_wf_in_dom, lemma_wf_nodes_index,
    lookup, node_at, pos_of, update_at, valid_pos, wf_node, with_child, FsNode,
};
use crate::fs::path::FsPath;
use indextree::{Arena, NodeId};
use vstd::prelude::*;

verus! {

broadcast use {FsEntry::lemma_with_size, FsEntry::lemma_with_scanned};

/// The directory tree: entries held in an `indextree` arena under one root.
pub struct FsTree {
    arena: Arena<FsEntry>,
    root: NodeId,
    shape: Ghost<FsNode>,
}

impl View for FsTree {
    type V = FsNode;

    closed spec fn view(&self) -> FsNode {
        self.shape@
    }
}

/// The arena index of the node a path leads to.
pub open spec fn find_spec(t: FsNode, path: Seq<Seq<char>>) -> Option<NodeId> {
    match lookup(t, path) {
        Some(n) => Some(n.handle),
        None => None,
    }
}

/// `t2` is `t` with `entry` added as the last child of the node `path` leads
/// to, under an id new to the tree; `t` itself where the path leads nowhere.
pub open spec fn added(t: FsNode, path: Seq<Seq<char>>, entry: FsEntry, t2: FsNode) -> bool {
    match pos_of(t, path) {
        None => t2 == t,
        Some(p) => exists|h: NodeId|
            !in_tree(t, h) && t2 == update_at(t, p, with_child(node_at(t, p), #[trigger] leaf(h, entry))),
    }
}

/// Replacing the node a path leads to by one of the same name keeps the
/// path leading to the same position.
pub proof fn lemma_pos_of_update(t: FsNode, path: Seq<Seq<char>>, x: FsNode)
    requires
        pos_of(t, path) is Some,
        x.entry.spec_name() == node_at(t, pos_of(t, path)->0).entry.spec_name(),
    ensures
        pos_of(update_at(t, pos_of(t, path)->0, x), path) == pos_of(t, path),
    decreases path.len(),
{
    lemma_pos_of_valid(t, path);
    let p = pos_of(t, path)->0;
    if path.len() > 0 {
        let i = first_named(t.children, path[0]);
        lemma_first_named(t.children, path[0]);
        let c = t.children[i];
        let q = pos_of(c, path.drop_first())->0;
        assert(p =~= seq![i] + q);
        assert(p.drop_first() =~= q);
        assert(p[0] == i);
        assert(node_at(t, p) == node_at(c, q));
        lemma_pos_of_update(c, path.drop_first(), x);
        let t2 = update_at(t, p, x);
        let c2 = update_at(c, q, x);
        assert(t2.children == t.children.update(i, c2));
        if q.len() == 0 {
            assert(c2 == x);
            assert(node_at(c, q) == c);
        }
        assert(c2.entry.spec_name() == c.entry.spec_name());
        assert forall|k: int| 0 <= k < t.children.len() implies (#[trigger] t.children[k]).entry.spec_name()
            == t2.children[k].entry.spec_name() by {
            if k == i {
            } else {
                assert(t2.children[k] == t.children[k]);
            }
        }
        lemma_first_named_same_names(t.children, t2.children, path[0]);
        assert(pos_of(t2, path) == Some(seq![i] + q));
    }
}

/// The first child with a name stays the first once more children follow.
proof fn lemma_first_named_extend(cs: Seq<FsNode>, ds: Seq<FsNode>, name: Seq<char>)
    requires
        cs.len() <= ds.len(),
        ds.take(cs.len() as int) == cs,
        first_named(cs, name) >= 0,
    ensures
        first_named(ds, name) == first_named(cs, name),
{
    lemma_first_named(cs, name);
    let i = first_named(cs, name);
    assert(ds[i] == ds.take(cs.len() as int)[i]);
    assert forall|j: int| 0 <= j < i implies (#[trigger] ds[j]).entry.spec_name() != name by {
        assert(ds[j] == ds.take(cs.len() as int)[j]);
    }
    assert(is_first_named(ds, name, i));
    lemma_first_named_is(ds, name, i);
}

/// The names of the children of a node, in order.
pub open spec fn child_names(n: FsNode) -> Seq<Seq<char>> {
    n.children.map_values(|c: FsNode| c.entry.spec_name())
}

/// Replacing a node by one with the same entry and more children after its
/// own keeps every path leading where it led, to an entry of the same value
/// whose children bear the same names, but at the node replaced.
proof fn lemma_update_keeps_pos(t: FsNode, p: Seq<int>, x: FsNode, q: Seq<Seq<char>>)
    requires
        valid_pos(t, p),
        x.entry == node_at(t, p).entry,
        node_at(t, p).children.len() <= x.children.len(),
        x.children.take(node_at(t, p).children.len() as int) == node_at(t, p).children,
        pos_of(t, q) is Some,
    ensures
        pos_of(update_at(t, p, x), q) == pos_of(t, q),
        node_at(update_at(t, p, x), pos_of(t, q)->0).entry == node_at(t, pos_of(t, q)->0).entry,
        child_names(node_at(update_at(t, p, x), pos_of(t, q)->0)) == if pos_of(t, q)->0 == p {
            child_names(x)
        } else {
            child_names(node_at(t, pos_of(t, q)->0))
        },
    decreases q.len(),
{
    let t2 = update_at(t, p, x);
    let r = pos_of(t, q)->0;
    if q.len() == 0 {
        assert(r =~= Seq::<int>::empty());
        if p.len() == 0 {
            assert(t2 == x);
            assert(r =~= p);
            assert(node_at(t2, r) == x);
        } else {
            let k = p[0];
            let ck2 = update_at(t.children[k], p.drop_first(), x);
            assert(node_at(t, p) == node_at(t.children[k], p.drop_first()));
            if p.drop_first().len() == 0 {
                assert(node_at(t.children[k], p.drop_first()) == t.children[k]);
            }
            assert(ck2.entry == t.children[k].entry);
            assert(t2.children == t.children.update(k, ck2));
            assert forall|m: int| 0 <= m < t.children.len() implies (#[trigger] t.children[m]).entry.spec_name()
                == t2.children[m].entry.spec_name() by {
                if m != k {
                    assert(t2.children[m] == t.children[m]);
                }
            }
            assert(child_names(t2) =~= child_names(t));
            assert(r != p);
            assert(node_at(t2, r) == t2);
            assert(node_at(t, r) == t);
            assert(child_names(node_at(t2, r)) == child_names(node_at(t, r)));
        }
    } else {
        let i = first_named(t.children, q[0]);
        lemma_first_named(t.children, q[0]);
        let c = t.children[i];
        let r2 = pos_of(c, q.drop_first())->0;
        assert(r =~= seq![i] + r2);
        assert(r.drop_first() =~= r2);
        assert(r[0] == i);
        if p.len() == 0 {
            assert(t2 == x);
            lemma_first_named_extend(t.children, x.children, q[0]);
            assert(x.children[i] == x.children.take(t.children.len() as int)[i]);
            assert(x.children[i] == c);
            assert(pos_of(t2, q) == Some(seq![i] + r2));
            assert(node_at(t2, r) == node_at(c, r2));
            assert(node_at(t, r) == node_at(c, r2));
            assert(r != p);
        } else {
            let k = p[0];
            let ck2 = update_at(t.children[k], p.drop_first(), x);
            assert(t2.children == t.children.update(k, ck2));
            assert(node_at(t, p) == node_at(t.children[k], p.drop_first()));
            if p.drop_first().len() == 0 {
                assert(ck2 == x);
                assert(node_at(t.children[k], p.drop_first()) == t.children[k]);
            }
            assert(ck2.entry == t.children[k].entry);
            assert forall|m: int| 0 <= m < t.children.len() implies (#[trigger] t.children[m]).entry.spec_name()
                == t2.children[m].entry.spec_name() by {
                if m != k {
                    assert(t2.children[m] == t.children[m]);
                }
            }
            lemma_first_named_same_names(t.children, t2.children, q[0]);
            if i == k {
                lemma_update_keeps_pos(t.children[k], p.drop_first(), x, q.drop_first());
                assert(node_at(t2, r) == node_at(ck2, r2));
                assert(node_at(t, r) == node_at(t.children[k], r2));
                assert(p =~= seq![k] + p.drop_first());
                if r2 == p.drop_first() {
                    assert(r =~= p);
                } else {
                    assert(r != p) by {
                        if r == p {
                            assert(r.drop_first() == p.drop_first());
                        }
                    }
                }
            } else {
                assert(t2.children[i] == c);
                assert(node_at(t2, r) == node_at(c, r2));
                assert(node_at(t, r) == node_at(c, r2));
                assert(r != p) by {
                    if r == p {
                        assert(r[0] == p[0]);
                    }
                }
            }
            assert(pos_of(t2, q) == Some(seq![i] + r2));
        }
    }
}

/// Two paths that lead to the same position are the same path.
pub proof fn lemma_pos_injective(t: FsNode, q1: Seq<Seq<char>>, q2: Seq<Seq<char>>)
    requires
        pos_of(t, q1) is Some,
        pos_of(t, q1) == pos_of(t, q2),
    ensures
        q1 == q2,
    decreases q1.len(),
{
    lemma_pos_of_valid(t, q1);
    lemma_pos_of_valid(t, q2);
    if q1.len() > 0 {
        let r = pos_of(t, q1)->0;
        let i = first_named(t.children, q1[0]);
        let j = first_named(t.children, q2[0]);
        lemma_first_named(t.children, q1[0]);
        lemma_first_named(t.children, q2[0]);
        let r1 = pos_of(t.children[i], q1.drop_first())->0;
        let r2 = pos_of(t.children[j], q2.drop_first())->0;
        assert(r =~= seq![i] + r1);
        assert(r =~= seq![j] + r2);
        assert(r[0] == i && r[0] == j);
        assert(r1 =~= r.drop_first());
        assert(r2 =~= r.drop_first());
        lemma_pos_injective(t.children[i], q1.drop_first(), q2.drop_first());
        assert(q1 =~= seq![q1[0]] + q1.drop_first());
        assert(q2 =~= seq![q2[0]] + q2.drop_first());
    } else {
        assert(q1 =~= q2);
    }
}

/// Adding an entry never hides one already found: every path that led to
/// a node still leads to a node with the same entry, whose children bear
/// the same names, and one more, the entry's, at the node added to.
pub proof fn lemma_added_keeps(t: FsNode, path: Seq<Seq<char>>, entry: FsEntry, t2: FsNode, q: Seq<Seq<char>>)
    requires
        added(t, path, entry, t2),
        lookup(t, q) is Some,
    ensures
        lookup(t2, q) is Some,
        lookup(t2, q)->0.entry == lookup(t, q)->0.entry,
        child_names(lookup(t2, q)->0) == if q == path {
            child_names(lookup(t, q)->0).push(entry.spec_name())
        } else {
            child_names(lookup(t, q)->0)
        },
{
    if pos_of(t, q) == pos_of(t, path) {
        lemma_pos_injective(t, q, path);
    }
    if let Some(p) = pos_of(t, path) {
        lemma_pos_of_valid(t, path);
        let n = node_at(t, p);
        let h = choose|h: NodeId| !in_tree(t, h) && t2 == update_at(t, p, with_child(n, #[trigger] leaf(h, entry)));
        let x = with_child(n, leaf(h, entry));
        assert(x.children.take(n.children.len() as int) =~= n.children);
        lemma_update_keeps_pos(t, p, x, q);
        assert(child_names(x) =~= child_names(n).push(entry.spec_name()));
    }
}

/// An entry added under the directory a path leads to can be found there
/// by its name; it is the node found when no entry there had that name yet.
pub proof fn lemma_added_findable(t: FsNode, path: Seq<Seq<char>>, entry: FsEntry, t2: FsNode)
    requires
        added(t, path, entry, t2),
        lookup(t, path) is Some,
    ensures
        lookup(t2, path.push(entry.spec_name())) is Some,
        first_named(lookup(t, path)->0.children, entry.spec_name()) < 0 ==> lookup(
            t2,
            path.push(entry.spec_name()),
        )->0.entry == entry && lookup(t2, path.push(entry.spec_name()))->0.children.len() == 0,
{
    let p = pos_of(t, path)->0;
    let n = node_at(t, p);
    let name = entry.spec_name();
    lemma_pos_of_valid(t, path);
    let h = choose|h: NodeId|
        !in_tree(t, h) && t2 == update_at(t, p, with_child(node_at(t, p), #[trigger] leaf(h, entry)));
    let x = with_child(n, leaf(h, entry));
    lemma_pos_of_update(t, path, x);
    lemma_update_at_node(t, p, x);
    assert(pos_of(t2, path) == Some(p));
    assert(node_at(t2, p) == x);
    lemma_pos_of_push(t2, path, name);
    let cs = n.children;
    let ds = x.children;
    assert(ds == cs.push(leaf(h, entry)));
    lemma_first_named(cs, name);
    lemma_first_named(ds, name);
    if first_named(cs, name) >= 0 {
        let i = first_named(cs, name);
        assert(ds[i] == cs[i]);
        assert forall|j: int| 0 <= j < i implies (#[trigger] ds[j]).entry.spec_name() != name by {
            assert(ds[j] == cs[j]);
        }
        assert(is_first_named(ds, name, i));
        lemma_first_named_exists(ds, name, i);
    } else {
        lemma_first_named_push(cs, leaf(h, entry), name);
        let j = cs.len() as int;
        lemma_node_at_push(t2, p, j);
        assert(ds[j] == leaf(h, entry));
    }
}

/// Marking the node a path leads to as scanned makes the path scanned.
pub proof fn lemma_marked_scanned(t: FsNode, path: Seq<Seq<char>>)
    requires
        distinct_node(t),
        lookup(t, path) is Some,
    ensures
        scanned_path(scanned_at(t, lookup(t, path)->0.handle), path),
{
    let p = pos_of(t, path)->0;
    lemma_pos_of_valid(t, path);
    let n = node_at(t, p);
    let h = n.handle;
    lemma_node_at_in_tree(t, p);
    assert(valid_pos(t, p) && node_at(t, p).handle == h);
    let q = pos_of_handle(t, h);
    lemma_unique_pos(t, p, q);
    let x = with_entry(n, n.entry.with_scanned(true));
    assert(n.entry.with_scanned(true).spec_scanned());
    lemma_pos_of_update(t, path, x);
    lemma_update_at_node(t, p, x);
}

/// No two children of a node bear the same name.
pub open spec fn unique_names(n: FsNode) -> bool {
    forall|i: int, k: int|
        0 <= i < k < n.children.len() ==> (#[trigger] n.children[i]).entry.spec_name() != (
        #[trigger] n.children[k]).entry.spec_name()
}

/// Removing the entry a path leads to leaves the path leading nowhere, when
/// no sibling of that entry bears its name.
pub proof fn lemma_removed_not_found(t: FsNode, path: Seq<Seq<char>>)
    requires
        path.len() > 0,
        lookup(t, path) is Some,
        unique_names(lookup(t, path.drop_last())->0),
    ensures
        lookup(removed_path(t, path), path) is None,
{
    let pre = path.drop_last();
    let x = path.last();
    assert(path =~= pre.push(x));
    lemma_pos_of_push(t, pre, x);
    let q = pos_of(t, pre)->0;
    lemma_pos_of_valid(t, pre);
    let parent = node_at(t, q);
    let j = first_named(parent.children, x);
    lemma_first_named(parent.children, x);
    let p = q.push(j);
    assert(pos_of(t, path) == Some(p));
    assert(p.drop_last() =~= q);
    assert(p.last() == j);
    let x2 = without_child(parent, j);
    lemma_pos_of_update(t, pre, x2);
    lemma_update_at_node(t, q, x2);
    let t2 = removed_path(t, path);
    assert(t2 == update_at(t, q, x2));
    lemma_pos_of_push(t2, pre, x);
    lemma_without_child(parent, j);
    let cs = x2.children;
    assert forall|i: int| 0 <= i < cs.len() implies (#[trigger] cs[i]).entry.spec_name() != x by {
        let k = if i < j { i } else { i + 1 };
        assert(cs[i] == parent.children[k]);
        if k < j {
            assert(parent.children[k].entry.spec_name() != parent.children[j].entry.spec_name());
        } else {
            assert(parent.children[j].entry.spec_name() != parent.children[k].entry.spec_name());
        }
    }
    lemma_first_named(cs, x);
}

/// Computing sizes keeps every path leading where it led, to an entry with
/// the same name and the same scanned flag.
pub proof fn lemma_computed_keeps(t: FsNode, q: Seq<Seq<char>>)
    requires
        pos_of(t, q) is Some,
    ensures
        pos_of(computed(t), q) == pos_of(t, q),
        lookup(computed(t), q)->0.entry.spec_scanned() == lookup(t, q)->0.entry.spec_scanned(),
        lookup(computed(t), q)->0.entry.spec_name() == lookup(t, q)->0.entry.spec_name(),
    decreases q.len(),
{
    let ct = computed(t);
    if t.entry.spec_is_dir() {
        assert(t.entry.with_size(Some(total_seq(t.children) as u64)).spec_size() == Some(
            total_seq(t.children) as u64,
        ));
    }
    if q.len() > 0 {
        let r = pos_of(t, q)->0;
        let i = first_named(t.children, q[0]);
        lemma_first_named(t.children, q[0]);
        lemma_computed_seq(t.children);
        assert forall|m: int| 0 <= m < t.children.len() implies (#[trigger] t.children[m]).entry.spec_name()
            == ct.children[m].entry.spec_name() by {
            let c = t.children[m];
            if c.entry.spec_is_dir() {
                assert(c.entry.with_size(Some(total_seq(c.children) as u64)).spec_size() == Some(
                    total_seq(c.children) as u64,
                ));
            }
        }
        lemma_first_named_same_names(t.children, ct.children, q[0]);
        let c = t.children[i];
        lemma_computed_keeps(c, q.drop_first());
        let r2 = pos_of(c, q.drop_first())->0;
        assert(r =~= seq![i] + r2);
        assert(r.drop_first() =~= r2);
        assert(pos_of(ct, q) == Some(seq![i] + r2));
        assert(node_at(ct, r) == node_at(computed(c), r2));
        assert(node_at(t, r) == node_at(c, r2));
    }
}

/// A well-formed tree uses no arena index twice.
pub proof fn lemma_wf_distinct(tree: FsTree)
    requires
        tree.wf(),
    ensures
        distinct_node(tree@),
{
}

/// The sum of the sizes of the entries of a list of nodes, an unknown size
/// counting 0.
pub open spec fn entry_sizes(cs: Seq<FsNode>) -> nat
    decreases cs.len(),
{
    if cs.len() == 0 {
        0
    } else {
        entry_sizes(cs.drop_last()) + match cs.last().entry.spec_size() {
            Some(s) => s as nat,
            None => 0,
        }
    }
}

proof fn lemma_computed_entry_sizes(cs: Seq<FsNode>)
    requires
        sizes_fit_seq(cs),
    ensures
        entry_sizes(computed_seq(cs)) == total_seq(cs),
    decreases cs.len(),
{
    if cs.len() > 0 {
        lemma_computed_entry_sizes(cs.drop_last());
        let c = cs.last();
        lemma_sizes_fit_index(cs, cs.len() - 1);
        let ccs = computed_seq(cs);
        assert(ccs.drop_last() =~= computed_seq(cs.drop_last()));
        assert(ccs.last() == computed(c));
        assert(sizes_fit(c));
        assert(total_seq(c.children) <= u64::MAX);
        if c.entry.spec_is_dir() {
            assert(c.entry.with_size(Some(total_seq(c.children) as u64)).spec_size() == Some(
                total_seq(c.children) as u64,
            ));
            assert(computed(c).entry.spec_size() == Some(total_seq(c.children) as u64));
            assert(total(c) == total_seq(c.children));
        }
        assert(entry_sizes(ccs) == entry_sizes(ccs.drop_last()) + match ccs.last().entry.spec_size() {
            Some(s) => s as nat,
            None => 0,
        });
        assert(total_seq(cs) == total_seq(cs.drop_last()) + total(c));
    }
}

/// Once sizes are computed, a directory's size is the sum of the sizes its
/// children then have, an unknown size counting 0.
pub proof fn lemma_computed_dir_size(t: FsNode)
    requires
        sizes_fit(t),
        t.entry.spec_is_dir(),
    ensures
        computed(t).entry.spec_size() == Some(entry_sizes(computed(t).children) as u64),
{
    lemma_computed_entry_sizes(t.children);
}

/// The components of each path of a list.
pub open spec fn paths_parts(paths: Seq<FsPath>) -> Seq<Seq<Seq<char>>> {
    paths.map_values(|p: FsPath| p@.parts)
}

/// The entries of the children of the node a path leads to, in order; none
/// when it leads nowhere.
pub open spec fn children_entries(t: FsNode, path: Seq<Seq<char>>) -> Seq<FsEntry> {
    match lookup(t, path) {
        Some(n) => n.children.map_values(|c: FsNode| c.entry),
        None => Seq::empty(),
    }
}

/// Whether a path leads to a node that has been scanned.
pub open spec fn scanned_path(t: FsNode, path: Seq<Seq<char>>) -> bool {
    lookup(t, path) matches Some(n) && n.entry.spec_scanned()
}

impl FsTree {
    /// The arena holds exactly what the tree describes, and no index occurs
    /// twice in it.
    pub closed spec fn wf(&self) -> bool {
        &&& wf_node(arena_nodes(self.arena), self.shape@)
        &&& distinct_node(self.shape@)
        &&& self.root == self.shape@.handle
    }

    /// How many nodes the arena holds live.
    pub closed spec fn live_nodes(&self) -> nat {
        arena_nodes(self.arena).dom().len()
    }

    /// An empty tree: a root directory named `ROOT`, not scanned.
    pub fn new() -> (r: FsTree)
        ensures
            r.wf(),
            r@.children.len() == 0,
            r@.entry.spec_name() == "ROOT"@,
            r@.entry.spec_is_dir(),
            !r@.entry.spec_scanned(),
            r@.entry.spec_size() is None,
            r@.entry.spec_created() is None,
            r@.entry.spec_modified() is None,
    {
        let mut arena = arena_new();
        let entry = FsEntry::dir(String::from_str("ROOT"), false, None, None);
        let ghost e = entry;
        let root = arena_new_node(&mut arena, entry);
        let ghost t = FsNode { handle: root, entry: e, children: Seq::empty() };
        proof {
            assert(handles(t.children) =~= Seq::<NodeId>::empty());
            assert(!in_nodes(t.children, root));
        }
        FsTree { arena, root, shape: Ghost(t) }
    }

    /// The first child of a node that bears a name.
    fn find_child_by_name(&self, h: NodeId, Ghost(n): Ghost<FsNode>, name: &String) -> (r: Option<NodeId>)
        requires
            wf_node(arena_nodes(self.arena), n),
            n.handle == h,
        ensures
            first_named(n.children, name@) < 0 ==> r is None,
            first_named(n.children, name@) >= 0 ==> r == Some(
                n.children[first_named(n.children, name@)].handle,
            ),
    {
        let ghost m = arena_nodes(self.arena);
        let children = arena_children(&self.arena, h);
        let mut i: usize = 0;
        while i < children.len()
            invariant
                m == arena_nodes(self.arena),
                wf_node(m, n),
                children@ == handles(n.children),
                i <= children.len(),
                forall|j: int| 0 <= j < i ==> (#[trigger] n.children[j]).entry.spec_name() != name@,
            decreases children.len() - i,
        {
            let c = children[i];
            proof {
                lemma_wf_nodes_index(m, n.children, i as int);
            }
            let e = arena_entry(&self.arena, c);
            if *e.name() == *name {
                proof {
                    assert(is_first_named(n.children, name@, i as int));
                    lemma_first_named_is(n.children, name@, i as int);
                }
                return Some(c);
            }
            i = i + 1;
        }
        proof {
            lemma_first_named(n.children, name@);
            if first_named(n.children, name@) >= 0 {
                let k = first_named(n.children, name@);
                assert(n.children[k].entry.spec_name() == name@);
            }
        }
        None
    }

    /// The node a path leads to, with where it stands in the tree.
    fn find_pos(&self, path: &FsPath) -> (r: (Option<NodeId>, Ghost<Seq<int>>))
        requires
            self.wf(),
        ensures
            pos_of(self@, path@.parts) is None ==> r.0 is None,
            pos_of(self@, path@.parts) matches Some(p) ==> r.0 == Some(node_at(self@, p).handle)
                && r.1@ == p,
    {
        let ghost m = arena_nodes(self.arena);
        let ghost t = self@;
        let ghost parts = path@.parts;
        let names = path.parts();
        let mut cur = self.root;
        let ghost mut q = Seq::<int>::empty();
        proof {
            assert(parts.take(0) =~= Seq::<Seq<char>>::empty());
        }
        let mut i: usize = 0;
        while i < names.len()
            invariant
                m == arena_nodes(self.arena),
                t == self@,
                self.wf(),
                parts == path@.parts,
                crate::fs::path::names_view(names@) == parts,
                i <= names.len(),
                pos_of(t, parts.take(i as int)) == Some(q),
                valid_pos(t, q),
                node_at(t, q).handle == cur,
            decreases names.len() - i,
        {
            proof {
                lemma_node_at_wf(m, t, q);
                assert(parts[i as int] == names@[i as int]@);
            }
            let next = self.find_child_by_name(cur, Ghost(node_at(t, q)), &names[i]);
            proof {
                lemma_pos_of_push(t, parts.take(i as int), parts[i as int]);
                assert(parts.take(i as int).push(parts[i as int]) =~= parts.take(i + 1));
            }
            match next {
                None => {
                    proof {
                        lemma_pos_of_prefix_none(t, parts, i + 1);
                    }
                    return (None, Ghost(Seq::empty()));
                },
                Some(c) => {
                    proof {
                        let j = first_named(node_at(t, q).children, parts[i as int]);
                        lemma_first_named(node_at(t, q).children, parts[i as int]);
                        lemma_node_at_push(t, q, j);
                        q = q.push(j);
                    }
                    cur = c;
                },
            }
            i = i + 1;
        }
        proof {
            assert(parts.take(i as int) =~= parts);
        }
        (Some(cur), Ghost(q))
    }

    /// The arena index of the node a path leads to; the root component, if
    /// any, is not part of `path@.parts` and so is ignored.
    pub fn find(&self, path: &FsPath) -> (r: Option<NodeId>)
        requires
            self.wf(),
        ensures
            r == find_spec(self@, path@.parts),
    {
        self.find_pos(path).0
    }

    /// Whether the path leads to a node that has been scanned.
    pub fn is_scanned(&self, path: &FsPath) -> (r: bool)
        requires
            self.wf(),
        ensures
            r == scanned_path(self@, path@.parts),
    {
        let (found, Ghost(p)) = self.find_pos(path);
        match found {
            None => false,
            Some(h) => {
                proof {
                    lemma_pos_of_valid(self@, path@.parts);
                    lemma_node_at_wf(arena_nodes(self.arena), self@, p);
                }
                arena_entry(&self.arena, h).scanned()
            },
        }
    }

    /// The entry of the node a path leads to.
    pub fn entry_at(&self, path: &FsPath) -> (r: Option<&FsEntry>)
        requires
            self.wf(),
        ensures
            lookup(self@, path@.parts) is None ==> r is None,
            lookup(self@, path@.parts) matches Some(n) ==> r matches Some(e) && *e == n.entry,
    {
        let (found, Ghost(p)) = self.find_pos(path);
        match found {
            None => None,
            Some(h) => {
                proof {
                    lemma_pos_of_valid(self@, path@.parts);
                    lemma_node_at_wf(arena_nodes(self.arena), self@, p);
                }
                Some(arena_entry(&self.arena, h))
            },
        }
    }

    /// The entries of the children of the node a path leads to, in order;
    /// none when the path leads nowhere.
    pub fn entries_at(&self, path: &FsPath) -> (r: Vec<&FsEntry>)
        requires
            self.wf(),
        ensures
            lookup(self@, path@.parts) is None ==> r@.len() == 0,
            lookup(self@, path@.parts) matches Some(n) ==> r@.len() == n.children.len() && forall|
                i: int,
            |
                0 <= i < r@.len() ==> *(#[trigger] r@[i]) == n.children[i].entry,
    {
        let (found, Ghost(p)) = self.find_pos(path);
        let mut r: Vec<&FsEntry> = Vec::new();
        match found {
            None => r,
            Some(h) => {
                let ghost m = arena_nodes(self.arena);
                proof {
                    lemma_pos_of_valid(self@, path@.parts);
                    lemma_node_at_wf(m, self@, p);
                }
                let ghost n = node_at(self@, p);
                let children = arena_children(&self.arena, h);
                let mut i: usize = 0;
                while i < children.len()
                    invariant
                        m == arena_nodes(self.arena),
                        wf_node(m, n),
                        children@ == handles(n.children),
                        i <= children.len(),
                        r@.len() == i,
                        forall|j: int| 0 <= j < i ==> *(#[trigger] r@[j]) == n.children[j].entry,
                    decreases children.len() - i,
                {
                    proof {
                        lemma_wf_nodes_index(m, n.children, i as int);
                    }
                    r.push(arena_entry(&self.arena, children[i]));
                    i = i + 1;
                }
                r
            },
        }
    }

    /// Gives the node at a position a new last child, without children, that
    /// carries `entry`; returns the new node's id.
    fn add_child(&mut self, pid: NodeId, Ghost(p): Ghost<Seq<int>>, entry: FsEntry) -> (h: NodeId)
        requires
            old(self).wf(),
            valid_pos(old(self)@, p),
            node_at(old(self)@, p).handle == pid,
        ensures
            final(self).wf(),
            !in_tree(old(self)@, h),
            final(self)@ == update_at(old(self)@, p, with_child(node_at(old(self)@, p), leaf(h, entry))),
            forall|x: NodeId| #[trigger] in_tree(final(self)@, x) <==> (in_tree(old(self)@, x) || x == h),
    {
        let ghost m = arena_nodes(self.arena);
        let ghost t = self@;
        let ghost e = entry;
        let ghost n = node_at(t, p);
        proof {
            lemma_node_at_wf(m, t, p);
            lemma_node_at_distinct(t, p);
            lemma_node_at_in_tree_dom(m, t, p);
        }
        let h = arena_new_node(&mut self.arena, entry);
        let ghost m1 = arena_nodes(self.arena);
        proof {
            if in_tree(t, h) {
                lemma_wf_in_dom(m, t, h);
            }
            assert(!in_tree(n, h)) by {
                if in_tree(n, h) {
                    lemma_node_at_sub(t, p, h);
                }
            }
            assert(m1[pid] == m[pid]);
            assert(m1[h].1.len() == 0);
        }
        arena_append(&mut self.arena, pid, h);
        let ghost m2 = arena_nodes(self.arena);
        proof {
            assert forall|x: NodeId| #[trigger] in_nodes(n.children, x) implies m2.contains_key(x)
                && m2[x] == m[x] by {
                assert(in_tree(n, x));
                lemma_node_at_sub(t, p, x);
                lemma_wf_in_dom(m, t, x);
                if x == pid {
                    assert(in_nodes(n.children, n.handle));
                }
            }
            lemma_add_leaf(m, m2, n, h, e);
            let s2 = with_child(n, leaf(h, e));
            assert forall|x: NodeId| #[trigger]
                in_tree(t, x) && !in_tree(node_at(t, p), x) implies m2.contains_key(x) && m2[x] == m[x] by {
                lemma_wf_in_dom(m, t, x);
                assert(x != pid);
            }
            assert forall|x: NodeId| #[trigger]
                in_tree(s2, x) implies !(in_tree(t, x) && !in_tree(node_at(t, p), x)) by {
            }
            lemma_update_at(m, m2, t, p, s2);
            lemma_update_at_handle_root(t, p, s2);
            assert forall|x: NodeId| #[trigger] in_tree(update_at(t, p, s2), x) <==> (in_tree(t, x) || x == h) by {
                if in_tree(n, x) {
                    lemma_node_at_sub(t, p, x);
                }
            }
        }
        self.shape = Ghost(update_at(t, p, with_child(n, leaf(h, e))));
        h
    }

    /// Adds an entry as the last child of the node a path leads to; does
    /// nothing when the path leads nowhere.
    pub fn add_entry(&mut self, entry: FsEntry, parent_path: &FsPath)
        requires
            old(self).wf(),
        ensures
            final(self).wf(),
            added(old(self)@, parent_path@.parts, entry, final(self)@),
    {
        let (found, Ghost(p)) = self.find_pos(parent_path);
        match found {
            None => {},
            Some(pid) => {
                proof {
                    lemma_pos_of_valid(self@, parent_path@.parts);
                }
                let ghost e = entry;
                let h = self.add_child(pid, Ghost(p), entry);
                assert(leaf(h, e) == leaf(h, e));
                assert(pos_of(old(self)@, parent_path@.parts) == Some(p));
            },
        }
    }

    /// Marks the node with a given id as scanned; does nothing when the id
    /// names no live node.
    pub fn mark_scanned(&mut self, id: NodeId)
        requires
            old(self).wf(),
        ensures
            final(self).wf(),
            final(self)@ == scanned_at(old(self)@, id),
    {
        if arena_contains(&self.arena, id) {
            let ghost m = arena_nodes(self.arena);
            let ghost t = self@;
            let e = arena_entry_mut(&mut self.arena, id);
            e.set_scanned(true);
            let ghost m2 = arena_nodes(self.arena);
            proof {
                if in_tree(t, id) {
                    let p0 = lemma_in_tree_pos(t, id);
                    let p = pos_of_handle(t, id);
                    lemma_node_at_wf(m, t, p);
                    lemma_set_entry(m, m2, t, p, node_at(t, p).entry.with_scanned(true));
                } else {
                    assert forall|x: NodeId| #[trigger] in_tree(t, x) implies m2.contains_key(x)
                        && m2[x] == m[x] by {
                        lemma_wf_in_dom(m, t, x);
                    }
                    lemma_agree(m, m2, t);
                }
            }
            self.shape = Ghost(scanned_at(t, id));
        }
        proof {
            if !arena_nodes(self.arena).contains_key(id) && in_tree(self@, id) {
                lemma_wf_in_dom(arena_nodes(self.arena), self@, id);
            }
        }
    }

    /// Computes the sizes of the directories at and below a node; returns the
    /// size the node counts for.
    #[verifier::spinoff_prover]
    fn compute_dir_size(&mut self, id: NodeId, Ghost(p): Ghost<Seq<int>>, Ghost(n): Ghost<FsNode>) -> (r: u64)
        requires
            old(self).wf(),
            valid_pos(old(self)@, p),
            n == node_at(old(self)@, p),
            n.handle == id,
            sizes_fit(n),
        ensures
            final(self).wf(),
            final(self)@ == update_at(old(self)@, p, computed(n)),
            r == total(n),
        decreases n,
    {
        let ghost t0 = self@;
        proof {
            lemma_node_at_wf(arena_nodes(self.arena), t0, p);
            lemma_partial(n, 0);
            lemma_update_at_same(t0, p);
        }
        let children = arena_children(&self.arena, id);
        let mut total: u64 = 0;
        let mut i: usize = 0;
        while i < children.len()
            invariant
                self.wf(),
                valid_pos(t0, p),
                n == node_at(t0, p),
                sizes_fit(n),
                children@ == handles(n.children),
                i <= children.len(),
                self@ == update_at(t0, p, partial(n, i as int)),
                total == total_seq(n.children.take(i as int)),
            decreases children.len() - i,
        {
            let ghost cur = self@;
            proof {
                lemma_partial(n, i as int);
                lemma_update_at_node(t0, p, partial(n, i as int));
                lemma_node_at_push(cur, p, i as int);
                lemma_sizes_fit_index(n.children, i as int);
                lemma_total_prefix(n.children, i as int);
                assert(children@[i as int] == n.children[i as int].handle);
            }
            let sub = self.compute_dir_size(children[i], Ghost(p.push(i as int)), Ghost(n.children[i as int]));
            proof {
                lemma_update_at_twice(t0, p, partial(n, i as int), i as int, computed(n.children[i as int]));
            }
            total = total + sub;
            i = i + 1;
        }
        let ghost m = arena_nodes(self.arena);
        let ghost cur = self@;
        proof {
            lemma_partial(n, n.children.len() as int);
            lemma_update_at_node(t0, p, partial(n, n.children.len() as int));
            assert(n.children.take(n.children.len() as int) =~= n.children);
            lemma_node_at_wf(m, cur, p);
        }
        let e = arena_entry_mut(&mut self.arena, id);
        if e.is_dir() {
            e.set_size(Some(total));
        }
        let r = match e.size() {
            Some(s) => s,
            None => 0,
        };
        let ghost m2 = arena_nodes(self.arena);
        let ghost e2 = arena_nodes(self.arena)[id].0;
        proof {
            assert(m[id].0 == n.entry);
            assert(total == total_seq(n.children));
            assert(e2.spec_is_dir() == n.entry.spec_is_dir());
            assert(n.entry.spec_is_dir() ==> e2.spec_size() == Some(total));
            assert(!n.entry.spec_is_dir() ==> e2 == n.entry);
            lemma_set_entry(m, m2, cur, p, e2);
            lemma_update_at_overwrite(t0, p, partial(n, n.children.len() as int), with_entry(partial(n, n.children.len() as int), e2));
            assert(with_entry(partial(n, n.children.len() as int), e2) == computed(n));
        }
        self.shape = Ghost(update_at(t0, p, computed(n)));
        r
    }

    /// Gives every directory the sum of the sizes of what it holds, computed
    /// bottom-up; files keep their sizes.
    pub fn compute_dir_sizes(&mut self)
        requires
            old(self).wf(),
            sizes_fit(old(self)@),
        ensures
            final(self).wf(),
            final(self)@ == computed(old(self)@),
    {
        let root = self.root;
        let ghost t = self@;
        self.compute_dir_size(root, Ghost(Seq::empty()), Ghost(t));
    }

    /// The files counted at a path, by following it again, name by name, for
    /// every child.
    fn count_files_rec(&self, path: &FsPath, Ghost(b): Ghost<FsNode>) -> (r: u64)
        requires
            self.wf(),
            lookup(self@, path@.parts) matches Some(x) ==> x == b,
            file_count(self@, path@.parts) <= u64::MAX,
        ensures
            r == file_count(self@, path@.parts),
        decreases b,
    {
        let (found, Ghost(p)) = self.find_pos(path);
        let id = match found {
            None => {
                return 0;
            },
            Some(id) => id,
        };
        let ghost m = arena_nodes(self.arena);
        let ghost n = node_at(self@, p);
        proof {
            lemma_pos_of_valid(self@, path@.parts);
            lemma_node_at_wf(m, self@, p);
        }
        if !arena_entry(&self.arena, id).is_dir() {
            return 1;
        }
        let children = arena_children(&self.arena, id);
        let mut total: u64 = 0;
        let mut i: usize = 0;
        while i < children.len()
            invariant
                self.wf(),
                m == arena_nodes(self.arena),
                pos_of(self@, path@.parts) == Some(p),
                valid_pos(self@, p),
                n == node_at(self@, p),
                n == b,
                wf_node(m, n),
                n.entry.spec_is_dir(),
                fcount(n) <= u64::MAX,
                children@ == handles(n.children),
                i <= children.len(),
                total == fcount_upto(n, i as int),
            decreases children.len() - i,
        {
            proof {
                lemma_wf_nodes_index(m, n.children, i as int);
            }
            let child = arena_entry(&self.arena, children[i]);
            let sub_path = path.join(child.name());
            let ghost name = n.children[i as int].entry.spec_name();
            let ghost j = first_named(n.children, name);
            proof {
                lemma_first_named_exists(n.children, name, i as int);
                lemma_first_named(n.children, name);
                lemma_pos_of_push(self@, path@.parts, name);
                lemma_node_at_push(self@, p, j);
                lemma_fcount_upto_mono(n, i + 1, n.children.len() as int);
                assert(fcount_upto(n, i + 1) == fcount_upto(n, i as int) + fcount(n.children[j]));
            }
            let sub = self.count_files_rec(&sub_path, Ghost(n.children[j]));
            total = total + sub;
            i = i + 1;
        }
        total
    }

    /// How many files lie at a path: 0 where it leads nowhere, 1 for a file,
    /// and for a directory the sum over its children of the count at the
    /// path joined with the child's name.
    pub fn count_files(&self, path: &FsPath) -> (r: u64)
        requires
            self.wf(),
            file_count(self@, path@.parts) <= u64::MAX,
        ensures
            r == file_count(self@, path@.parts),
    {
        let ghost b = match lookup(self@, path@.parts) {
            Some(x) => x,
            None => self@,
        };
        self.count_files_rec(path, Ghost(b))
    }

    /// Removes the subtree a path leads to; does nothing when it leads nowhere.
    fn remove_entry(&mut self, path: &FsPath)
        requires
            old(self).wf(),
            path@.parts.len() > 0,
        ensures
            final(self).wf(),
            final(self)@ == removed_path(old(self)@, path@.parts),
    {
        let (found, Ghost(p)) = self.find_pos(path);
        if let Some(id) = found {
            let ghost m = arena_nodes(self.arena);
            let ghost t = self@;
            proof {
                lemma_pos_of_valid(t, path@.parts);
                lemma_node_at_wf(m, t, p);
            }
            arena_remove_subtree(&mut self.arena, id);
            proof {
                lemma_remove_child(m, arena_nodes(self.arena), t, p);
            }
            self.shape = Ghost(removed_at(t, p));
        }
    }

    /// Removes, one after the other, the subtrees the paths lead to; a path
    /// that leads nowhere is passed over.
    pub fn remove_entries(&mut self, paths: &Vec<FsPath>)
        requires
            old(self).wf(),
            forall|i: int| 0 <= i < paths@.len() ==> (#[trigger] paths@[i])@.parts.len() > 0,
        ensures
            final(self).wf(),
            final(self)@ == removed_paths(old(self)@, paths_parts(paths@)),
    {
        let ghost t0 = self@;
        let ghost pv = paths_parts(paths@);
        let mut i: usize = 0;
        proof {
            assert(pv.take(0) =~= Seq::<Seq<Seq<char>>>::empty());
        }
        while i < paths.len()
            invariant
                self.wf(),
                pv == paths_parts(paths@),
                forall|k: int| 0 <= k < paths@.len() ==> (#[trigger] paths@[k])@.parts.len() > 0,
                i <= paths.len(),
                self@ == removed_paths(t0, pv.take(i as int)),
            decreases paths.len() - i,
        {
            self.remove_entry(&paths[i]);
            proof {
                assert(pv.take(i + 1).drop_last() =~= pv.take(i as int));
                assert(pv.take(i + 1).last() == paths@[i as int]@.parts);
            }
            i = i + 1;
        }
        proof {
            assert(pv.take(i as int) =~= pv);
        }
    }

    /// Makes sure a path leads to a node, adding the directories it lacks
    /// (named as the components, not scanned, without size or times); returns
    /// the id of the node it leads to.
    pub fn ensure_dir(&mut self, path: &FsPath) -> (r: NodeId)
        requires
            old(self).wf(),
        ensures
            final(self).wf(),
            exists|fresh: Seq<FsNode>|
                {
                    &&& fresh_ok(old(self)@, path@.parts, fresh)
                    &&& final(self)@ == #[trigger] ensured(old(self)@, path@.parts, fresh)
                    &&& forall|k: int| 0 <= k < fresh.len() ==> !in_tree(old(self)@, (#[trigger] fresh[k]).handle)
                    &&& forall|k: int, l: int| 0 <= k < l < fresh.len() ==> (#[trigger] fresh[k]).handle != (#[trigger] fresh[l]).handle
                },
            lookup(final(self)@, path@.parts) matches Some(n) && n.handle == r,
    {
        let ghost t0 = self@;
        let ghost parts = path@.parts;
        let names = path.parts();
        let mut cur = self.root;
        let ghost mut fr = Seq::<FsNode>::empty();
        proof {
            assert(parts.take(0) =~= Seq::<Seq<char>>::empty());
        }
        let mut i: usize = 0;
        while i < names.len()
            invariant
                self.wf(),
                parts == path@.parts,
                crate::fs::path::names_view(names@) == parts,
                i <= names.len(),
                fresh_ok(t0, parts.take(i as int), fr),
                self@ == ensured(t0, parts.take(i as int), fr),
                pos_of(self@, parts.take(i as int)) matches Some(q) && node_at(self@, q).handle == cur,
                forall|x: NodeId| in_tree(t0, x) ==> #[trigger] in_tree(self@, x),
                forall|k: int| 0 <= k < fr.len() ==> in_tree(self@, (#[trigger] fr[k]).handle),
                forall|k: int| 0 <= k < fr.len() ==> !in_tree(t0, (#[trigger] fr[k]).handle),
                forall|k: int, l: int| 0 <= k < l < fr.len() ==> (#[trigger] fr[k]).handle != (#[trigger] fr[l]).handle,
            decreases names.len() - i,
        {
            let ghost pre = parts.take(i as int);
            let ghost x = parts[i as int];
            let ghost q = pos_of(self@, pre)->0;
            let ghost nn = node_at(self@, q);
            proof {
                assert(x == names@[i as int]@);
                lemma_ensured_push(t0, pre, fr, x, leaf(cur, nn.entry));
                lemma_node_at_wf(arena_nodes(self.arena), self@, q);
                assert(pre.push(x) =~= parts.take(i + 1));
            }
            match self.find_child_by_name(cur, Ghost(nn), &names[i]) {
                Some(c) => {
                    proof {
                        lemma_first_named(nn.children, x);
                        lemma_node_at_push(self@, q, first_named(nn.children, x));
                    }
                    cur = c;
                },
                None => {
                    let e = FsEntry::dir(names[i].clone(), false, None, None);
                    let ghost ge = e;
                    let ghost before = self@;
                    let h = self.add_child(cur, Ghost(q), e);
                    proof {
                        let l = leaf(h, ge);
                        lemma_ensured_push(t0, pre, fr, x, l);
                        lemma_update_at_node(before, q, with_child(nn, l));
                        lemma_node_at_push(self@, q, nn.children.len() as int);
                        assert(with_child(nn, l).children[nn.children.len() as int] == l);
                        fr = fr.push(l);
                        assert(fr[fr.len() - 1] == l);
                        assert forall|k: int| 0 <= k < fr.len() implies in_tree(self@, (#[trigger] fr[k]).handle) by {
                            if k < fr.len() - 1 {
                                assert(in_tree(before, fr[k].handle));
                            }
                        }
                    }
                    cur = h;
                },
            }
            i = i + 1;
        }
        proof {
            assert(parts.take(i as int) =~= parts);
        }
        cur
    }

    /// Whether the sizes below and at a node can be summed in a `u64`; when
    /// they can, the size the node counts for.
    fn sizes_fit_rec(&self, id: NodeId, Ghost(n): Ghost<FsNode>) -> (r: Option<u64>)
        requires
            self.wf(),
            wf_node(arena_nodes(self.arena), n),
            n.handle == id,
        ensures
            sizes_fit(n) ==> r == Some(total(n) as u64) && total(n) <= u64::MAX,
            !sizes_fit(n) ==> r is None,
        decreases n,
    {
        let ghost m = arena_nodes(self.arena);
        let children = arena_children(&self.arena, id);
        let mut sum: u64 = 0;
        let mut i: usize = 0;
        proof {
            assert(n.children.take(0) =~= Seq::<FsNode>::empty());
        }
        while i < children.len()
            invariant
                self.wf(),
                m == arena_nodes(self.arena),
                wf_node(m, n),
                children@ == handles(n.children),
                i <= children.len(),
                sum == total_seq(n.children.take(i as int)),
                forall|k: int| 0 <= k < i ==> sizes_fit(#[trigger] n.children[k]),
            decreases children.len() - i,
        {
            proof {
                lemma_wf_nodes_index(m, n.children, i as int);
                lemma_total_prefix(n.children, i as int);
            }
            let sub = self.sizes_fit_rec(children[i], Ghost(n.children[i as int]));
            match sub {
                None => {
                    proof {
                        if sizes_fit(n) {
                            lemma_sizes_fit_index(n.children, i as int);
                        }
                    }
                    return None;
                },
                Some(v) => {
                    match sum.checked_add(v) {
                        None => {
                            return None;
                        },
                        Some(s2) => {
                            sum = s2;
                        },
                    }
                },
            }
            i = i + 1;
        }
        proof {
            assert(n.children.take(i as int) =~= n.children);
            lemma_sizes_fit_intro(n.children);
            lemma_node_entry(m, n);
        }
        let e = arena_entry(&self.arena, id);
        if e.is_dir() {
            Some(sum)
        } else {
            match e.size() {
                Some(s) => Some(s),
                None => Some(0),
            }
        }
    }

    /// Whether `compute_dir_sizes` can sum every directory's size in a `u64`.
    pub fn dir_sizes_fit(&self) -> (r: bool)
        requires
            self.wf(),
        ensures
            r == sizes_fit(self@),
    {
        let root = self.root;
        let r = self.sizes_fit_rec(root, Ghost(self@));
        r.is_some()
    }

    /// The files counted at a path, or none when that count does not fit in
    /// a `u64`.
    fn count_files_checked_rec(&self, path: &FsPath, Ghost(b): Ghost<FsNode>) -> (r: Option<u64>)
        requires
            self.wf(),
            lookup(self@, path@.parts) matches Some(x) ==> x == b,
        ensures
            file_count(self@, path@.parts) <= u64::MAX ==> r == Some(file_count(self@, path@.parts) as u64),
            file_count(self@, path@.parts) > u64::MAX ==> r is None,
        decreases b,
    {
        let (found, Ghost(p)) = self.find_pos(path);
        let id = match found {
            None => {
                return Some(0);
            },
            Some(id) => id,
        };
        let ghost m = arena_nodes(self.arena);
        let ghost n = node_at(self@, p);
        proof {
            lemma_pos_of_valid(self@, path@.parts);
            lemma_node_at_wf(m, self@, p);
        }
        if !arena_entry(&self.arena, id).is_dir() {
            return Some(1);
        }
        let children = arena_children(&self.arena, id);
        let mut total: u64 = 0;
        let mut i: usize = 0;
        while i < children.len()
            invariant
                self.wf(),
                m == arena_nodes(self.arena),
                pos_of(self@, path@.parts) == Some(p),
                valid_pos(self@, p),
                n == node_at(self@, p),
                n == b,
                wf_node(m, n),
                n.entry.spec_is_dir(),
                children@ == handles(n.children),
                i <= children.len(),
                total == fcount_upto(n, i as int),
            decreases children.len() - i,
        {
            proof {
                lemma_wf_nodes_index(m, n.children, i as int);
            }
            let child = arena_entry(&self.arena, children[i]);
            let sub_path = path.join(child.name());
            let ghost name = n.children[i as int].entry.spec_name();
            let ghost j = first_named(n.children, name);
            proof {
                lemma_first_named_exists(n.children, name, i as int);
                lemma_first_named(n.children, name);
                lemma_pos_of_push(self@, path@.parts, name);
                lemma_node_at_push(self@, p, j);
                lemma_fcount_upto_mono(n, i + 1, n.children.len() as int);
                assert(fcount_upto(n, i + 1) == fcount_upto(n, i as int) + fcount(n.children[j]));
            }
            match self.count_files_checked_rec(&sub_path, Ghost(n.children[j])) {
                None => {
                    return None;
                },
                Some(sub) => {
                    match total.checked_add(sub) {
                        None => {
                            return None;
                        },
                        Some(t2) => {
                            total = t2;
                        },
                    }
                },
            }
            i = i + 1;
        }
        Some(total)
    }

    /// `count_files`, or none where that count would not fit in a `u64`.
    pub fn count_files_checked(&self, path: &FsPath) -> (r: Option<u64>)
        requires
            self.wf(),
        ensures
            file_count(self@, path@.parts) <= u64::MAX ==> r == Some(file_count(self@, path@.parts) as u64),
            file_count(self@, path@.parts) > u64::MAX ==> r is None,
    {
        let ghost b = match lookup(self@, path@.parts) {
            Some(x) => x,
            None => self@,
        };
        self.count_files_checked_rec(path, Ghost(b))
    }

    /// The number of nodes in the tree, the root included.
    pub fn node_count(&self) -> (r: usize)
        requires
            self.wf(),
        ensures
            r == self.live_nodes(),
    {
        arena_live_count(&self.arena)
    }
}

/// A name that no child bears is first borne by none.
proof fn lemma_absent_name(n: FsNode, name: Seq<char>)
    requires
        !child_names(n).contains(name),
    ensures
        first_named(n.children, name) < 0,
{
    lemma_first_named(n.children, name);
    if first_named(n.children, name) >= 0 {
        let i = first_named(n.children, name);
        assert(child_names(n)[i] == name);
    }
}

/// Adding an entry whose name no child of the parent bears: the entry is
/// found under the parent, childless, and every node found before is still
/// found, with the same entry and the same children's names, the parent
/// with the new name after its own.
proof fn lemma_add_new_name(t: FsNode, parent: Seq<Seq<char>>, e: FsEntry, t2: FsNode)
    requires
        added(t, parent, e, t2),
        lookup(t, parent) is Some,
        !child_names(lookup(t, parent)->0).contains(e.spec_name()),
    ensures
        lookup(t2, parent.push(e.spec_name())) is Some,
        lookup(t2, parent.push(e.spec_name()))->0.entry == e,
        child_names(lookup(t2, parent.push(e.spec_name()))->0) == Seq::<Seq<char>>::empty(),
        forall|q: Seq<Seq<char>>|
            lookup(t, q) is Some ==> {
                &&& #[trigger] lookup(t2, q) is Some
                &&& lookup(t2, q)->0.entry == lookup(t, q)->0.entry
                &&& child_names(lookup(t2, q)->0) == if q == parent {
                    child_names(lookup(t, q)->0).push(e.spec_name())
                } else {
                    child_names(lookup(t, q)->0)
                }
            },
{
    lemma_absent_name(lookup(t, parent)->0, e.spec_name());
    lemma_added_findable(t, parent, e, t2);
    assert(child_names(lookup(t2, parent.push(e.spec_name()))->0) =~= Seq::<Seq<char>>::empty());
    assert forall|q: Seq<Seq<char>>| lookup(t, q) is Some implies {
        &&& #[trigger] lookup(t2, q) is Some
        &&& lookup(t2, q)->0.entry == lookup(t, q)->0.entry
        &&& child_names(lookup(t2, q)->0) == if q == parent {
            child_names(lookup(t, q)->0).push(e.spec_name())
        } else {
            child_names(lookup(t, q)->0)
        }
    } by {
        lemma_added_keeps(t, parent, e, t2, q);
    }
}

/// An entry with a name, kind, scanned flag and size, and no times.
pub open spec fn entry_fields(e: FsEntry, name: Seq<char>, is_dir: bool, scanned: bool, size: Option<u64>) -> bool {
    &&& e.spec_name() == name
    &&& e.spec_is_dir() == is_dir
    &&& e.spec_scanned() == scanned
    &&& e.spec_size() == size
    &&& e.spec_created() is None
    &&& e.spec_modified() is None
}

/// The node a path leads to holds such an entry, and its children bear
/// these names in this order.
pub open spec fn node_is(
    t: FsNode,
    path: Seq<Seq<char>>,
    is_dir: bool,
    scanned: bool,
    size: Option<u64>,
    children: Seq<Seq<char>>,
) -> bool {
    &&& lookup(t, path) is Some
    &&& entry_fields(lookup(t, path)->0.entry, path.last(), is_dir, scanned, size)
    &&& child_names(lookup(t, path)->0) == children
}

/// A small sample tree:
///
/// ```text
/// /home                (not scanned)
/// /home/user/
/// /home/user/cat.png   1 MiB
/// /home/user/notes.txt 1 KiB
/// /home/guest/
/// /home/guest/dog.png  1 MiB
/// /home/guest/empty/
/// ```
pub fn populated_tree() -> (r: FsTree)
    ensures
        r.wf(),
        child_names(r@) == seq!["home"@],
        node_is(r@, seq!["home"@], true, false, None, seq!["user"@, "guest"@]),
        node_is(r@, seq!["home"@, "user"@], true, true, None, seq!["cat.png"@, "notes.txt"@]),
        node_is(r@, seq!["home"@, "user"@, "cat.png"@], false, true, Some(1048576u64), Seq::empty()),
        node_is(r@, seq!["home"@, "user"@, "notes.txt"@], false, true, Some(1024u64), Seq::empty()),
        node_is(r@, seq!["home"@, "guest"@], true, true, None, seq!["dog.png"@, "empty"@]),
        node_is(r@, seq!["home"@, "guest"@, "dog.png"@], false, true, Some(1048576u64), Seq::empty()),
        node_is(r@, seq!["home"@, "guest"@, "empty"@], true, true, None, Seq::empty()),
{
    let mut tree = FsTree::new();
    let root = FsPath::new(true, Vec::new());
    let home = root.join(&String::from_str("home"));
    let user = home.join(&String::from_str("user"));
    let guest = home.join(&String::from_str("guest"));
    let ghost rp = root@.parts;
    let ghost hp = home@.parts;
    let ghost up = user@.parts;
    let ghost gp = guest@.parts;
    proof {
        reveal_strlit("user");
        reveal_strlit("guest");
        reveal_strlit("cat.png");
        reveal_strlit("notes.txt");
        reveal_strlit("dog.png");
        reveal_strlit("empty");
        assert(rp =~= Seq::<Seq<char>>::empty());
        assert(hp =~= seq!["home"@]);
        assert(up =~= seq!["home"@, "user"@]);
        assert(gp =~= seq!["home"@, "guest"@]);
        assert("user"@.len() != "guest"@.len());
        assert("cat.png"@.len() != "notes.txt"@.len());
        assert("dog.png"@.len() != "empty"@.len());
        assert(up != gp);
    }

    let ghost t0 = tree@;
    proof {
        assert(pos_of(t0, rp) == Some(Seq::<int>::empty()));
        assert(child_names(t0) =~= Seq::<Seq<char>>::empty());
    }
    let e = FsEntry::dir(String::from_str("home"), false, None, None);
    let ghost eh = e;
    tree.add_entry(e, &root);
    let ghost t1 = tree@;
    proof {
        lemma_add_new_name(t0, rp, eh, t1);
        assert(rp.push("home"@) =~= hp);
        assert(lookup(t1, rp) is Some);
    }

    let e = FsEntry::dir(String::from_str("user"), true, None, None);
    let ghost eu = e;
    tree.add_entry(e, &home);
    let ghost t2 = tree@;
    proof {
        lemma_add_new_name(t1, hp, eu, t2);
        assert(hp.push("user"@) =~= up);
        assert(lookup(t2, rp) is Some);
        assert(lookup(t2, hp) is Some);
        assert(child_names(lookup(t2, hp)->0) =~= seq!["user"@]);
    }

    let e = FsEntry::dir(String::from_str("guest"), true, None, None);
    let ghost eg = e;
    tree.add_entry(e, &home);
    let ghost t3 = tree@;
    proof {
        assert(!seq!["user"@].contains("guest"@)) by {
            assert(seq!["user"@][0] != "guest"@);
        }
        lemma_add_new_name(t2, hp, eg, t3);
        assert(hp.push("guest"@) =~= gp);
        assert(lookup(t3, rp) is Some);
        assert(lookup(t3, hp) is Some);
        assert(lookup(t3, up) is Some);
        assert(child_names(lookup(t3, hp)->0) =~= seq!["user"@, "guest"@]);
    }

    let e = FsEntry::file(String::from_str("cat.png"), Some(1024 * 1024), None, None);
    let ghost ec = e;
    tree.add_entry(e, &user);
    let ghost t4 = tree@;
    proof {
        lemma_add_new_name(t3, up, ec, t4);
        assert(lookup(t4, rp) is Some);
        assert(lookup(t4, hp) is Some);
        assert(lookup(t4, up) is Some);
        assert(lookup(t4, gp) is Some);
        assert(child_names(lookup(t4, up)->0) =~= seq!["cat.png"@]);
    }

    let e = FsEntry::file(String::from_str("notes.txt"), Some(1024), None, None);
    let ghost en = e;
    tree.add_entry(e, &user);
    let ghost t5 = tree@;
    proof {
        assert(!seq!["cat.png"@].contains("notes.txt"@)) by {
            assert(seq!["cat.png"@][0] != "notes.txt"@);
        }
        lemma_add_new_name(t4, up, en, t5);
        assert(lookup(t5, rp) is Some);
        assert(lookup(t5, hp) is Some);
        assert(lookup(t5, up) is Some);
        assert(lookup(t5, gp) is Some);
        assert(lookup(t5, up.push("cat.png"@)) is Some);
        assert(child_names(lookup(t5, up)->0) =~= seq!["cat.png"@, "notes.txt"@]);
    }

    let e = FsEntry::file(String::from_str("dog.png"), Some(1024 * 1024), None, None);
    let ghost ed = e;
    tree.add_entry(e, &guest);
    let ghost t6 = tree@;
    proof {
        lemma_add_new_name(t5, gp, ed, t6);
        assert(lookup(t6, rp) is Some);
        assert(lookup(t6, hp) is Some);
        assert(lookup(t6, up) is Some);
        assert(lookup(t6, gp) is Some);
        assert(lookup(t6, up.push("cat.png"@)) is Some);
        assert(lookup(t6, up.push("notes.txt"@)) is Some);
        assert(child_names(lookup(t6, gp)->0) =~= seq!["dog.png"@]);
    }

    let e = FsEntry::dir(String::from_str("empty"), true, None, None);
    let ghost ee = e;
    tree.add_entry(e, &guest);
    let ghost t7 = tree@;
    proof {
        assert(!seq!["dog.png"@].contains("empty"@)) by {
            assert(seq!["dog.png"@][0] != "empty"@);
        }
        lemma_add_new_name(t6, gp, ee, t7);
        assert(lookup(t7, rp) is Some);
        assert(lookup(t7, hp) is Some);
        assert(lookup(t7, up) is Some);
        assert(lookup(t7, gp) is Some);
        assert(lookup(t7, up.push("cat.png"@)) is Some);
        assert(lookup(t7, up.push("notes.txt"@)) is Some);
        assert(lookup(t7, gp.push("dog.png"@)) is Some);
        assert(child_names(lookup(t7, gp)->0) =~= seq!["dog.png"@, "empty"@]);
        assert(lookup(t7, rp) == Some(t7));
        assert(up.push("cat.png"@) =~= seq!["home"@, "user"@, "cat.png"@]);
        assert(up.push("notes.txt"@) =~= seq!["home"@, "user"@, "notes.txt"@]);
        assert(gp.push("dog.png"@) =~= seq!["home"@, "guest"@, "dog.png"@]);
        assert(gp.push("empty"@) =~= seq!["home"@, "guest"@, "empty"@]);
    }
    tree
}

} // verus!
