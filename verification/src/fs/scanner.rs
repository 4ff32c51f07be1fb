use crate::fs::entry::FsEntry;
use crate::fs::model::{
    computed, ensured, fresh_ok, in_tree, lookup, scanned_at, sizes_fit, FsNode,
};
use crate::fs::path::FsPath;
use crate::fs::tree::{
    added, lemma_added_keeps, lemma_computed_keeps, lemma_marked_scanned, lemma_wf_distinct, scanned_path,
    FsTree,
};
use vstd::prelude::*;

verus! {

/// One entry found while walking a directory: where it lies and what it is.
pub struct ScanRecord {
    pub parent: FsPath,
    pub entry: FsEntry,
}

/// The records as pairs of parent path and entry.
pub open spec fn records_view(recs: Seq<ScanRecord>) -> Seq<(Seq<Seq<char>>, FsEntry)> {
    recs.map_values(|r: ScanRecord| (r.parent@.parts, r.entry))
}

/// `ts` are the trees on the way from `ts[0]`, adding the records one after
/// the other.
pub open spec fn adding_steps(ts: Seq<FsNode>, recs: Seq<(Seq<Seq<char>>, FsEntry)>) -> bool {
    &&& ts.len() == recs.len() + 1
    &&& forall|i: int| 0 <= i < recs.len() ==> added(#[trigger] ts[i], recs[i].0, recs[i].1, ts[i + 1])
}

/// `t2` results from `t` by adding the records one after the other.
pub open spec fn added_all(t: FsNode, recs: Seq<(Seq<Seq<char>>, FsEntry)>, t2: FsNode) -> bool {
    exists|ts: Seq<FsNode>| #[trigger] adding_steps(ts, recs) && ts[0] == t && ts.last() == t2
}

/// A tree as `FsTree::new` makes it.
pub open spec fn is_new_tree(t: FsNode) -> bool {
    &&& t.children.len() == 0
    &&& t.entry.spec_name() == "ROOT"@
    &&& t.entry.spec_is_dir()
    &&& !t.entry.spec_scanned()
    &&& t.entry.spec_size() is None
    &&& t.entry.spec_created() is None
    &&& t.entry.spec_modified() is None
}

/// `t1` is a new tree in which the directories of `root` were made to exist
/// and the one `root` leads to was marked scanned.
pub open spec fn scan_base(root: Seq<Seq<char>>, t1: FsNode) -> bool {
    exists|t0: FsNode, fresh: Seq<FsNode>|
        {
            &&& is_new_tree(t0)
            &&& fresh_ok(t0, root, fresh)
            &&& forall|k: int| 0 <= k < fresh.len() ==> !in_tree(t0, (#[trigger] fresh[k]).handle)
            &&& forall|k: int, l: int|
                0 <= k < l < fresh.len() ==> (#[trigger] fresh[k]).handle != (#[trigger] fresh[l]).handle
            &&& t1 == scanned_at(
                #[trigger] ensured(t0, root, fresh),
                lookup(ensured(t0, root, fresh), root)->0.handle,
            )
        }
}

/// The tree a walk of `path` yields: `path` made to exist and marked scanned,
/// every record added in order, then the directory sizes computed. None
/// exactly where a sum of sizes would not fit in a `u64`.
pub fn scan_tree(path: &FsPath, records: &Vec<ScanRecord>) -> (r: Option<FsTree>)
    ensures
        exists|t1: FsNode, t2: FsNode|
            {
                &&& scan_base(path@.parts, t1)
                &&& #[trigger] added_all(t1, records_view(records@), t2)
                &&& !sizes_fit(t2) ==> r is None
                &&& sizes_fit(t2) ==> (r matches Some(tree) && tree.wf() && tree@ == computed(t2))
            },
        r matches Some(tree) ==> scanned_path(tree@, path@.parts),
{
    let mut tree = FsTree::new();
    let ghost t0 = tree@;
    let root_id = tree.ensure_dir(path);
    let ghost te = tree@;
    proof {
        lemma_wf_distinct(tree);
        lemma_marked_scanned(te, path@.parts);
    }
    tree.mark_scanned(root_id);
    let ghost t1 = tree@;
    proof {
        assert(scan_base(path@.parts, t1));
        assert(scanned_path(t1, path@.parts));
    }
    let ghost recs = records_view(records@);
    let mut i: usize = 0;
    proof {
        assert(recs.take(0) =~= Seq::<(Seq<Seq<char>>, FsEntry)>::empty());
    }
    let ghost mut ts = seq![t1];
    while i < records.len()
        invariant
            tree.wf(),
            recs == records_view(records@),
            i <= records.len(),
            adding_steps(ts, recs.take(i as int)),
            ts[0] == t1,
            ts.last() == tree@,
            scanned_path(tree@, path@.parts),
        decreases records.len() - i,
    {
        let ghost mid = tree@;
        let rec = &records[i];
        let e = rec.entry.duplicate();
        tree.add_entry(e, &rec.parent);
        proof {
            lemma_added_keeps(mid, rec.parent@.parts, rec.entry, tree@, path@.parts);
            assert(recs[i as int] == (rec.parent@.parts, rec.entry));
            assert(added(mid, recs[i as int].0, recs[i as int].1, tree@));
            let ts2 = ts.push(tree@);
            let tk = recs.take(i + 1);
            assert forall|k: int| 0 <= k < tk.len() implies added(#[trigger] ts2[k], tk[k].0, tk[k].1, ts2[k + 1]) by {
                if k < i {
                    assert(ts2[k] == ts[k] && ts2[k + 1] == ts[k + 1]);
                    assert(tk[k] == recs.take(i as int)[k]);
                }
            }
            ts = ts2;
        }
        i = i + 1;
    }
    proof {
        assert(recs.take(i as int) =~= recs);
        assert(added_all(t1, recs, tree@));
    }
    let ghost t2 = tree@;
    if tree.dir_sizes_fit() {
        tree.compute_dir_sizes();
        proof {
            lemma_computed_keeps(t2, path@.parts);
        }
        Some(tree)
    } else {
        None
    }
}

} // verus!
