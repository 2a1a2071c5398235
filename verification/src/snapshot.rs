//! The snapshot builder: from a raw, enumeration-ordered capture of a
//! filesystem path to a canonical [`FileTree`].
//!
//! The caller walks the real filesystem and records what it saw as a
//! [`RawNode`]: children in whatever order the platform returned them, and
//! anything that is neither a plain file nor a directory as
//! [`RawNode::Other`]. [`build`] turns that capture into a well-formed
//! tree, or reports the first unclassifiable entry it reaches.

use vstd::prelude::*;

use crate::name_order::copy_name;
use crate::tree::{Entry, FileTree, entries_nodes, entries_sorted, has_name, insert_entry,
    lemma_entries_nodes_contains, lemma_entries_nodes_update, path_view, prefixed, tree_nodes,
    tree_wf};

verus! {

/// One directory entry as the filesystem enumerated it.
#[derive(Debug)]
pub struct RawEntry {
    pub name: Vec<u8>,
    pub node: RawNode,
}

/// What the caller found at one path: a plain file, a directory with its
/// children in enumeration order, or something that is neither (absent,
/// special, a dangling link).
#[derive(Debug)]
pub enum RawNode {
    File,
    Directory(Vec<RawEntry>),
    Other,
}

/// A capture holds no unclassifiable entry.
pub open spec fn raw_no_other(r: RawNode) -> bool
    decreases r,
{
    match r {
        RawNode::File => true,
        RawNode::Directory(res) => forall|i: int|
            0 <= i < res@.len() ==> raw_no_other((#[trigger] res@[i]).node),
        RawNode::Other => false,
    }
}

/// A faithful capture of a real directory: no unclassifiable entry, and no
/// two siblings with the same name, as a real enumeration guarantees.
pub open spec fn raw_clean(r: RawNode) -> bool
    decreases r,
{
    match r {
        RawNode::File => true,
        RawNode::Directory(res) => {
            &&& forall|i: int, j: int|
                0 <= i < j < res@.len() ==> (#[trigger] res@[i]).name@ != (
                #[trigger] res@[j]).name@
            &&& forall|i: int| 0 <= i < res@.len() ==> raw_clean((#[trigger] res@[i]).node)
        },
        RawNode::Other => false,
    }
}

/// The nodes a capture describes, as `(path, is-directory)` pairs relative
/// to the captured root; the root itself sits under the empty path.
pub open spec fn raw_nodes(r: RawNode) -> Set<(Seq<Seq<u8>>, bool)>
    decreases r,
{
    match r {
        RawNode::File => set![(Seq::<Seq<u8>>::empty(), false)],
        RawNode::Directory(res) => set![(Seq::<Seq<u8>>::empty(), true)].union(
            raw_entries_nodes(res@),
        ),
        RawNode::Other => Set::empty(),
    }
}

/// The nodes contributed by a raw directory's children.
pub open spec fn raw_entries_nodes(res: Seq<RawEntry>) -> Set<(Seq<Seq<u8>>, bool)>
    decreases res,
{
    if res.len() == 0 {
        Set::empty()
    } else {
        prefixed(res[0].name@, raw_nodes(res[0].node)).union(raw_entries_nodes(res.skip(1)))
    }
}

/// What it means for a node to come from a raw directory's children.
pub proof fn lemma_raw_entries_nodes_contains(res: Seq<RawEntry>, x: (Seq<Seq<u8>>, bool))
    ensures
        raw_entries_nodes(res).contains(x) <==> (x.0.len() >= 1 && exists|i: int|
            0 <= i < res.len() && (#[trigger] res[i]).name@ == x.0[0] && raw_nodes(
                res[i].node,
            ).contains((x.0.skip(1), x.1))),
    decreases res,
{
    if res.len() > 0 {
        lemma_raw_entries_nodes_contains(res.skip(1), x);
        if raw_entries_nodes(res).contains(x) {
            if !prefixed(res[0].name@, raw_nodes(res[0].node)).contains(x) {
                let i0 = choose|i: int|
                    0 <= i < res.skip(1).len() && (#[trigger] res.skip(1)[i]).name@ == x.0[0]
                        && raw_nodes(res.skip(1)[i].node).contains((x.0.skip(1), x.1));
                assert(res[i0 + 1] == res.skip(1)[i0]);
            }
        }
        if x.0.len() >= 1 && exists|i: int|
            0 <= i < res.len() && (#[trigger] res[i]).name@ == x.0[0] && raw_nodes(
                res[i].node,
            ).contains((x.0.skip(1), x.1)) {
            let i0 = choose|i: int|
                0 <= i < res.len() && (#[trigger] res[i]).name@ == x.0[0] && raw_nodes(
                    res[i].node,
                ).contains((x.0.skip(1), x.1));
            if i0 == 0 {
                assert(prefixed(res[0].name@, raw_nodes(res[0].node)).contains(x));
            } else {
                assert(res.skip(1)[i0 - 1] == res[i0]);
                assert(raw_entries_nodes(res.skip(1)).contains(x));
            }
        }
    }
}

/// Two captures record the same contents, child for child by name, and
/// differ at most in the order each directory was enumerated.
pub open spec fn raw_perm(a: RawNode, b: RawNode) -> bool
    decreases a,
{
    match (a, b) {
        (RawNode::File, RawNode::File) => true,
        (RawNode::Other, RawNode::Other) => true,
        (RawNode::Directory(ra), RawNode::Directory(rb)) => {
            &&& ra@.len() == rb@.len()
            &&& forall|i: int|
                0 <= i < ra@.len() ==> exists|j: int|
                    0 <= j < rb@.len() && (#[trigger] rb@[j]).name@ == (#[trigger] ra@[i]).name@
                        && raw_perm(ra@[i].node, rb@[j].node)
            &&& forall|j: int|
                0 <= j < rb@.len() ==> exists|i: int|
                    0 <= i < ra@.len() && (#[trigger] ra@[i]).name@ == (#[trigger] rb@[j]).name@
                        && raw_perm(ra@[i].node, rb@[j].node)
        },
        _ => false,
    }
}

/// Reordered captures of the same contents describe the same nodes.
#[verifier::rlimit(60)]
pub proof fn lemma_raw_perm_nodes(a: RawNode, b: RawNode)
    requires
        raw_perm(a, b),
    ensures
        raw_nodes(a) == raw_nodes(b),
    decreases a,
{
    match (a, b) {
        (RawNode::Directory(ra), RawNode::Directory(rb)) => {
            assert forall|x: (Seq<Seq<u8>>, bool)|
                raw_entries_nodes(ra@).contains(x) == raw_entries_nodes(rb@).contains(x) by {
                lemma_raw_entries_nodes_contains(ra@, x);
                lemma_raw_entries_nodes_contains(rb@, x);
                if raw_entries_nodes(ra@).contains(x) {
                    let i = choose|i: int|
                        0 <= i < ra@.len() && (#[trigger] ra@[i]).name@ == x.0[0] && raw_nodes(
                            ra@[i].node,
                        ).contains((x.0.skip(1), x.1));
                    let j = choose|j: int|
                        0 <= j < rb@.len() && (#[trigger] rb@[j]).name@ == ra@[i].name@
                            && raw_perm(ra@[i].node, rb@[j].node);
                    assert(decreases_to!(a => a->Directory_0));
                    assert(decreases_to!(a->Directory_0 => a->Directory_0[i]));
                    assert(decreases_to!(a->Directory_0[i] => a->Directory_0[i].node));
                    lemma_raw_perm_nodes(ra@[i].node, rb@[j].node);
                    assert(0 <= j < rb@.len() && rb@[j].name@ == x.0[0] && raw_nodes(
                        rb@[j].node,
                    ).contains((x.0.skip(1), x.1)));
                }
                if raw_entries_nodes(rb@).contains(x) {
                    let j = choose|j: int|
                        0 <= j < rb@.len() && (#[trigger] rb@[j]).name@ == x.0[0] && raw_nodes(
                            rb@[j].node,
                        ).contains((x.0.skip(1), x.1));
                    let i = choose|i: int|
                        0 <= i < ra@.len() && (#[trigger] ra@[i]).name@ == rb@[j].name@
                            && raw_perm(ra@[i].node, rb@[j].node);
                    assert(decreases_to!(a => a->Directory_0));
                    assert(decreases_to!(a->Directory_0 => a->Directory_0[i]));
                    assert(decreases_to!(a->Directory_0[i] => a->Directory_0[i].node));
                    lemma_raw_perm_nodes(ra@[i].node, rb@[j].node);
                    assert(0 <= i < ra@.len() && ra@[i].name@ == x.0[0] && raw_nodes(
                        ra@[i].node,
                    ).contains((x.0.skip(1), x.1)));
                }
            }
            let root = (Seq::<Seq<u8>>::empty(), true);
            assert(raw_nodes(a) =~= raw_nodes(b)) by {
                assert forall|x: (Seq<Seq<u8>>, bool)|
                    raw_nodes(a).contains(x) == raw_nodes(b).contains(x) by {
                    assert(raw_nodes(a).contains(x) == (set![root].contains(x)
                        || raw_entries_nodes(ra@).contains(x)));
                    assert(raw_nodes(b).contains(x) == (set![root].contains(x)
                        || raw_entries_nodes(rb@).contains(x)));
                }
            }
        },
        _ => {
        },
    }
}

/// Building twice from the same unchanged contents gives structurally
/// identical snapshots, however each build's enumeration was ordered.
pub proof fn lemma_build_order_independent(r1: RawNode, r2: RawNode, t1: FileTree, t2: FileTree)
    requires
        raw_clean(r1),
        raw_clean(r2),
        raw_perm(r1, r2),
        tree_wf(t1),
        tree_wf(t2),
        tree_nodes(t1) == raw_nodes(r1),
        tree_nodes(t2) == raw_nodes(r2),
    ensures
        crate::tree::same_tree(t1, t2),
{
    lemma_raw_perm_nodes(r1, r2);
    crate::tree::lemma_canonical_form(t1, t2);
}

/// There is an unclassifiable entry at `path` below `r`.
pub open spec fn raw_other_at(r: RawNode, path: Seq<Seq<u8>>) -> bool
    decreases path.len(),
{
    if path.len() == 0 {
        r is Other
    } else {
        r matches RawNode::Directory(res) && exists|i: int|
            0 <= i < res@.len() && (#[trigger] res@[i]).name@ == path[0] && raw_other_at(
                res@[i].node,
                path.skip(1),
            )
    }
}

/// A path supplied to the snapshot builder led to something that is
/// neither a plain file nor a directory; `path` names the offending entry
/// relative to the captured root (empty when the root itself is at fault).
#[derive(Debug)]
pub struct BuildError {
    pub path: Vec<Vec<u8>>,
}

/// Builds the canonical snapshot a capture describes.
///
/// The build succeeds exactly when the capture holds no unclassifiable
/// entry; the first such entry found is reported by its relative path, and
/// aborts the whole build. For a faithful capture of a real directory the
/// resulting tree describes exactly the captured paths and kinds — in
/// particular the result does not depend on the enumeration order.
#[verifier::loop_isolation(false)]
pub fn build(raw: &RawNode) -> (r: Result<FileTree, BuildError>)
    ensures
        r is Ok <==> raw_no_other(*raw),
        r matches Ok(t) ==> tree_wf(t),
        raw_clean(*raw) ==> (r matches Ok(t) ==> tree_nodes(t) == raw_nodes(*raw)),
        r matches Err(e) ==> raw_other_at(*raw, path_view(e.path@)),
    decreases *raw,
{
    match raw {
        RawNode::File => Ok(FileTree::File),
        RawNode::Other => {
            let e = BuildError { path: Vec::new() };
            proof {
                assert(path_view(e.path@) =~= Seq::<Seq<u8>>::empty());
            }
            Err(e)
        },
        RawNode::Directory(res) => {
            let n = res.len();
            let mut es: Vec<Entry> = Vec::new();
            let mut idx: usize = 0;
            while idx < n
                invariant
                    idx <= n,
                    entries_sorted(es@),
                    forall|k: int| 0 <= k < es@.len() ==> tree_wf((#[trigger] es@[k]).tree),
                    forall|j: int| 0 <= j < idx ==> raw_no_other((#[trigger] res@[j]).node),
                    forall|nm: Seq<u8>|
                        has_name(es@, nm) <==> exists|j: int|
                            0 <= j < idx && (#[trigger] res@[j]).name@ == nm,
                    raw_clean(*raw) ==> forall|x: (Seq<Seq<u8>>, bool)|
                        entries_nodes(es@).contains(x) <==> (x.0.len() >= 1 && exists|j: int|
                            0 <= j < idx && (#[trigger] res@[j]).name@ == x.0[0] && raw_nodes(
                                res@[j].node,
                            ).contains((x.0.skip(1), x.1))),
                decreases n - idx,
            {
                proof {
                    assert(decreases_to!(*raw => raw->Directory_0));
                    assert(decreases_to!(raw->Directory_0 => raw->Directory_0[idx as int]));
                    assert(decreases_to!(
                        raw->Directory_0[idx as int] => raw->Directory_0[idx as int].node));
                    assert(decreases_to!(*raw => res@[idx as int].node));
                }
                match build(&res[idx].node) {
                    Ok(child) => {
                        let ghost es0 = es@;
                        let ghost nm = res@[idx as int].name@;
                        let name = copy_name(&res[idx].name);
                        proof {
                            if raw_clean(*raw) {
                                assert(!has_name(es@, nm)) by {
                                    if has_name(es@, nm) {
                                        let j = choose|j: int|
                                            0 <= j < idx && (#[trigger] res@[j]).name@ == nm;
                                        assert(res@[j].name@ != res@[idx as int].name@);
                                    }
                                }
                            }
                        }
                        insert_entry(&mut es, name, child);
                        proof {
                            if raw_clean(*raw) {
                                lemma_entries_nodes_update(es0, es@, nm, child);
                                assert forall|x: (Seq<Seq<u8>>, bool)|
                                    entries_nodes(es@).contains(x) <==> (x.0.len() >= 1
                                        && exists|j: int|
                                        0 <= j < idx + 1 && (#[trigger] res@[j]).name@ == x.0[0]
                                            && raw_nodes(res@[j].node).contains(
                                            (x.0.skip(1), x.1),
                                        )) by {
                                    if entries_nodes(es@).contains(x) {
                                        if entries_nodes(es0).contains(x) {
                                            let j = choose|j: int|
                                                0 <= j < idx && (#[trigger] res@[j]).name@ == x.0[0]
                                                    && raw_nodes(res@[j].node).contains(
                                                    (x.0.skip(1), x.1),
                                                );
                                            assert(0 <= j < idx + 1 && res@[j].name@ == x.0[0]
                                                && raw_nodes(res@[j].node).contains(
                                                (x.0.skip(1), x.1),
                                            ));
                                        } else {
                                            assert(0 <= idx < idx + 1 && res@[
                                                idx as int].name@ == x.0[0] && raw_nodes(
                                                res@[idx as int].node,
                                            ).contains((x.0.skip(1), x.1)));
                                        }
                                    }
                                    if x.0.len() >= 1 && exists|j: int|
                                        0 <= j < idx + 1 && (#[trigger] res@[j]).name@ == x.0[0]
                                            && raw_nodes(res@[j].node).contains(
                                            (x.0.skip(1), x.1),
                                        ) {
                                        let j = choose|j: int|
                                            0 <= j < idx + 1 && (#[trigger] res@[j]).name@ == x.0[0]
                                                && raw_nodes(res@[j].node).contains(
                                                (x.0.skip(1), x.1),
                                            );
                                        if j < idx {
                                            assert(entries_nodes(es0).contains(x));
                                        } else {
                                            assert(tree_nodes(child).contains((x.0.skip(1), x.1)));
                                        }
                                    }
                                }
                            }
                        }
                    },
                    Err(err) => {
                        let mut p = err.path;
                        let ghost tail = p@;
                        p.insert(0, copy_name(&res[idx].name));
                        let e = BuildError { path: p };
                        proof {
                            let pv = path_view(e.path@);
                            assert(pv.len() == 1 + tail.len());
                            assert(pv[0] == res@[idx as int].name@);
                            assert(pv.skip(1) =~= path_view(tail)) by {
                                assert forall|k: int| 0 <= k < tail.len() implies pv.skip(1)[k]
                                    == path_view(tail)[k] by {
                                    assert(pv[k + 1] == e.path@[k + 1]@);
                                    assert(e.path@[k + 1] == tail[k]);
                                }
                            }
                            assert(raw_other_at(res@[idx as int].node, pv.skip(1)));
                            assert(raw_no_other(*raw) ==> raw_no_other(res@[idx as int].node));
                        }
                        return Err(e);
                    },
                }
                idx = idx + 1;
            }
            let ghost esv = es@;
            let t = FileTree::Directory(es);
            proof {
                if raw_clean(*raw) {
                    let root = (Seq::<Seq<u8>>::empty(), true);
                    assert(t->Directory_0@ == esv);
                    assert forall|x: (Seq<Seq<u8>>, bool)|
                        tree_nodes(t).contains(x) == raw_nodes(*raw).contains(x) by {
                        lemma_raw_entries_nodes_contains(res@, x);
                        assert(tree_nodes(t).contains(x) == (set![root].contains(x)
                            || entries_nodes(esv).contains(x)));
                        assert(raw_nodes(*raw).contains(x) == (set![root].contains(x)
                            || raw_entries_nodes(res@).contains(x)));
                        assert(entries_nodes(esv).contains(x) == raw_entries_nodes(res@).contains(
                            x,
                        ));
                    }
                    assert(tree_nodes(t) =~= raw_nodes(*raw));
                }
            }
            Ok(t)
        },
    }
}

} // verus!
