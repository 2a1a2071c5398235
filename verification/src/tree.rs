//! The snapshot data model: a recursive layout of files and directories.

use vstd::prelude::*;

use crate::name_order::{lex_lt, name_cmp, lemma_lex_asymmetric, lemma_lex_transitive,
    NameOrdering};

verus! {

/// One child of a directory: an opaque byte name and the subtree under it.
#[derive(Debug)]
pub struct Entry {
    pub name: Vec<u8>,
    pub tree: FileTree,
}

/// An in-memory description of a filesystem layout: either a plain file
/// (contents are not captured) or a directory of uniquely named children.
#[derive(Debug)]
pub enum FileTree {
    File,
    Directory(Vec<Entry>),
}

/// The children of a well-formed directory are strictly ascending under the
/// byte-wise name order; in particular no two share a name.
pub open spec fn entries_sorted(es: Seq<Entry>) -> bool {
    forall|i: int, j: int| 0 <= i < j < es.len() ==> lex_lt(#[trigger] es[i].name@, #[trigger] es[j].name@)
}

/// A tree is well formed when every directory in it keeps its children
/// strictly sorted by name.
pub open spec fn tree_wf(t: FileTree) -> bool
    decreases t,
{
    match t {
        FileTree::File => true,
        FileTree::Directory(es) => entries_sorted(es@) && (forall|i: int|
            0 <= i < es@.len() ==> tree_wf(#[trigger] es@[i].tree)),
    }
}

/// Structural equality of two trees: the same shape, the same names in the
/// same positions, and equal subtrees.
pub open spec fn same_tree(a: FileTree, b: FileTree) -> bool
    decreases a,
{
    match (a, b) {
        (FileTree::File, FileTree::File) => true,
        (FileTree::Directory(ea), FileTree::Directory(eb)) => {
            &&& ea@.len() == eb@.len()
            &&& forall|i: int|
                0 <= i < ea@.len() ==> (#[trigger] ea@[i]).name@ == eb@[i].name@ && same_tree(
                    ea@[i].tree,
                    eb@[i].tree,
                )
        },
        _ => false,
    }
}

/// The names of a path, one byte sequence per component.
pub open spec fn path_view(p: Seq<Vec<u8>>) -> Seq<Seq<u8>> {
    p.map_values(|v: Vec<u8>| v@)
}

/// Whether some child of the entry list carries the given name.
pub open spec fn has_name(es: Seq<Entry>, n: Seq<u8>) -> bool {
    exists|i: int| 0 <= i < es.len() && (#[trigger] es[i]).name@ == n
}

impl FileTree {
    /// Decides structural equality of two trees.
    #[verifier::loop_isolation(false)]
    pub fn tree_eq(&self, other: &FileTree) -> (r: bool)
        ensures
            r == same_tree(*self, *other),
        decreases *self,
    {
        match self {
            FileTree::File => match other {
                FileTree::File => true,
                FileTree::Directory(_) => false,
            },
            FileTree::Directory(ea) => match other {
                FileTree::File => false,
                FileTree::Directory(eb) => {
                    if ea.len() != eb.len() {
                        return false;
                    }
                let n = ea.len();
                let mut i: usize = 0;
                while i < n
                    invariant
                        0 <= i <= n,
                        n == ea@.len() == eb@.len(),
                        forall|k: int|
                            0 <= k < i ==> (#[trigger] ea@[k]).name@ == eb@[k].name@ && same_tree(
                                ea@[k].tree,
                                eb@[k].tree,
                            ),
                    decreases n - i,
                {
                    proof {
                        assert(*self == FileTree::Directory(*ea));
                        assert(*other == FileTree::Directory(*eb));
                        let entries = self->Directory_0;
                        assert(decreases_to!(*self => entries));
                        assert(decreases_to!(entries => entries[i as int]));
                        assert(decreases_to!(entries[i as int] => entries[i as int].tree));
                        assert(decreases_to!(*self => ea@[i as int].tree));
                    }
                    let same_name = matches!(name_cmp(&ea[i].name, &eb[i].name), NameOrdering::Equal);
                    if !same_name {
                        proof {
                            assert(!(ea@[i as int].name@ == eb@[i as int].name@));
                        }
                        return false;
                    }
                    if !ea[i].tree.tree_eq(&eb[i].tree) {
                        proof {
                            assert(!same_tree(ea@[i as int].tree, eb@[i as int].tree));
                        }
                        return false;
                    }
                    i = i + 1;
                }
                true
                },
            },
        }
    }
}

/// Inserts a child into a sorted entry list, keeping the list sorted; an
/// existing child of the same name is replaced.
pub fn insert_entry(es: &mut Vec<Entry>, name: Vec<u8>, tree: FileTree)
    requires
        entries_sorted(old(es)@),
    ensures
        entries_sorted(final(es)@),
        forall|n: Seq<u8>| has_name(final(es)@, n) <==> has_name(old(es)@, n) || n == name@,
        forall|k: int|
            0 <= k < final(es)@.len() ==> old(es)@.contains(#[trigger] final(es)@[k]) || (
            final(es)@[k].name@ == name@ && final(es)@[k].tree == tree),
        has_name(old(es)@, name@) ==> final(es)@.len() == old(es)@.len(),
        !has_name(old(es)@, name@) ==> final(es)@.len() == old(es)@.len() + 1,
        forall|k: int|
            0 <= k < final(es)@.len() && final(es)@[k].name@ != name@ ==> old(es)@.contains(
                #[trigger] final(es)@[k]),
        exists|k: int|
            0 <= k < final(es)@.len() && (#[trigger] final(es)@[k]).name@ == name@
                && final(es)@[k].tree == tree,
        !has_name(old(es)@, name@) ==> forall|k: int|
            0 <= k < old(es)@.len() ==> final(es)@.contains(#[trigger] old(es)@[k]),
{
    let n = es.len();
    let mut i: usize = 0;
    let mut found_equal = false;
    loop
        invariant_except_break
            !found_equal,
        invariant
            0 <= i <= n,
            n == es@.len(),
            es@ == old(es)@,
            entries_sorted(es@),
            forall|k: int| 0 <= k < i ==> lex_lt((#[trigger] es@[k]).name@, name@),
        ensures
            0 <= i <= n,
            n == es@.len(),
            es@ == old(es)@,
            forall|k: int| 0 <= k < i ==> lex_lt((#[trigger] es@[k]).name@, name@),
            found_equal ==> i < n && es@[i as int].name@ == name@,
            !found_equal && i < n ==> lex_lt(name@, es@[i as int].name@),
        decreases n - i,
    {
        if i == n {
            break;
        }
        match name_cmp(&es[i].name, &name) {
            NameOrdering::Less => {
                i = i + 1;
            },
            NameOrdering::Equal => {
                found_equal = true;
                break;
            },
            NameOrdering::Greater => {
                break;
            },
        }
    }
    if found_equal {
        es.set(i, Entry { name, tree });
        proof {
            let es1 = es@;
            let es0 = old(es)@;
            let ii = i as int;
            assert(es1 =~= es0.update(ii, es1[ii]));
            assert forall|p: int, q: int| 0 <= p < q < es1.len() implies lex_lt(
                #[trigger] es1[p].name@,
                #[trigger] es1[q].name@,
            ) by {
                assert(es1[p].name@ == es0[p].name@);
                assert(es1[q].name@ == es0[q].name@);
            }
            assert forall|nm: Seq<u8>|
                has_name(es1, nm) implies has_name(es0, nm) || nm == es1[ii].name@ by {
                let w = choose|w: int| 0 <= w < es1.len() && (#[trigger] es1[w]).name@ == nm;
                if w != ii {
                    assert(es0[w].name@ == nm);
                }
            }
            assert forall|nm: Seq<u8>| has_name(es0, nm) implies has_name(es1, nm) by {
                let w = choose|w: int| 0 <= w < es0.len() && (#[trigger] es0[w]).name@ == nm;
                if w == ii {
                    assert(es1[ii].name@ == nm);
                } else {
                    assert(es1[w].name@ == nm);
                }
            }
            assert forall|k: int|
                0 <= k < es1.len() && es1[k].name@ != es1[ii].name@ implies es0.contains(
                #[trigger] es1[k]) by {
                assert(k != ii);
                assert(es1[k] == es0[k]);
            }
            assert(has_name(es0, es1[ii].name@)) by {
                assert(es0[ii].name@ == es1[ii].name@);
            }
            assert(es1[ii].name@ == name@ && es1[ii].tree == tree);
        }
        return;
    }
    // Every earlier name is strictly below the new one, and the entry at
    // `i`, if any, is strictly above it.
    es.insert(i, Entry { name, tree });
    proof {
        let es1 = es@;
        let es0 = old(es)@;
        let ii = i as int;
        assert(es1 =~= es0.insert(ii, es1[ii]));
        assert(forall|k: int| 0 <= k < ii ==> es1[k] == es0[k]);
        assert(forall|k: int| ii < k < es1.len() ==> es1[k] == es0[k - 1]);
        assert forall|p: int, q: int| 0 <= p < q < es1.len() implies lex_lt(
            #[trigger] es1[p].name@,
            #[trigger] es1[q].name@,
        ) by {
            if p < ii && q == ii {
                assert(lex_lt(es0[p].name@, es1[ii].name@));
            } else if p == ii && q > ii {
                assert(lex_lt(es1[ii].name@, es0[q - 1].name@)) by {
                    if ii < es0.len() {
                        if ii < q - 1 {
                            lemma_lex_transitive(es1[ii].name@, es0[ii].name@, es0[q - 1].name@);
                        }
                    }
                }
            } else if p < ii && q > ii {
                assert(lex_lt(es0[p].name@, es0[q - 1].name@)) by {
                    if p == q - 1 {
                        lemma_lex_transitive(es0[p].name@, es1[ii].name@, es0[q - 1].name@);
                    }
                }
            }
        }
        assert(!has_name(es0, es1[ii].name@)) by {
            if has_name(es0, es1[ii].name@) {
                let w = choose|w: int|
                    0 <= w < es0.len() && (#[trigger] es0[w]).name@ == es1[ii].name@;
                if w < ii {
                    lemma_lex_asymmetric(es0[w].name@, es1[ii].name@);
                } else {
                    assert(lex_lt(es1[ii].name@, es0[w].name@)) by {
                        assert(lex_lt(name@, es0[ii as int].name@));
                        if w > ii {
                            lemma_lex_transitive(es1[ii].name@, es0[ii as int].name@, es0[w].name@);
                        }
                    }
                    lemma_lex_asymmetric(es1[ii].name@, es0[w].name@);
                }
            }
        }
        assert forall|nm: Seq<u8>| has_name(es1, nm) implies has_name(es0, nm)
            || nm == es1[ii].name@ by {
            let w = choose|w: int| 0 <= w < es1.len() && (#[trigger] es1[w]).name@ == nm;
            if w < ii {
                assert(es0[w].name@ == nm);
            } else if w > ii {
                assert(es0[w - 1].name@ == nm);
            }
        }
        assert forall|nm: Seq<u8>| has_name(es0, nm) implies has_name(es1, nm) by {
            let w = choose|w: int| 0 <= w < es0.len() && (#[trigger] es0[w]).name@ == nm;
            if w < ii {
                assert(es1[w].name@ == nm);
            } else {
                assert(es1[w + 1].name@ == nm);
            }
        }
        assert forall|k: int|
            0 <= k < es1.len() && es1[k].name@ != es1[ii].name@ implies es0.contains(
            #[trigger] es1[k]) by {
            if k < ii {
                assert(es1[k] == es0[k]);
            } else {
                assert(es1[k] == es0[k - 1]);
            }
        }
        assert(es1[ii].name@ == name@ && es1[ii].tree == tree);
        assert forall|k: int| 0 <= k < es0.len() implies es1.contains(#[trigger] es0[k]) by {
            if k < ii {
                assert(es1[k] == es0[k]);
            } else {
                assert(es1[k + 1] == es0[k]);
            }
        }
    }
}

/// The nodes of `s`, each seen one directory deeper, under the child name
/// `n`: the set of `([n] + path, kind)` for `(path, kind)` in `s`.
pub open spec fn prefixed(n: Seq<u8>, s: Set<(Seq<Seq<u8>>, bool)>) -> Set<(Seq<Seq<u8>>, bool)> {
    Set::new(
        |x: (Seq<Seq<u8>>, bool)| x.0.len() >= 1 && x.0[0] == n && s.contains((x.0.skip(1), x.1)),
    )
}

/// The set of nodes a tree describes: every node's path relative to the
/// root, as the sequence of names leading to it, paired with whether that
/// node is a directory. The root itself appears under the empty path.
pub open spec fn tree_nodes(t: FileTree) -> Set<(Seq<Seq<u8>>, bool)>
    decreases t,
{
    match t {
        FileTree::File => set![(Seq::<Seq<u8>>::empty(), false)],
        FileTree::Directory(es) => set![(Seq::<Seq<u8>>::empty(), true)].union(
            entries_nodes(es@),
        ),
    }
}

/// The nodes contributed by a directory's children, each under its own
/// name.
pub open spec fn entries_nodes(es: Seq<Entry>) -> Set<(Seq<Seq<u8>>, bool)>
    decreases es,
{
    if es.len() == 0 {
        Set::empty()
    } else {
        prefixed(es[0].name@, tree_nodes(es[0].tree)).union(entries_nodes(es.skip(1)))
    }
}

/// Every tree holds its own root, under the empty path and with its own
/// kind; entries never add a node with an empty path.
pub proof fn lemma_tree_nodes_root(t: FileTree, b: bool)
    ensures
        tree_nodes(t).contains((Seq::<Seq<u8>>::empty(), b)) <==> b == (t is Directory),
{
    let e = Seq::<Seq<u8>>::empty();
    match t {
        FileTree::File => {
            assert(tree_nodes(t).contains((e, false)));
        },
        FileTree::Directory(es) => {
            assert(tree_nodes(t).contains((e, true)));
            if tree_nodes(t).contains((e, b)) && !b {
                lemma_entries_nodes_no_empty_path(es@, (e, b));
                assert((e, b) == (e, true));
            }
        },
    }
}

/// A node contributed by children always has a nonempty path.
pub proof fn lemma_entries_nodes_no_empty_path(es: Seq<Entry>, x: (Seq<Seq<u8>>, bool))
    requires
        entries_nodes(es).contains(x),
    ensures
        x.0.len() >= 1,
    decreases es,
{
    if es.len() > 0 {
        if !prefixed(es[0].name@, tree_nodes(es[0].tree)).contains(x) {
            lemma_entries_nodes_no_empty_path(es.skip(1), x);
        }
    }
}

/// What it means for a node to come from a directory's children: some
/// child owns the path's first name and describes the rest of the path.
pub proof fn lemma_entries_nodes_contains(es: Seq<Entry>, x: (Seq<Seq<u8>>, bool))
    ensures
        entries_nodes(es).contains(x) <==> (x.0.len() >= 1 && exists|i: int|
            0 <= i < es.len() && (#[trigger] es[i]).name@ == x.0[0] && tree_nodes(
                es[i].tree,
            ).contains((x.0.skip(1), x.1))),
    decreases es,
{
    if es.len() > 0 {
        lemma_entries_nodes_contains(es.skip(1), x);
        if entries_nodes(es).contains(x) {
            if prefixed(es[0].name@, tree_nodes(es[0].tree)).contains(x) {
                assert(es[0].name@ == x.0[0] && tree_nodes(es[0].tree).contains(
                    (x.0.skip(1), x.1),
                ));
            } else {
                let i0 = choose|i: int|
                    0 <= i < es.skip(1).len() && (#[trigger] es.skip(1)[i]).name@ == x.0[0]
                        && tree_nodes(es.skip(1)[i].tree).contains((x.0.skip(1), x.1));
                assert(es[i0 + 1] == es.skip(1)[i0]);
            }
        }
        if x.0.len() >= 1 && exists|i: int|
            0 <= i < es.len() && (#[trigger] es[i]).name@ == x.0[0] && tree_nodes(
                es[i].tree,
            ).contains((x.0.skip(1), x.1)) {
            let i0 = choose|i: int|
                0 <= i < es.len() && (#[trigger] es[i]).name@ == x.0[0] && tree_nodes(
                    es[i].tree,
                ).contains((x.0.skip(1), x.1));
            if i0 == 0 {
                assert(prefixed(es[0].name@, tree_nodes(es[0].tree)).contains(x));
            } else {
                assert(es.skip(1)[i0 - 1] == es[i0]);
                assert(entries_nodes(es.skip(1)).contains(x));
            }
        }
    }
}

/// Adding one child under a fresh name adds exactly that child's nodes,
/// each under the new name, whatever positions the other entries moved to.
pub proof fn lemma_entries_nodes_update(es0: Seq<Entry>, es1: Seq<Entry>, name: Seq<u8>, t: FileTree)
    requires
        !has_name(es0, name),
        forall|k: int|
            0 <= k < es1.len() ==> es0.contains(#[trigger] es1[k]) || (es1[k].name@ == name
                && es1[k].tree == t),
        forall|k: int| 0 <= k < es0.len() ==> es1.contains(#[trigger] es0[k]),
        exists|k: int|
            0 <= k < es1.len() && (#[trigger] es1[k]).name@ == name && es1[k].tree == t,
    ensures
        forall|x: (Seq<Seq<u8>>, bool)|
            entries_nodes(es1).contains(x) <==> (entries_nodes(es0).contains(x) || (x.0.len() >= 1
                && x.0[0] == name && tree_nodes(t).contains((x.0.skip(1), x.1)))),
{
    assert forall|x: (Seq<Seq<u8>>, bool)|
        entries_nodes(es1).contains(x) <==> (entries_nodes(es0).contains(x) || (x.0.len() >= 1
            && x.0[0] == name && tree_nodes(t).contains((x.0.skip(1), x.1)))) by {
        lemma_entries_nodes_contains(es0, x);
        lemma_entries_nodes_contains(es1, x);
        if entries_nodes(es1).contains(x) {
            let k = choose|k: int|
                0 <= k < es1.len() && (#[trigger] es1[k]).name@ == x.0[0] && tree_nodes(
                    es1[k].tree,
                ).contains((x.0.skip(1), x.1));
            if es0.contains(es1[k]) {
                let k0 = choose|k0: int| 0 <= k0 < es0.len() && #[trigger] es0[k0] == es1[k];
                assert(0 <= k0 < es0.len() && es0[k0].name@ == x.0[0] && tree_nodes(
                    es0[k0].tree,
                ).contains((x.0.skip(1), x.1)));
            }
        }
        if entries_nodes(es0).contains(x) {
            let k0 = choose|k0: int|
                0 <= k0 < es0.len() && (#[trigger] es0[k0]).name@ == x.0[0] && tree_nodes(
                    es0[k0].tree,
                ).contains((x.0.skip(1), x.1));
            assert(es1.contains(es0[k0]));
            let k = choose|k: int| 0 <= k < es1.len() && #[trigger] es1[k] == es0[k0];
            assert(0 <= k < es1.len() && es1[k].name@ == x.0[0] && tree_nodes(es1[k].tree).contains(
                (x.0.skip(1), x.1),
            ));
        }
        if x.0.len() >= 1 && x.0[0] == name && tree_nodes(t).contains((x.0.skip(1), x.1)) {
            let k = choose|k: int|
                0 <= k < es1.len() && (#[trigger] es1[k]).name@ == name && es1[k].tree == t;
            assert(0 <= k < es1.len() && es1[k].name@ == x.0[0] && tree_nodes(es1[k].tree).contains(
                (x.0.skip(1), x.1),
            ));
        }
    }
}

/// In a sorted entry list, a name determines its position.
pub proof fn lemma_sorted_unique_index(es: Seq<Entry>, i: int, j: int)
    requires
        entries_sorted(es),
        0 <= i < es.len(),
        0 <= j < es.len(),
        es[i].name@ == es[j].name@,
    ensures
        i == j,
{
    if i < j {
        lemma_lex_asymmetric(es[i].name@, es[j].name@);
    }
    if j < i {
        lemma_lex_asymmetric(es[j].name@, es[i].name@);
    }
}

/// Two sorted entry lists that carry the same names carry them at the same
/// positions.
pub proof fn lemma_sorted_same_names(a: Seq<Entry>, b: Seq<Entry>)
    requires
        entries_sorted(a),
        entries_sorted(b),
        forall|n: Seq<u8>| has_name(a, n) <==> has_name(b, n),
    ensures
        a.len() == b.len(),
        forall|i: int| 0 <= i < a.len() ==> (#[trigger] a[i]).name@ == b[i].name@,
    decreases a.len(),
{
    if a.len() == 0 {
        if b.len() > 0 {
            assert(has_name(b, b[0].name@));
            assert(false);
        }
    } else if b.len() == 0 {
        assert(has_name(a, a[0].name@));
        assert(false);
    } else {
        // The heads carry the least name on each side, and the name sets
        // agree, so the heads' names agree.
        assert(has_name(b, a[0].name@)) by {
            assert(has_name(a, a[0].name@));
        }
        assert(has_name(a, b[0].name@)) by {
            assert(has_name(b, b[0].name@));
        }
        let j = choose|j: int| 0 <= j < b.len() && (#[trigger] b[j]).name@ == a[0].name@;
        let i = choose|i: int| 0 <= i < a.len() && (#[trigger] a[i]).name@ == b[0].name@;
        if a[0].name@ != b[0].name@ {
            assert(j >= 1 && i >= 1);
            assert(lex_lt(b[0].name@, b[j].name@));
            assert(lex_lt(a[0].name@, a[i].name@));
            lemma_lex_asymmetric(a[0].name@, a[i].name@);
            assert(false);
        }
        assert forall|n: Seq<u8>| has_name(a.skip(1), n) <==> has_name(b.skip(1), n) by {
            lemma_head_name_absent_from_tail(a, n);
            lemma_head_name_absent_from_tail(b, n);
        }
        lemma_sorted_same_names(a.skip(1), b.skip(1));
        assert forall|k: int| 0 <= k < a.len() implies (#[trigger] a[k]).name@ == b[k].name@ by {
            if k >= 1 {
                assert(a.skip(1)[k - 1] == a[k]);
                assert(b.skip(1)[k - 1] == b[k]);
            }
        }
    }
}

/// A name occurs in the tail of a sorted entry list exactly when it occurs
/// in the whole list and is not the head's name.
proof fn lemma_head_name_absent_from_tail(a: Seq<Entry>, n: Seq<u8>)
    requires
        entries_sorted(a),
        a.len() >= 1,
    ensures
        has_name(a.skip(1), n) <==> (has_name(a, n) && n != a[0].name@),
{
    if has_name(a.skip(1), n) {
        let w = choose|w: int| 0 <= w < a.skip(1).len() && (#[trigger] a.skip(1)[w]).name@ == n;
        assert(a.skip(1)[w] == a[w + 1]);
        assert(has_name(a, n));
        assert(lex_lt(a[0].name@, a[w + 1].name@));
        lemma_lex_asymmetric(a[0].name@, a[w + 1].name@);
    }
    if has_name(a, n) && n != a[0].name@ {
        let w = choose|w: int| 0 <= w < a.len() && (#[trigger] a[w]).name@ == n;
        assert(w >= 1);
        assert(a.skip(1)[w - 1] == a[w]);
        assert(has_name(a.skip(1), n));
    }
}

/// Well-formed trees are canonical: two of them that describe the same set
/// of nodes are structurally identical. In particular a snapshot is fully
/// determined by the paths and kinds it describes, never by the order in
/// which a directory was enumerated.
pub proof fn lemma_canonical_form(a: FileTree, b: FileTree)
    requires
        tree_wf(a),
        tree_wf(b),
        tree_nodes(a) == tree_nodes(b),
    ensures
        same_tree(a, b),
    decreases a,
{
    let e = Seq::<Seq<u8>>::empty();
    lemma_tree_nodes_root(a, a is Directory);
    lemma_tree_nodes_root(b, a is Directory);
    match a {
        FileTree::File => {
            assert(b is File);
        },
        FileTree::Directory(ea) => {
            assert(b is Directory);
            let eb = b->Directory_0;
            assert forall|n: Seq<u8>| has_name(ea@, n) <==> has_name(eb@, n) by {
                if has_name(ea@, n) {
                    let w = choose|w: int| 0 <= w < ea@.len() && (#[trigger] ea@[w]).name@ == n;
                    lemma_child_root_in_nodes(ea@, w);
                    let k = ea@[w].tree is Directory;
                    assert(tree_nodes(b).contains((seq![n], k)));
                    lemma_entries_nodes_contains(eb@, (seq![n], k));
                    let j = choose|j: int|
                        0 <= j < eb@.len() && (#[trigger] eb@[j]).name@ == (seq![n])[0]
                            && tree_nodes(eb@[j].tree).contains(((seq![n]).skip(1), k));
                    assert(eb@[j].name@ == n);
                    assert(has_name(eb@, n));
                }
                if has_name(eb@, n) {
                    let w = choose|w: int| 0 <= w < eb@.len() && (#[trigger] eb@[w]).name@ == n;
                    lemma_child_root_in_nodes(eb@, w);
                    let k = eb@[w].tree is Directory;
                    assert(tree_nodes(a).contains((seq![n], k)));
                    lemma_entries_nodes_contains(ea@, (seq![n], k));
                    let j = choose|j: int|
                        0 <= j < ea@.len() && (#[trigger] ea@[j]).name@ == (seq![n])[0]
                            && tree_nodes(ea@[j].tree).contains(((seq![n]).skip(1), k));
                    assert(ea@[j].name@ == n);
                    assert(has_name(ea@, n));
                }
            }
            lemma_sorted_same_names(ea@, eb@);
            assert forall|i: int| 0 <= i < ea@.len() implies (#[trigger] ea@[i]).name@
                == eb@[i].name@ && same_tree(ea@[i].tree, eb@[i].tree) by {
                let n = ea@[i].name@;
                assert(tree_nodes(ea@[i].tree) =~= tree_nodes(eb@[i].tree)) by {
                    assert forall|y: (Seq<Seq<u8>>, bool)|
                        tree_nodes(ea@[i].tree).contains(y)
                            == tree_nodes(eb@[i].tree).contains(y) by {
                        lemma_child_nodes_lift(ea@, i, y);
                        lemma_child_nodes_lift(eb@, i, y);
                        let x = ((seq![n] + y.0), y.1);
                        assert(eb@[i].name@ == n);
                        assert(x.0.len() >= 1);
                        let root = (Seq::<Seq<u8>>::empty(), true);
                        assert(tree_nodes(a).contains(x) ==> entries_nodes(ea@).contains(x)) by {
                            if tree_nodes(a).contains(x) && x == root {
                                assert(x.0.len() == 0);
                            }
                        }
                        assert(tree_nodes(b).contains(x) ==> entries_nodes(eb@).contains(x)) by {
                            if tree_nodes(b).contains(x) && x == root {
                                assert(x.0.len() == 0);
                            }
                        }
                        assert(entries_nodes(ea@).contains(x) == entries_nodes(eb@).contains(x));
                    }
                }
                let eav = a->Directory_0;
                assert(decreases_to!(a => eav));
                assert(decreases_to!(eav => eav[i]));
                assert(decreases_to!(eav[i] => eav[i].tree));
                assert(decreases_to!(a => ea@[i].tree));
                lemma_canonical_form(ea@[i].tree, eb@[i].tree);
            }
            assert(same_tree(a, b));
        },
    }
}

/// A child puts `([its name], the kind of its root)` among the
/// directory's nodes.
proof fn lemma_child_root_in_nodes(es: Seq<Entry>, i: int)
    requires
        0 <= i < es.len(),
    ensures
        entries_nodes(es).contains((seq![es[i].name@], es[i].tree is Directory)),
{
    let n = es[i].name@;
    let k = es[i].tree is Directory;
    lemma_tree_nodes_root(es[i].tree, k);
    assert(seq![n].skip(1) =~= Seq::<Seq<u8>>::empty());
    lemma_entries_nodes_contains(es, (seq![n], k));
    assert((seq![n])[0] == n);
}

/// For a sorted entry list, membership of a node under child `i`'s name is
/// exactly membership of the remainder in that child's own nodes.
proof fn lemma_child_nodes_lift(es: Seq<Entry>, i: int, y: (Seq<Seq<u8>>, bool))
    requires
        entries_sorted(es),
        0 <= i < es.len(),
    ensures
        entries_nodes(es).contains(((seq![es[i].name@] + y.0), y.1)) == tree_nodes(
            es[i].tree,
        ).contains(y),
{
    let n = es[i].name@;
    let x = ((seq![n] + y.0), y.1);
    assert(x.0[0] == n);
    assert(x.0.skip(1) =~= y.0);
    lemma_entries_nodes_contains(es, x);
    if entries_nodes(es).contains(x) {
        let j = choose|j: int|
            0 <= j < es.len() && (#[trigger] es[j]).name@ == x.0[0] && tree_nodes(
                es[j].tree,
            ).contains((x.0.skip(1), x.1));
        lemma_sorted_unique_index(es, i, j);
    }
    if tree_nodes(es[i].tree).contains(y) {
        assert(0 <= i < es.len() && es[i].name@ == x.0[0] && tree_nodes(es[i].tree).contains(
            (x.0.skip(1), x.1),
        ));
    }
}

} // verus!
