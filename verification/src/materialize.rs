//! The materializer: from a tree to the ordered creation steps that
//! recreate its layout as empty files and directories.
//!
//! [`plan`] lists one creation step per node of the tree, parents before
//! children and children in canonical name order. The caller walks the
//! steps in order, asks the filesystem whether each destination exists,
//! and lets [`materialize_step`] decide: an existing destination is an
//! error — nothing is ever overwritten — and otherwise the step says what
//! to create. A failure partway leaves the steps already taken in place;
//! nothing is rolled back.

use vstd::prelude::*;

use crate::name_order::{copy_name, lemma_lex_asymmetric};
use crate::tree::{Entry, FileTree, entries_nodes, entries_sorted, path_view, prefixed, tree_nodes,
    tree_wf};

verus! {

/// One creation step: the destination, as path components relative to the
/// materialization root, and whether to create a directory there.
#[derive(Debug)]
pub struct CreateOp {
    pub path: Vec<Vec<u8>>,
    pub is_dir: bool,
}

/// The node a creation step stands for.
pub open spec fn op_node(op: CreateOp) -> (Seq<Seq<u8>>, bool) {
    (path_view(op.path@), op.is_dir)
}

/// The nodes a list of creation steps stands for, in order.
pub open spec fn op_models(ops: Seq<CreateOp>) -> Seq<(Seq<Seq<u8>>, bool)> {
    ops.map_values(|op: CreateOp| op_node(op))
}

/// The creation steps for a tree placed under path `p`: the node itself
/// first, then every child's steps in order.
pub open spec fn plan_seq(t: FileTree, p: Seq<Seq<u8>>) -> Seq<(Seq<Seq<u8>>, bool)>
    decreases t, 0int,
{
    match t {
        FileTree::File => seq![(p, false)],
        FileTree::Directory(es) => seq![(p, true)] + plan_seq_entries(es@, 0, p),
    }
}

/// The creation steps for the children of a directory at `p`, from child
/// `from` on.
pub open spec fn plan_seq_entries(es: Seq<Entry>, from: int, p: Seq<Seq<u8>>) -> Seq<
    (Seq<Seq<u8>>, bool),
>
    decreases es, es.len() - from,
{
    if from < 0 || from >= es.len() {
        Seq::empty()
    } else {
        plan_seq(es[from].tree, p.push(es[from].name@)) + plan_seq_entries(es, from + 1, p)
    }
}

/// The nodes of `s`, each placed below the path `p`.
pub open spec fn with_prefix(p: Seq<Seq<u8>>, s: Set<(Seq<Seq<u8>>, bool)>) -> Set<
    (Seq<Seq<u8>>, bool),
> {
    Set::new(
        |x: (Seq<Seq<u8>>, bool)| x.0.len() >= p.len() && x.0.take(p.len() as int) == p
            && s.contains((x.0.skip(p.len() as int), x.1)),
    )
}

/// Concatenation holds an item exactly when one of its parts does.
proof fn lemma_concat_contains(
    a: Seq<(Seq<Seq<u8>>, bool)>,
    b: Seq<(Seq<Seq<u8>>, bool)>,
    x: (Seq<Seq<u8>>, bool),
)
    ensures
        (a + b).contains(x) <==> (a.contains(x) || b.contains(x)),
{
    if (a + b).contains(x) {
        let i = choose|i: int| 0 <= i < (a + b).len() && (a + b)[i] == x;
        if i < a.len() {
            assert(a[i] == x);
        } else {
            assert(b[i - a.len()] == x);
        }
    }
    if a.contains(x) {
        let i = choose|i: int| 0 <= i < a.len() && a[i] == x;
        assert((a + b)[i] == x);
    }
    if b.contains(x) {
        let i = choose|i: int| 0 <= i < b.len() && b[i] == x;
        assert((a + b)[i + a.len()] == x);
    }
}

/// Prefixing a set with `p.push(n)` is prefixing with `p` after placing it
/// under the child name `n`.
proof fn lemma_with_prefix_push(
    p: Seq<Seq<u8>>,
    n: Seq<u8>,
    s: Set<(Seq<Seq<u8>>, bool)>,
    x: (Seq<Seq<u8>>, bool),
)
    ensures
        with_prefix(p.push(n), s).contains(x) <==> with_prefix(p, prefixed(n, s)).contains(x),
{
    let ln = p.len() as int;
    if with_prefix(p.push(n), s).contains(x) {
        assert(x.0.take(ln) =~= p) by {
            assert forall|k: int| 0 <= k < ln implies x.0.take(ln)[k] == p[k] by {
                assert(x.0.take(ln + 1)[k] == p.push(n)[k]);
            }
        }
        assert(x.0[ln] == x.0.take(ln + 1)[ln]);
        assert(x.0[ln] == n);
        assert(x.0.skip(ln)[0] == x.0[ln]);
        assert(x.0.skip(ln).skip(1) =~= x.0.skip(ln + 1));
        assert(prefixed(n, s).contains((x.0.skip(ln), x.1)));
    }
    if with_prefix(p, prefixed(n, s)).contains(x) {
        assert(x.0.skip(ln).len() >= 1);
        assert(x.0.len() >= ln + 1);
        assert(x.0.skip(ln)[0] == x.0[ln]);
        assert(x.0.take(ln + 1) =~= p.push(n)) by {
            assert forall|k: int| 0 <= k < ln + 1 implies x.0.take(ln + 1)[k] == p.push(n)[k] by {
                if k < ln {
                    assert(x.0.take(ln)[k] == p[k]);
                }
            }
        }
        assert(x.0.skip(ln).skip(1) =~= x.0.skip(ln + 1));
        assert(s.contains((x.0.skip(ln + 1), x.1)));
    }
}

/// Prefixing with the empty path changes nothing.
proof fn lemma_with_prefix_empty(s: Set<(Seq<Seq<u8>>, bool)>, x: (Seq<Seq<u8>>, bool))
    ensures
        with_prefix(Seq::<Seq<u8>>::empty(), s).contains(x) <==> s.contains(x),
{
    assert(x.0.take(0) =~= Seq::<Seq<u8>>::empty());
    assert(x.0.skip(0) =~= x.0);
}

/// The creation steps for a tree below `p` stand for exactly the tree's
/// nodes, each placed below `p`.
pub proof fn lemma_plan_seq_covers(t: FileTree, p: Seq<Seq<u8>>, x: (Seq<Seq<u8>>, bool))
    ensures
        plan_seq(t, p).contains(x) <==> with_prefix(p, tree_nodes(t)).contains(x),
    decreases t, 0int,
{
    match t {
        FileTree::File => {
            if plan_seq(t, p).contains(x) {
                let i = choose|i: int| 0 <= i < plan_seq(t, p).len() && plan_seq(t, p)[i] == x;
                assert(x == (p, false));
                assert(x.0.take(p.len() as int) =~= p);
                assert(x.0.skip(p.len() as int) =~= Seq::<Seq<u8>>::empty());
                assert(tree_nodes(t).contains((x.0.skip(p.len() as int), x.1)));
            }
            if with_prefix(p, tree_nodes(t)).contains(x) {
                assert((x.0.skip(p.len() as int), x.1) == (Seq::<Seq<u8>>::empty(), false));
                assert(x.0.skip(p.len() as int).len() == 0);
                assert(x.0 =~= p) by {
                    assert forall|k: int| 0 <= k < x.0.len() implies x.0[k] == p[k] by {
                        assert(x.0.take(p.len() as int)[k] == p[k]);
                    }
                }
                assert(x.1 == false);
                assert(plan_seq(t, p)[0] == x);
            }
        },
        FileTree::Directory(es) => {
            let root = (Seq::<Seq<u8>>::empty(), true);
            lemma_concat_contains(seq![(p, true)], plan_seq_entries(es@, 0, p), x);
            lemma_plan_seq_entries_covers(es@, 0, p, x);
            assert(seq![(p, true)].contains(x) <==> x == (p, true)) by {
                if seq![(p, true)].contains(x) {
                    let i = choose|i: int|
                        0 <= i < seq![(p, true)].len() && seq![(p, true)][i] == x;
                }
                if x == (p, true) {
                    assert(seq![(p, true)][0] == x);
                }
            }
            assert((x == (p, true)) <==> (with_prefix(p, set![root]).contains(x))) by {
                if x == (p, true) {
                    assert(x.0.take(p.len() as int) =~= p);
                    assert(x.0.skip(p.len() as int) =~= Seq::<Seq<u8>>::empty());
                }
                if with_prefix(p, set![root]).contains(x) {
                    assert((x.0.skip(p.len() as int), x.1) == root);
                    assert(x.0.skip(p.len() as int).len() == 0);
                    assert(x.0 =~= p) by {
                        assert forall|k: int| 0 <= k < x.0.len() implies x.0[k] == p[k] by {
                            assert(x.0.take(p.len() as int)[k] == p[k]);
                        }
                    }
                }
            }
            assert((exists|j: int|
                0 <= j < es@.len() && with_prefix(
                    p.push((#[trigger] es@[j]).name@),
                    tree_nodes(es@[j].tree),
                ).contains(x)) <==> with_prefix(p, entries_nodes(es@)).contains(x)) by {
                if exists|j: int|
                    0 <= j < es@.len() && with_prefix(
                        p.push((#[trigger] es@[j]).name@),
                        tree_nodes(es@[j].tree),
                    ).contains(x) {
                    let j = choose|j: int|
                        0 <= j < es@.len() && with_prefix(
                            p.push((#[trigger] es@[j]).name@),
                            tree_nodes(es@[j].tree),
                        ).contains(x);
                    lemma_with_prefix_push(p, es@[j].name@, tree_nodes(es@[j].tree), x);
                    let y = (x.0.skip(p.len() as int), x.1);
                    crate::tree::lemma_entries_nodes_contains(es@, y);
                    assert(prefixed(es@[j].name@, tree_nodes(es@[j].tree)).contains(y));
                    assert(y.0[0] == es@[j].name@ && tree_nodes(es@[j].tree).contains(
                        (y.0.skip(1), y.1),
                    ));
                    assert(entries_nodes(es@).contains(y));
                }
                if with_prefix(p, entries_nodes(es@)).contains(x) {
                    let y = (x.0.skip(p.len() as int), x.1);
                    crate::tree::lemma_entries_nodes_contains(es@, y);
                    let j = choose|j: int|
                        0 <= j < es@.len() && (#[trigger] es@[j]).name@ == y.0[0] && tree_nodes(
                            es@[j].tree,
                        ).contains((y.0.skip(1), y.1));
                    assert(prefixed(es@[j].name@, tree_nodes(es@[j].tree)).contains(y));
                    lemma_with_prefix_push(p, es@[j].name@, tree_nodes(es@[j].tree), x);
                    assert(with_prefix(p.push(es@[j].name@), tree_nodes(es@[j].tree)).contains(x));
                }
            }
            assert(with_prefix(p, tree_nodes(t)).contains(x) <==> (with_prefix(
                p,
                set![root],
            ).contains(x) || with_prefix(p, entries_nodes(es@)).contains(x)));
        },
    }
}

/// The creation steps for the children of a directory, from child `from`
/// on, stand for exactly those children's nodes, each below its own name.
proof fn lemma_plan_seq_entries_covers(
    es: Seq<Entry>,
    from: int,
    p: Seq<Seq<u8>>,
    x: (Seq<Seq<u8>>, bool),
)
    requires
        0 <= from <= es.len(),
    ensures
        plan_seq_entries(es, from, p).contains(x) <==> (exists|j: int|
            from <= j < es.len() && with_prefix(
                p.push((#[trigger] es[j]).name@),
                tree_nodes(es[j].tree),
            ).contains(x)),
    decreases es, es.len() - from,
{
    if from < es.len() {
        lemma_concat_contains(
            plan_seq(es[from].tree, p.push(es[from].name@)),
            plan_seq_entries(es, from + 1, p),
            x,
        );
        assert(decreases_to!(es => es[from]));
        assert(decreases_to!(es[from] => es[from].tree));
        lemma_plan_seq_covers(es[from].tree, p.push(es[from].name@), x);
        lemma_plan_seq_entries_covers(es, from + 1, p, x);
        if plan_seq_entries(es, from, p).contains(x) {
            if plan_seq(es[from].tree, p.push(es[from].name@)).contains(x) {
                assert(from <= from < es.len() && with_prefix(
                    p.push(es[from].name@),
                    tree_nodes(es[from].tree),
                ).contains(x));
            } else {
                let j = choose|j: int|
                    from + 1 <= j < es.len() && with_prefix(
                        p.push((#[trigger] es[j]).name@),
                        tree_nodes(es[j].tree),
                    ).contains(x);
                assert(from <= j < es.len() && with_prefix(
                    p.push((#[trigger] es[j]).name@),
                    tree_nodes(es[j].tree),
                ).contains(x));
            }
        }
        if exists|j: int|
            from <= j < es.len() && with_prefix(
                p.push((#[trigger] es[j]).name@),
                tree_nodes(es[j].tree),
            ).contains(x) {
            let j = choose|j: int|
                from <= j < es.len() && with_prefix(
                    p.push((#[trigger] es[j]).name@),
                    tree_nodes(es[j].tree),
                ).contains(x);
            if j == from {
                assert(plan_seq(es[from].tree, p.push(es[from].name@)).contains(x));
            } else {
                assert(from + 1 <= j < es.len() && with_prefix(
                    p.push((#[trigger] es[j]).name@),
                    tree_nodes(es[j].tree),
                ).contains(x));
            }
        }
    }
}

/// Every step after the first is preceded by the step that creates its
/// parent directory.
pub open spec fn parents_first(items: Seq<(Seq<Seq<u8>>, bool)>) -> bool {
    forall|i: int|
        0 < i < items.len() ==> exists|j: int|
            0 <= j < i && (#[trigger] items[j]) == ((#[trigger] items[i]).0.drop_last(), true)
}

/// A plan creates the node at `p` first and, after it, never a node
/// before its parent directory.
pub proof fn lemma_plan_seq_parents_first(t: FileTree, p: Seq<Seq<u8>>)
    ensures
        plan_seq(t, p).len() >= 1,
        plan_seq(t, p)[0] == (p, t is Directory),
        forall|i: int|
            0 < i < plan_seq(t, p).len() ==> (#[trigger] plan_seq(t, p)[i]).0.len() > p.len(),
        parents_first(plan_seq(t, p)),
    decreases t, 0int,
{
    match t {
        FileTree::File => {
        },
        FileTree::Directory(es) => {
            let items = plan_seq(t, p);
            let head = seq![(p, true)];
            let rest = plan_seq_entries(es@, 0, p);
            lemma_plan_seq_entries_parents_first(es@, 0, p);
            assert(items[0] == (p, true));
            assert forall|i: int| 0 < i < items.len() implies (#[trigger] items[i]).0.len()
                > p.len() && exists|j: int|
                0 <= j < i && (#[trigger] items[j]) == (items[i].0.drop_last(), true) by {
                assert(items[i] == rest[i - 1]);
                if rest[i - 1].0.drop_last() == p {
                    assert(items[0] == (items[i].0.drop_last(), true));
                } else {
                    let j0 = choose|j0: int|
                        0 <= j0 < i - 1 && (#[trigger] rest[j0]) == (
                        rest[i - 1].0.drop_last(),
                        true,
                        );
                    assert(items[j0 + 1] == (items[i].0.drop_last(), true));
                }
            }
        },
    }
}

/// Each child step either sits directly below `p` — its parent is the
/// directory the caller creates before the children — or is preceded,
/// within the child steps themselves, by the step for its parent.
proof fn lemma_plan_seq_entries_parents_first(es: Seq<Entry>, from: int, p: Seq<Seq<u8>>)
    requires
        0 <= from <= es.len(),
    ensures
        forall|i: int|
            0 <= i < plan_seq_entries(es, from, p).len() ==> (#[trigger] plan_seq_entries(
                es,
                from,
                p,
            )[i]).0.len() > p.len() && (plan_seq_entries(es, from, p)[i].0.drop_last() == p
                || exists|j: int|
                0 <= j < i && (#[trigger] plan_seq_entries(es, from, p)[j]) == (
                plan_seq_entries(es, from, p)[i].0.drop_last(),
                true,
                )),
    decreases es, es.len() - from,
{
    if from < es.len() {
        let child = plan_seq(es[from].tree, p.push(es[from].name@));
        let rest = plan_seq_entries(es, from + 1, p);
        let items = plan_seq_entries(es, from, p);
        assert(decreases_to!(es => es[from]));
        assert(decreases_to!(es[from] => es[from].tree));
        lemma_plan_seq_parents_first(es[from].tree, p.push(es[from].name@));
        lemma_plan_seq_entries_parents_first(es, from + 1, p);
        assert(p.push(es[from].name@).drop_last() =~= p);
        assert forall|i: int| 0 <= i < items.len() implies (#[trigger] items[i]).0.len() > p.len()
            && (items[i].0.drop_last() == p || exists|j: int|
            0 <= j < i && (#[trigger] items[j]) == (items[i].0.drop_last(), true)) by {
            if i < child.len() {
                assert(items[i] == child[i]);
                if i == 0 {
                    assert(items[i].0 == p.push(es[from].name@));
                    assert(items[i].0.len() == p.len() + 1);
                } else {
                    assert(child[i].0.len() > p.push(es[from].name@).len());
                    let j0 = choose|j0: int|
                        0 <= j0 < i && (#[trigger] child[j0]) == (child[i].0.drop_last(), true);
                    assert(items[j0] == (items[i].0.drop_last(), true));
                }
            } else {
                let k = i - child.len();
                assert(items[i] == rest[k]);
                if rest[k].0.drop_last() == p {
                } else {
                    let j0 = choose|j0: int|
                        0 <= j0 < k && (#[trigger] rest[j0]) == (rest[k].0.drop_last(), true);
                    assert(items[j0 + child.len()] == (items[i].0.drop_last(), true));
                }
            }
        }
    }
}

/// A plan for a well-formed tree never lists a node twice.
pub proof fn lemma_plan_seq_distinct(t: FileTree, p: Seq<Seq<u8>>)
    requires
        tree_wf(t),
    ensures
        forall|i: int, j: int|
            0 <= i < j < plan_seq(t, p).len() ==> (#[trigger] plan_seq(t, p)[i]) != (
            #[trigger] plan_seq(t, p)[j]),
    decreases t, 0int,
{
    match t {
        FileTree::File => {
        },
        FileTree::Directory(es) => {
            let items = plan_seq(t, p);
            let rest = plan_seq_entries(es@, 0, p);
            lemma_plan_seq_entries_parents_first(es@, 0, p);
            lemma_plan_seq_entries_distinct(es@, 0, p);
            assert forall|i: int, j: int|
                0 <= i < j < items.len() implies (#[trigger] items[i]) != (
            #[trigger] items[j]) by {
                if i == 0 {
                    assert(items[j] == rest[j - 1]);
                    assert(rest[j - 1].0.len() > p.len());
                } else {
                    assert(items[i] == rest[i - 1]);
                    assert(items[j] == rest[j - 1]);
                }
            }
        },
    }
}

/// The children's steps, from child `from` on, are pairwise distinct, and
/// each step's path carries some child's name right below `p`.
proof fn lemma_plan_seq_entries_distinct(es: Seq<Entry>, from: int, p: Seq<Seq<u8>>)
    requires
        0 <= from <= es.len(),
        entries_sorted(es),
        forall|k: int| 0 <= k < es.len() ==> tree_wf((#[trigger] es[k]).tree),
    ensures
        forall|i: int|
            0 <= i < plan_seq_entries(es, from, p).len() ==> exists|k: int|
                from <= k < es.len() && (#[trigger] plan_seq_entries(es, from, p)[i]).0.len()
                    > p.len() && plan_seq_entries(es, from, p)[i].0[p.len() as int] == (
                #[trigger] es[k]).name@,
        forall|i: int, j: int|
            0 <= i < j < plan_seq_entries(es, from, p).len() ==> (#[trigger] plan_seq_entries(
                es,
                from,
                p,
            )[i]) != (#[trigger] plan_seq_entries(es, from, p)[j]),
    decreases es, es.len() - from,
{
    if from < es.len() {
        let n = es[from].name@;
        let child = plan_seq(es[from].tree, p.push(n));
        let rest = plan_seq_entries(es, from + 1, p);
        let items = plan_seq_entries(es, from, p);
        assert(decreases_to!(es => es[from]));
        assert(decreases_to!(es[from] => es[from].tree));
        lemma_plan_seq_distinct(es[from].tree, p.push(n));
        lemma_plan_seq_entries_distinct(es, from + 1, p);
        // Every step of the head child's plan carries the head child's
        // name right below `p`.
        assert forall|i: int| 0 <= i < child.len() implies (#[trigger] child[i]).0.len() > p.len()
            && child[i].0[p.len() as int] == n by {
            assert(child.contains(child[i]));
            lemma_plan_seq_covers(es[from].tree, p.push(n), child[i]);
            let ln = p.len() as int;
            assert(child[i].0.take(ln + 1) == p.push(n));
            assert(child[i].0[ln] == child[i].0.take(ln + 1)[ln]);
        }
        assert forall|i: int| 0 <= i < items.len() implies exists|k: int|
            from <= k < es.len() && (#[trigger] items[i]).0.len() > p.len() && items[i].0[p.len() as int] == (#[trigger] es[k]).name@ by {
            if i < child.len() {
                assert(items[i] == child[i]);
                assert(from <= from < es.len() && items[i].0.len() > p.len() && items[i].0[p.len() as int] == es[from].name@);
            } else {
                assert(items[i] == rest[i - child.len()]);
                let k = choose|k: int|
                    from + 1 <= k < es.len() && (#[trigger] rest[i - child.len()]).0.len()
                        > p.len() && rest[i - child.len()].0[p.len() as int] == (
                    #[trigger] es[k]).name@;
                assert(from <= k < es.len() && items[i].0.len() > p.len() && items[i].0[p.len() as int] == es[k].name@);
            }
        }
        assert forall|i: int, j: int| 0 <= i < j < items.len() implies (#[trigger] items[i]) != (
        #[trigger] items[j]) by {
            if i < child.len() && j >= child.len() {
                assert(items[i] == child[i]);
                assert(items[j] == rest[j - child.len()]);
                let k = choose|k: int|
                    from + 1 <= k < es.len() && (#[trigger] rest[j - child.len()]).0.len()
                        > p.len() && rest[j - child.len()].0[p.len() as int] == (
                    #[trigger] es[k]).name@;
                assert(items[i].0[p.len() as int] == n);
                assert(crate::name_order::lex_lt(n, es[k].name@));
                lemma_lex_asymmetric(n, es[k].name@);
            } else if i >= child.len() {
                assert(items[i] == rest[i - child.len()]);
                assert(items[j] == rest[j - child.len()]);
            } else {
                assert(items[i] == child[i]);
                assert(items[j] == child[j]);
            }
        }
    }
}

/// Copies a path component for component.
pub fn copy_path(p: &Vec<Vec<u8>>) -> (r: Vec<Vec<u8>>)
    ensures
        path_view(r@) == path_view(p@),
{
    let n = p.len();
    let mut r: Vec<Vec<u8>> = Vec::new();
    let mut i: usize = 0;
    while i < n
        invariant
            i <= n,
            n == p@.len(),
            r@.len() == i,
            forall|k: int| 0 <= k < i ==> (#[trigger] r@[k])@ == p@[k]@,
        decreases n - i,
    {
        r.push(copy_name(&p[i]));
        i = i + 1;
    }
    proof {
        assert(path_view(r@) =~= path_view(p@));
    }
    r
}

/// Lists the creation steps for `t` below the path `prefix`, appending to
/// `out`.
fn plan_into(t: &FileTree, prefix: &Vec<Vec<u8>>, out: &mut Vec<CreateOp>)
    ensures
        op_models(final(out)@) == op_models(old(out)@) + plan_seq(*t, path_view(prefix@)),
    decreases *t, 0int,
{
    let ghost pv = path_view(prefix@);
    match t {
        FileTree::File => {
            let op = CreateOp { path: copy_path(prefix), is_dir: false };
            proof {
                assert(op_node(op) == (pv, false));
            }
            out.push(op);
            proof {
                assert(op_models(out@) =~= op_models(old(out)@) + plan_seq(*t, pv));
            }
        },
        FileTree::Directory(es) => {
            let op = CreateOp { path: copy_path(prefix), is_dir: true };
            proof {
                assert(op_node(op) == (pv, true));
            }
            out.push(op);
            let ghost mid = out@;
            proof {
                assert(op_models(mid) =~= op_models(old(out)@) + seq![(pv, true)]);
                assert(decreases_to!(*t => t->Directory_0));
                assert(decreases_to!(t->Directory_0 => t->Directory_0@));
            }
            plan_entries_into(es, 0, prefix, out);
            proof {
                assert(op_models(out@) =~= op_models(old(out)@) + plan_seq(*t, pv));
            }
        },
    }
}

/// Lists the creation steps for the children of a directory below
/// `prefix`, from child `from` on, appending to `out`.
fn plan_entries_into(es: &Vec<Entry>, from: usize, prefix: &Vec<Vec<u8>>, out: &mut Vec<CreateOp>)
    requires
        from <= es@.len(),
    ensures
        op_models(final(out)@) == op_models(old(out)@) + plan_seq_entries(
            es@,
            from as int,
            path_view(prefix@),
        ),
    decreases es@, es@.len() - from,
{
    let ghost pv = path_view(prefix@);
    if from == es.len() {
        proof {
            assert(op_models(out@) =~= op_models(old(out)@) + plan_seq_entries(
                es@,
                from as int,
                pv,
            ));
        }
        return ;
    }
    let mut child_prefix = copy_path(prefix);
    child_prefix.push(copy_name(&es[from].name));
    proof {
        assert(path_view(child_prefix@) =~= pv.push(es@[from as int].name@));
        assert(decreases_to!(es@ => es@[from as int]));
        assert(decreases_to!(es@[from as int] => es@[from as int].tree));
    }
    let ghost base = out@;
    plan_into(&es[from].tree, &child_prefix, out);
    let ghost mid = out@;
    plan_entries_into(es, from + 1, prefix, out);
    proof {
        assert(op_models(out@) =~= op_models(base) + plan_seq_entries(es@, from as int, pv));
    }
}

/// Lists the creation steps that recreate `t` at a destination: the
/// destination itself first, then each node of the tree below it, every
/// parent before its children.
pub fn plan(t: &FileTree) -> (ops: Vec<CreateOp>)
    ensures
        op_models(ops@) == plan_seq(*t, Seq::<Seq<u8>>::empty()),
        forall|x: (Seq<Seq<u8>>, bool)|
            op_models(ops@).contains(x) <==> tree_nodes(*t).contains(x),
        ops@.len() >= 1,
        op_models(ops@)[0] == (Seq::<Seq<u8>>::empty(), *t is Directory),
        parents_first(op_models(ops@)),
        tree_wf(*t) ==> forall|i: int, j: int|
            0 <= i < j < ops@.len() ==> op_node(#[trigger] ops@[i]) != op_node(#[trigger] ops@[j]),
{
    let prefix: Vec<Vec<u8>> = Vec::new();
    let mut ops: Vec<CreateOp> = Vec::new();
    proof {
        assert(path_view(prefix@) =~= Seq::<Seq<u8>>::empty());
    }
    plan_into(t, &prefix, &mut ops);
    proof {
        let e = Seq::<Seq<u8>>::empty();
        assert(op_models(ops@) =~= plan_seq(*t, e));
        assert forall|x: (Seq<Seq<u8>>, bool)|
            op_models(ops@).contains(x) <==> tree_nodes(*t).contains(x) by {
            lemma_plan_seq_covers(*t, e, x);
            lemma_with_prefix_empty(tree_nodes(*t), x);
        }
        lemma_plan_seq_parents_first(*t, e);
        assert(ops@.len() == op_models(ops@).len());
        if tree_wf(*t) {
            lemma_plan_seq_distinct(*t, e);
            assert forall|i: int, j: int| 0 <= i < j < ops@.len() implies op_node(
                #[trigger] ops@[i],
            ) != op_node(#[trigger] ops@[j]) by {
                assert(op_models(ops@)[i] == op_node(ops@[i]));
                assert(op_models(ops@)[j] == op_node(ops@[j]));
            }
        }
    }
    ops
}

/// The round trip: a snapshot of a faithful capture, materialized, names
/// exactly the captured paths and kinds — the layout comes back as it
/// was, contents and metadata aside.
pub proof fn lemma_round_trip(raw: crate::snapshot::RawNode, t: FileTree, ops: Seq<CreateOp>)
    requires
        crate::snapshot::raw_clean(raw),
        tree_nodes(t) == crate::snapshot::raw_nodes(raw),
        op_models(ops) == plan_seq(t, Seq::<Seq<u8>>::empty()),
    ensures
        forall|x: (Seq<Seq<u8>>, bool)|
            op_models(ops).contains(x) <==> crate::snapshot::raw_nodes(raw).contains(x),
{
    assert forall|x: (Seq<Seq<u8>>, bool)|
        op_models(ops).contains(x) <==> crate::snapshot::raw_nodes(raw).contains(x) by {
        lemma_plan_seq_covers(t, Seq::<Seq<u8>>::empty(), x);
        lemma_with_prefix_empty(tree_nodes(t), x);
    }
}

/// What to create for one step.
#[derive(Debug)]
pub enum CreateAction {
    MakeEmptyFile,
    MakeDirectory,
}

/// The destination of a creation step already exists; the materializer
/// refuses to touch it.
#[derive(Debug)]
pub struct AlreadyExists {
    pub path: Vec<Vec<u8>>,
}

/// Decides one creation step, given whether its destination already
/// exists: an existing destination — file or directory, of any kind — is
/// refused outright, so existing state is never overwritten; otherwise
/// the step's node is created, and nothing else.
pub fn materialize_step(op: &CreateOp, destination_exists: bool) -> (r: Result<
    CreateAction,
    AlreadyExists,
>)
    ensures
        r is Err <==> destination_exists,
        r matches Err(e) ==> path_view(e.path@) == path_view(op.path@),
        r matches Ok(a) ==> ((a is MakeDirectory) <==> op.is_dir),
{
    if destination_exists {
        Err(AlreadyExists { path: copy_path(&op.path) })
    } else if op.is_dir {
        Ok(CreateAction::MakeDirectory)
    } else {
        Ok(CreateAction::MakeEmptyFile)
    }
}

} // verus!
