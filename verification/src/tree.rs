//! In-memory model of a directory tree.
//!
//! The executable type [`FsNode`] mirrors the part of the on-disk world the
//! cleanup logic reads: regular files with a byte size and directories with
//! named children. Its mathematical view is the ghost datatype [`Tree`],
//! over which every contract and lemma of the crate is stated.

use vstd::prelude::*;

verus! {

/// Mathematical model of a filesystem subtree: a regular file with a byte
/// size, or a directory with an ordered sequence of (name, subtree) entries.
pub enum Tree {
    File { size: nat },
    Dir { entries: Seq<(Seq<char>, Tree)> },
}

/// Total number of file bytes in a subtree; directories themselves weigh nothing.
pub open spec fn tree_size(t: Tree) -> nat
    decreases t,
{
    match t {
        Tree::File { size } => size,
        Tree::Dir { entries } => entries_size(entries),
    }
}

/// Sum of [`tree_size`] over a sequence of directory entries.
pub open spec fn entries_size(es: Seq<(Seq<char>, Tree)>) -> nat
    decreases es,
{
    if es.len() == 0 {
        0
    } else {
        tree_size(es[0].1) + entries_size(es.drop_first())
    }
}

/// Index of the first entry called `name`, or -1 when there is none.
pub open spec fn entry_index(es: Seq<(Seq<char>, Tree)>, name: Seq<char>) -> int
    decreases es.len(),
{
    if es.len() == 0 {
        -1
    } else if es[0].0 == name {
        0
    } else {
        let rest = entry_index(es.drop_first(), name);
        if rest < 0 {
            -1
        } else {
            rest + 1
        }
    }
}

/// The subtree reached by following `path` from `t`, component by component.
pub open spec fn lookup(t: Tree, path: Seq<Seq<char>>) -> Option<Tree>
    decreases path.len(),
{
    if path.len() == 0 {
        Some(t)
    } else {
        match t {
            Tree::File { .. } => None,
            Tree::Dir { entries } => {
                let i = entry_index(entries, path[0]);
                if i < 0 {
                    None
                } else {
                    lookup(entries[i].1, path.drop_first())
                }
            },
        }
    }
}

/// `t` with the entry at `path` removed; `t` itself when `path` is empty or
/// leads nowhere.
pub open spec fn remove_at(t: Tree, path: Seq<Seq<char>>) -> Tree
    decreases path.len(),
{
    if path.len() == 0 {
        t
    } else {
        match t {
            Tree::File { .. } => t,
            Tree::Dir { entries } => {
                let i = entry_index(entries, path[0]);
                if i < 0 {
                    t
                } else if path.len() == 1 {
                    Tree::Dir { entries: entries.remove(i) }
                } else {
                    Tree::Dir {
                        entries: entries.update(
                            i,
                            (entries[i].0, remove_at(entries[i].1, path.drop_first())),
                        ),
                    }
                }
            },
        }
    }
}

/// No two entries of one directory share a name.
pub open spec fn distinct_names(es: Seq<(Seq<char>, Tree)>) -> bool {
    forall|i: int, j: int| 0 <= i < j < es.len() ==> es[i].0 != es[j].0
}

/// Well-formedness: names are distinct in every directory of the subtree.
/// Canonical on-disk trees always satisfy this.
pub open spec fn wf(t: Tree) -> bool
    decreases t,
{
    match t {
        Tree::File { .. } => true,
        Tree::Dir { entries } => distinct_names(entries) && wf_entries(entries),
    }
}

/// [`wf`] for every subtree in an entry sequence.
pub open spec fn wf_entries(es: Seq<(Seq<char>, Tree)>) -> bool
    decreases es,
{
    if es.len() == 0 {
        true
    } else {
        wf(es[0].1) && wf_entries(es.drop_first())
    }
}

/// Names of the regular-file entries of `es`, in entry order.
pub open spec fn file_names(es: Seq<(Seq<char>, Tree)>) -> Seq<Seq<char>>
    decreases es.len(),
{
    if es.len() == 0 {
        Seq::empty()
    } else {
        let rest = file_names(es.drop_first());
        if es[0].1 is File {
            seq![es[0].0] + rest
        } else {
            rest
        }
    }
}

/// True when `a` is a (not necessarily strict) prefix of `b`.
pub open spec fn is_prefix_of(a: Seq<Seq<char>>, b: Seq<Seq<char>>) -> bool {
    a.len() <= b.len() && forall|i: int| 0 <= i < a.len() ==> a[i] == b[i]
}

/// One entry weighs no more than the whole sequence.
pub proof fn lemma_entry_size_le(es: Seq<(Seq<char>, Tree)>, i: int)
    requires
        0 <= i < es.len(),
    ensures
        tree_size(es[i].1) <= entries_size(es),
    decreases i,
{
    if i > 0 {
        lemma_entry_size_le(es.drop_first(), i - 1);
        assert(es.drop_first()[i - 1] == es[i]);
    }
}

/// Taking an entry out takes exactly its size out of the sum.
pub proof fn lemma_entries_size_remove(es: Seq<(Seq<char>, Tree)>, i: int)
    requires
        0 <= i < es.len(),
    ensures
        entries_size(es.remove(i)) + tree_size(es[i].1) == entries_size(es),
    decreases i,
{
    if i == 0 {
        assert(es.remove(0) =~= es.drop_first());
    } else {
        lemma_entries_size_remove(es.drop_first(), i - 1);
        assert(es.remove(i).drop_first() =~= es.drop_first().remove(i - 1));
        assert(es.drop_first()[i - 1] == es[i]);
        assert(es.remove(i)[0] == es[0]);
    }
}

/// Exchanging an entry exchanges exactly its size in the sum.
pub proof fn lemma_entries_size_update(es: Seq<(Seq<char>, Tree)>, i: int, x: (Seq<char>, Tree))
    requires
        0 <= i < es.len(),
    ensures
        entries_size(es.update(i, x)) + tree_size(es[i].1) == entries_size(es) + tree_size(x.1),
    decreases i,
{
    if i == 0 {
        assert(es.update(0, x).drop_first() =~= es.drop_first());
        assert(es.update(0, x)[0] == x);
    } else {
        lemma_entries_size_update(es.drop_first(), i - 1, x);
        assert(es.update(i, x).drop_first() =~= es.drop_first().update(i - 1, x));
        assert(es.drop_first()[i - 1] == es[i]);
        assert(es.update(i, x)[0] == es[0]);
    }
}

/// The subtree a path reaches weighs no more than the whole tree.
pub proof fn lemma_lookup_size(t: Tree, p: Seq<Seq<char>>)
    requires
        lookup(t, p) is Some,
    ensures
        tree_size(lookup(t, p).unwrap()) <= tree_size(t),
    decreases p.len(),
{
    if p.len() > 0 {
        let es = t->entries;
        let i = entry_index(es, p[0]);
        lemma_entry_index(es, p[0]);
        lemma_entry_size_le(es, i);
        lemma_lookup_size(es[i].1, p.drop_first());
    }
}

/// Removing the subtree at `p` takes exactly its size out of the tree.
pub proof fn lemma_remove_at_size(t: Tree, p: Seq<Seq<char>>)
    requires
        p.len() > 0,
        lookup(t, p) is Some,
    ensures
        tree_size(remove_at(t, p)) + tree_size(lookup(t, p).unwrap()) == tree_size(t),
    decreases p.len(),
{
    let es = t->entries;
    let i = entry_index(es, p[0]);
    lemma_entry_index(es, p[0]);
    if p.len() == 1 {
        lemma_entries_size_remove(es, i);
        assert(p.drop_first().len() == 0);
        assert(lookup(es[i].1, p.drop_first()) == Some(es[i].1));
    } else {
        lemma_remove_at_size(es[i].1, p.drop_first());
        lemma_entries_size_update(es, i, (es[i].0, remove_at(es[i].1, p.drop_first())));
    }
}

/// With equal first components, being a prefix is decided by the rest.
pub proof fn lemma_prefix_drop(a: Seq<Seq<char>>, b: Seq<Seq<char>>)
    requires
        a.len() > 0,
        b.len() > 0,
        a[0] == b[0],
    ensures
        is_prefix_of(a, b) <==> is_prefix_of(a.drop_first(), b.drop_first()),
{
    if is_prefix_of(a, b) {
        assert forall|i: int|
            0 <= i < a.drop_first().len() implies a.drop_first()[i] == b.drop_first()[i] by {
            assert(a[i + 1] == b[i + 1]);
        }
    }
    if is_prefix_of(a.drop_first(), b.drop_first()) {
        assert forall|i: int| 0 <= i < a.len() implies a[i] == b[i] by {
            if i > 0 {
                assert(a.drop_first()[i - 1] == b.drop_first()[i - 1]);
            }
        }
    }
}

/// Removing along a path that leads nowhere changes nothing.
pub proof fn lemma_remove_at_noop(t: Tree, p: Seq<Seq<char>>)
    requires
        lookup(t, p) is None,
    ensures
        remove_at(t, p) == t,
    decreases p.len(),
{
    if p.len() > 0 && t is Dir {
        let es = t->entries;
        let i = entry_index(es, p[0]);
        lemma_entry_index(es, p[0]);
        if i >= 0 {
            if p.len() == 1 {
            } else {
                lemma_remove_at_noop(es[i].1, p.drop_first());
                assert(es.update(i, (es[i].0, es[i].1)) =~= es);
            }
        }
    }
}

/// [`wf_entries`] said entry by entry.
pub proof fn lemma_wf_entries_index(es: Seq<(Seq<char>, Tree)>)
    ensures
        wf_entries(es) <==> (forall|i: int| 0 <= i < es.len() ==> wf(#[trigger] es[i].1)),
    decreases es.len(),
{
    if es.len() > 0 {
        lemma_wf_entries_index(es.drop_first());
        assert(forall|i: int|
            0 <= i < es.drop_first().len() ==> es.drop_first()[i] == es[i + 1]);
        if wf(es[0].1) && wf_entries(es.drop_first()) {
            assert forall|i: int| 0 <= i < es.len() implies wf(#[trigger] es[i].1) by {
                if i > 0 {
                    assert(es.drop_first()[i - 1] == es[i]);
                }
            }
        }
    }
}

/// Removal keeps the tree well formed.
pub proof fn lemma_remove_at_wf(t: Tree, p: Seq<Seq<char>>)
    requires
        wf(t),
    ensures
        wf(remove_at(t, p)),
    decreases p.len(),
{
    if p.len() > 0 && t is Dir {
        let es = t->entries;
        let i = entry_index(es, p[0]);
        lemma_entry_index(es, p[0]);
        lemma_wf_entries_index(es);
        if i >= 0 {
            if p.len() == 1 {
                let es2 = es.remove(i);
                assert forall|j: int| 0 <= j < es2.len() implies wf(#[trigger] es2[j].1) by {
                    if j < i {
                        assert(es2[j] == es[j]);
                    } else {
                        assert(es2[j] == es[j + 1]);
                    }
                }
                lemma_wf_entries_index(es2);
            } else {
                lemma_remove_at_wf(es[i].1, p.drop_first());
                let es2 = es.update(i, (es[i].0, remove_at(es[i].1, p.drop_first())));
                assert forall|j: int| 0 <= j < es2.len() implies wf(#[trigger] es2[j].1) by {
                    if j != i {
                        assert(es2[j] == es[j]);
                    }
                }
                lemma_wf_entries_index(es2);
            }
        }
    }
}

/// [`entry_index`] after removing an entry that carries another name: the
/// found entry is the same one, at its shifted place.
pub proof fn lemma_entry_index_remove(es: Seq<(Seq<char>, Tree)>, i: int, name: Seq<char>)
    requires
        0 <= i < es.len(),
        es[i].0 != name,
    ensures
        entry_index(es, name) == -1 ==> entry_index(es.remove(i), name) == -1,
        entry_index(es, name) >= 0 && entry_index(es, name) < i ==> entry_index(
            es.remove(i),
            name,
        ) == entry_index(es, name),
        entry_index(es, name) > i ==> entry_index(es.remove(i), name) == entry_index(
            es,
            name,
        ) - 1,
    decreases i + es.len(),
{
    lemma_entry_index(es, name);
    if i == 0 {
        assert(es.remove(0) =~= es.drop_first());
    } else {
        if es[0].0 == name {
            assert(es.remove(i)[0] == es[0]);
        } else {
            lemma_entry_index_remove(es.drop_first(), i - 1, name);
            assert(es.remove(i).drop_first() =~= es.drop_first().remove(i - 1));
            assert(es.remove(i)[0] == es[0]);
            lemma_entry_index(es.drop_first(), name);
            lemma_entry_index(es.drop_first().remove(i - 1), name);
        }
    }
}

/// Two entry sequences with the same names agree on [`entry_index`].
pub proof fn lemma_entry_index_same_names(
    es1: Seq<(Seq<char>, Tree)>,
    es2: Seq<(Seq<char>, Tree)>,
    name: Seq<char>,
)
    requires
        es1.len() == es2.len(),
        forall|k: int| 0 <= k < es1.len() ==> es1[k].0 == es2[k].0,
    ensures
        entry_index(es1, name) == entry_index(es2, name),
    decreases es1.len(),
{
    if es1.len() > 0 {
        assert forall|k: int|
            0 <= k < es1.drop_first().len() implies es1.drop_first()[k].0
            == es2.drop_first()[k].0 by {
            assert(es1.drop_first()[k] == es1[k + 1]);
            assert(es2.drop_first()[k] == es2[k + 1]);
        }
        lemma_entry_index_same_names(es1.drop_first(), es2.drop_first(), name);
    }
}

/// Scope of a removal: the subtree at `p` and everything under it is gone;
/// every disjoint path is untouched; every strict ancestor of `p` keeps its
/// other entries and loses only its part of the removed path.
pub proof fn lemma_remove_at_lookup(t: Tree, p: Seq<Seq<char>>, q: Seq<Seq<char>>)
    requires
        wf(t),
        p.len() > 0,
        lookup(t, p) is Some,
    ensures
        !is_prefix_of(p, q) && !is_prefix_of(q, p) ==> lookup(remove_at(t, p), q) == lookup(t, q),
        is_prefix_of(p, q) ==> lookup(remove_at(t, p), q) is None,
        is_prefix_of(q, p) && q.len() < p.len() ==> lookup(t, q) is Some && lookup(
            remove_at(t, p),
            q,
        ) == Some(remove_at(lookup(t, q).unwrap(), p.skip(q.len() as int))),
    decreases p.len(),
{
    let es = t->entries;
    let i = entry_index(es, p[0]);
    lemma_entry_index(es, p[0]);
    lemma_wf_entries_index(es);
    if q.len() == 0 {
        assert(p.skip(0) =~= p);
    } else if q[0] != p[0] {
        assert(!is_prefix_of(p, q) && !is_prefix_of(q, p));
        let j = entry_index(es, q[0]);
        lemma_entry_index(es, q[0]);
        if p.len() == 1 {
            lemma_entry_index_remove(es, i, q[0]);
            if j >= 0 {
                if j < i {
                    assert(es.remove(i)[j] == es[j]);
                } else {
                    assert(es.remove(i)[j - 1] == es[j]);
                }
            }
        } else {
            let es2 = es.update(i, (es[i].0, remove_at(es[i].1, p.drop_first())));
            lemma_entry_index_same_names(es, es2, q[0]);
            if j >= 0 {
                assert(es2[j] == es[j]);
            }
        }
    } else {
        // q starts with the removed entry's name; both paths go through entry i.
        assert(i >= 0);
        if p.len() == 1 {
            // the entry is removed outright; distinct names leave no other
            // entry called p[0]
            let es2 = es.remove(i);
            lemma_entry_index(es2, q[0]);
            let j2 = entry_index(es2, q[0]);
            if j2 >= 0 {
                let orig = if j2 < i {
                    j2
                } else {
                    j2 + 1
                };
                assert(es2[j2] == es[orig]);
                assert(es[orig].0 == es[i].0 && orig != i);
                assert(false);
            }
            assert(is_prefix_of(p, q));
        } else {
            let child = es[i].1;
            let p1 = p.drop_first();
            let q1 = q.drop_first();
            let es2 = es.update(i, (es[i].0, remove_at(child, p1)));
            lemma_entry_index_same_names(es, es2, q[0]);
            lemma_remove_at_lookup(child, p1, q1);
            lemma_prefix_drop(p, q);
            lemma_prefix_drop(q, p);
            if is_prefix_of(q, p) && q.len() < p.len() {
                assert(p1.skip(q1.len() as int) =~= p.skip(q.len() as int));
            }
        }
    }
}

/// Being a prefix is transitive.
pub proof fn lemma_prefix_trans(a: Seq<Seq<char>>, b: Seq<Seq<char>>, c: Seq<Seq<char>>)
    requires
        is_prefix_of(a, b),
        is_prefix_of(b, c),
    ensures
        is_prefix_of(a, c),
{
    assert forall|i: int| 0 <= i < a.len() implies a[i] == c[i] by {
        assert(a[i] == b[i]);
    }
}

/// Nothing lives below a path that leads nowhere.
pub proof fn lemma_lookup_none_extends(t: Tree, a: Seq<Seq<char>>, b: Seq<Seq<char>>)
    requires
        is_prefix_of(a, b),
        lookup(t, a) is None,
    ensures
        lookup(t, b) is None,
    decreases a.len(),
{
    if a.len() > 0 && t is Dir {
        let es = t->entries;
        let i = entry_index(es, a[0]);
        lemma_entry_index(es, a[0]);
        assert(b[0] == a[0]);
        if i >= 0 {
            lemma_prefix_drop(a, b);
            lemma_lookup_none_extends(es[i].1, a.drop_first(), b.drop_first());
        }
    }
}

/// Following a concatenated path is following its parts in turn.
pub proof fn lemma_lookup_split(t: Tree, a: Seq<Seq<char>>, b: Seq<Seq<char>>)
    requires
        lookup(t, a) is Some,
    ensures
        lookup(t, a + b) == lookup(lookup(t, a).unwrap(), b),
    decreases a.len(),
{
    if a.len() == 0 {
        assert(a + b =~= b);
    } else {
        let es = t->entries;
        let i = entry_index(es, a[0]);
        lemma_entry_index(es, a[0]);
        assert((a + b)[0] == a[0]);
        assert((a + b).drop_first() =~= a.drop_first() + b);
        lemma_lookup_split(es[i].1, a.drop_first(), b);
    }
}

/// Removing an entry that is a directory leaves the file names alone.
pub proof fn lemma_file_names_remove_dir(es: Seq<(Seq<char>, Tree)>, i: int)
    requires
        0 <= i < es.len(),
        es[i].1 is Dir,
    ensures
        file_names(es.remove(i)) == file_names(es),
    decreases i,
{
    if i == 0 {
        assert(es.remove(0) =~= es.drop_first());
    } else {
        lemma_file_names_remove_dir(es.drop_first(), i - 1);
        assert(es.remove(i).drop_first() =~= es.drop_first().remove(i - 1));
        assert(es.drop_first()[i - 1] == es[i]);
        assert(es.remove(i)[0] == es[0]);
    }
}

/// Exchanging an entry for one of the same name and kind leaves the file
/// names alone.
pub proof fn lemma_file_names_update_same_kind(
    es: Seq<(Seq<char>, Tree)>,
    i: int,
    x: (Seq<char>, Tree),
)
    requires
        0 <= i < es.len(),
        x.0 == es[i].0,
        x.1 is File <==> es[i].1 is File,
    ensures
        file_names(es.update(i, x)) == file_names(es),
    decreases i,
{
    if i == 0 {
        assert(es.update(0, x).drop_first() =~= es.drop_first());
        assert(es.update(0, x)[0] == x);
    } else {
        lemma_file_names_update_same_kind(es.drop_first(), i - 1, x);
        assert(es.update(i, x).drop_first() =~= es.drop_first().update(i - 1, x));
        assert(es.drop_first()[i - 1] == es[i]);
        assert(es.update(i, x)[0] == es[0]);
    }
}

/// Removing a directory deeper down keeps a node's kind and its own file
/// names.
pub proof fn lemma_remove_at_kind_files(y: Tree, suffix: Seq<Seq<char>>)
    requires
        suffix.len() > 0,
        lookup(y, suffix) matches Some(d) && d is Dir,
    ensures
        remove_at(y, suffix) is Dir <==> y is Dir,
        y is Dir ==> file_names(remove_at(y, suffix)->entries) == file_names(y->entries),
    decreases suffix.len(),
{
    let es = y->entries;
    let i = entry_index(es, suffix[0]);
    lemma_entry_index(es, suffix[0]);
    if suffix.len() == 1 {
        assert(suffix.drop_first() =~= Seq::<Seq<char>>::empty());
        assert(lookup(es[i].1, suffix.drop_first()) == Some(es[i].1));
        lemma_file_names_remove_dir(es, i);
    } else {
        lemma_remove_at_kind_files(es[i].1, suffix.drop_first());
        lemma_file_names_update_same_kind(
            es,
            i,
            (es[i].0, remove_at(es[i].1, suffix.drop_first())),
        );
    }
}

/// One child of a directory: a name and the node behind it.
pub struct FsEntry {
    pub name: String,
    pub node: FsNode,
}

/// Executable model of a filesystem subtree.
pub enum FsNode {
    File { size: u64 },
    Dir { entries: Vec<FsEntry> },
}

/// The ghost [`Tree`] a node stands for.
pub open spec fn node_view(n: FsNode) -> Tree
    decreases n,
{
    match n {
        FsNode::File { size } => Tree::File { size: size as nat },
        FsNode::Dir { entries } => Tree::Dir { entries: entries_view(entries@) },
    }
}

/// [`node_view`] of every entry, keeping names and order.
pub open spec fn entries_view(es: Seq<FsEntry>) -> Seq<(Seq<char>, Tree)>
    decreases es,
{
    if es.len() == 0 {
        Seq::empty()
    } else {
        seq![(es[0].name@, node_view(es[0].node))] + entries_view(es.drop_first())
    }
}

impl View for FsNode {
    type V = Tree;

    open spec fn view(&self) -> Tree {
        node_view(*self)
    }
}

/// Pointwise description of [`entries_view`].
pub proof fn lemma_entries_view(es: Seq<FsEntry>)
    ensures
        entries_view(es).len() == es.len(),
        forall|i: int|
            0 <= i < es.len() ==> #[trigger] entries_view(es)[i] == (
                es[i].name@,
                node_view(es[i].node),
            ),
    decreases es.len(),
{
    if es.len() > 0 {
        lemma_entries_view(es.drop_first());
        assert forall|i: int| 0 <= i < es.len() implies #[trigger] entries_view(es)[i] == (
            es[i].name@,
            node_view(es[i].node),
        ) by {
            if i > 0 {
                assert(es.drop_first()[i - 1] == es[i]);
            }
        }
    }
}

/// Splits the entry sum at index `i`: one entry's size plus the sum of the rest.
pub proof fn lemma_entries_size_skip(es: Seq<(Seq<char>, Tree)>, i: int)
    requires
        0 <= i < es.len(),
    ensures
        entries_size(es.skip(i)) == tree_size(es[i].1) + entries_size(es.skip(i + 1)),
{
    assert(es.skip(i).drop_first() =~= es.skip(i + 1));
    assert(es.skip(i)[0] == es[i]);
}

/// The ghost path a vector of component names stands for.
pub open spec fn path_view(p: Seq<String>) -> Seq<Seq<char>> {
    p.map_values(|s: String| s@)
}

/// What [`entry_index`] returns: the first index carrying `name`, or -1 when
/// no entry does.
pub proof fn lemma_entry_index(es: Seq<(Seq<char>, Tree)>, name: Seq<char>)
    ensures
        -1 <= entry_index(es, name) < es.len(),
        entry_index(es, name) >= 0 ==> es[entry_index(es, name)].0 == name,
        entry_index(es, name) >= 0 ==> forall|j: int|
            0 <= j < entry_index(es, name) ==> es[j].0 != name,
        entry_index(es, name) == -1 ==> forall|j: int| 0 <= j < es.len() ==> es[j].0 != name,
    decreases es.len(),
{
    if es.len() > 0 && es[0].0 != name {
        let d = es.drop_first();
        lemma_entry_index(d, name);
        let r = entry_index(d, name);
        if r < 0 {
            assert forall|j: int| 0 <= j < es.len() implies es[j].0 != name by {
                if j > 0 {
                    assert(d[j - 1] == es[j]);
                }
            }
        } else {
            assert(es[r + 1] == d[r]);
            assert forall|j: int| 0 <= j < r + 1 implies es[j].0 != name by {
                if j > 0 {
                    assert(d[j - 1] == es[j]);
                }
            }
        }
    }
}

/// Removing an entry commutes with taking the view.
pub proof fn lemma_entries_view_remove(es: Seq<FsEntry>, i: int)
    requires
        0 <= i < es.len(),
    ensures
        entries_view(es.remove(i)) == entries_view(es).remove(i),
{
    lemma_entries_view(es);
    lemma_entries_view(es.remove(i));
    assert(entries_view(es.remove(i)) =~= entries_view(es).remove(i));
}

/// Taking an entry out, changing it, and putting it back in place is, seen
/// through the view, an update at that place.
pub proof fn lemma_entries_view_reinsert(es: Seq<FsEntry>, i: int, e: FsEntry)
    requires
        0 <= i < es.len(),
    ensures
        entries_view(es.remove(i).insert(i, e)) == entries_view(es).update(
            i,
            (e.name@, node_view(e.node)),
        ),
{
    lemma_entries_view(es);
    lemma_entries_view(es.remove(i).insert(i, e));
    assert(entries_view(es.remove(i).insert(i, e)) =~= entries_view(es).update(
        i,
        (e.name@, node_view(e.node)),
    ));
}

/// A directory node is structurally larger than each of its child nodes;
/// recursive functions over [`FsNode`] terminate because of this.
pub proof fn lemma_node_entry_decreases(n: FsNode, i: int)
    requires
        n is Dir,
        0 <= i < n->entries@.len(),
    ensures
        decreases_to!(n => n->entries@[i].node),
{
    assert(decreases_to!(n => n->entries));
    assert(decreases_to!(n->entries => n->entries@));
    assert(decreases_to!(n->entries@ => n->entries@[i]));
    assert(decreases_to!(n->entries@[i] => n->entries@[i].node));
}

impl FsNode {
    /// Total bytes of every regular file under this node. This is the size a
    /// candidate reports before any decision about it is made.
    pub fn calculate_size(&self) -> (total: u64)
        requires
            tree_size(self@) <= u64::MAX,
        ensures
            total == tree_size(self@),
        decreases *self,
    {
        match self {
            FsNode::File { size } => *size,
            FsNode::Dir { entries } => {
                let ghost ev = entries_view(entries@);
                proof {
                    lemma_entries_view(entries@);
                    assert(ev.skip(0) =~= ev);
                }
                let mut total: u64 = 0;
                let mut i: usize = 0;
                while i < entries.len()
                    invariant
                        i <= entries.len(),
                        *self == (FsNode::Dir { entries: *entries }),
                        ev == entries_view(entries@),
                        ev.len() == entries.len(),
                        forall|k: int|
                            0 <= k < entries.len() ==> #[trigger] ev[k] == (
                                entries@[k].name@,
                                node_view(entries@[k].node),
                            ),
                        entries_size(ev) <= u64::MAX,
                        total + entries_size(ev.skip(i as int)) == entries_size(ev),
                    decreases entries.len() - i,
                {
                    proof {
                        lemma_entries_size_skip(ev, i as int);
                        lemma_node_entry_decreases(*self, i as int);
                    }
                    let sz = entries[i].node.calculate_size();
                    total = total + sz;
                    i = i + 1;
                }
                proof {
                    assert(ev.skip(entries.len() as int) =~= Seq::empty());
                }
                total
            },
        }
    }

    /// The node reached by following `path` from here, if any.
    pub fn lookup_node<'a>(&'a self, path: &Vec<String>) -> (r: Option<&'a FsNode>)
        ensures
            match r {
                Some(n) => lookup(self@, path_view(path@)) == Some(n@),
                None => lookup(self@, path_view(path@)) is None,
            },
    {
        proof {
            assert(path_view(path@).skip(0) =~= path_view(path@));
        }
        self.lookup_from(path, 0)
    }

    /// [`Self::lookup_node`] for the path suffix that starts at component `k`.
    fn lookup_from<'a>(&'a self, path: &Vec<String>, k: usize) -> (r: Option<&'a FsNode>)
        requires
            k <= path@.len(),
        ensures
            match r {
                Some(n) => lookup(self@, path_view(path@).skip(k as int)) == Some(n@),
                None => lookup(self@, path_view(path@).skip(k as int)) is None,
            },
        decreases path@.len() - k,
    {
        let ghost p = path_view(path@).skip(k as int);
        if k == path.len() {
            proof {
                assert(p =~= Seq::<Seq<char>>::empty());
            }
            Some(self)
        } else {
            match self {
                FsNode::File { .. } => None,
                FsNode::Dir { entries } => {
                    proof {
                        lemma_entries_view(entries@);
                        assert(p[0] == path@[k as int]@);
                    }
                    match find_entry(entries, &path[k]) {
                        None => None,
                        Some(i) => {
                            proof {
                                assert(p.drop_first() =~= path_view(path@).skip(k + 1));
                            }
                            entries[i].node.lookup_from(path, k + 1)
                        },
                    }
                },
            }
        }
    }

    /// Removes the node at `path`; the tree is unchanged when the path leads
    /// nowhere. Returns whether something was removed.
    pub fn remove_path(&mut self, path: &Vec<String>) -> (removed: bool)
        requires
            path@.len() > 0,
        ensures
            final(self)@ == remove_at(old(self)@, path_view(path@)),
            removed == (lookup(old(self)@, path_view(path@)) is Some),
            !removed ==> final(self)@ == old(self)@,
    {
        proof {
            assert(path_view(path@).skip(0) =~= path_view(path@));
            if lookup(old(self)@, path_view(path@)) is None {
                lemma_remove_at_noop(old(self)@, path_view(path@));
            }
        }
        self.remove_from(path, 0)
    }

    /// [`Self::remove_path`] for the path suffix that starts at component `k`.
    fn remove_from(&mut self, path: &Vec<String>, k: usize) -> (removed: bool)
        requires
            k < path@.len(),
        ensures
            final(self)@ == remove_at(old(self)@, path_view(path@).skip(k as int)),
            removed == (lookup(old(self)@, path_view(path@).skip(k as int)) is Some),
        decreases path@.len() - k,
    {
        let ghost p = path_view(path@).skip(k as int);
        let n = path.len();
        match self {
            FsNode::File { .. } => false,
            FsNode::Dir { entries } => {
                proof {
                    lemma_entries_view(entries@);
                    assert(p[0] == path@[k as int]@);
                }
                match find_entry(entries, &path[k]) {
                    None => false,
                    Some(i) => {
                        if k + 1 == n {
                            let ghost es0 = entries@;
                            entries.remove(i);
                            proof {
                                lemma_entries_view_remove(es0, i as int);
                                assert(p.len() == 1);
                                assert(p.drop_first().len() == 0);
                                assert(lookup(entries_view(es0)[i as int].1, p.drop_first())
                                    is Some);
                            }
                            true
                        } else {
                            let ghost es0 = entries@;
                            let mut e = entries.remove(i);
                            let ghost child0 = e.node;
                            let removed = e.node.remove_from(path, k + 1);
                            entries.insert(i, e);
                            proof {
                                lemma_entries_view_reinsert(es0, i as int, e);
                                assert(child0 == es0[i as int].node);
                                assert(p.drop_first() =~= path_view(path@).skip(k + 1));
                                assert(entries_view(es0)[i as int].1 == node_view(
                                    es0[i as int].node,
                                ));
                                assert(removed == (lookup(node_view(child0), p.drop_first())
                                    is Some));
                            }
                            removed
                        }
                    },
                }
            },
        }
    }
}

/// Index of the entry called `name`, as [`entry_index`] gives it.
fn find_entry(entries: &Vec<FsEntry>, name: &String) -> (r: Option<usize>)
    ensures
        match r {
            Some(i) => 0 <= i < entries@.len() && entry_index(
                entries_view(entries@),
                name@,
            ) == i as int,
            None => entry_index(entries_view(entries@), name@) == -1,
        },
{
    let ghost ev = entries_view(entries@);
    proof {
        lemma_entries_view(entries@);
    }
    let mut i: usize = 0;
    while i < entries.len()
        invariant
            i <= entries.len(),
            ev == entries_view(entries@),
            ev.len() == entries@.len(),
            forall|j: int| 0 <= j < i ==> ev[j].0 != name@,
        decreases entries.len() - i,
    {
        proof {
            lemma_entries_view(entries@);
        }
        if entries[i].name == *name {
            proof {
                lemma_entry_index(ev, name@);
                assert(ev[i as int].0 == name@);
                let idx = entry_index(ev, name@);
                if idx == -1 {
                    assert(ev[i as int].0 != name@);
                } else if idx < i as int {
                    assert(ev[idx].0 != name@);
                } else if idx > i as int {
                    assert(ev[i as int].0 != name@);
                }
            }
            return Some(i);
        }
        i = i + 1;
    }
    proof {
        lemma_entries_view(entries@);
        lemma_entry_index(ev, name@);
    }
    None
}

} // verus!
