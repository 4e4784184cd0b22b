//! The pruning traversal: enumerate a tree and emit exactly the candidate
//! directories, descending into everything else.
//!
//! A directory is emitted as a candidate as soon as a rule matches it, and
//! nothing below it is visited then: the whole subtree is the deletion unit,
//! and listing it would cost the walk the very work pruning is for. Hidden
//! directories are skipped entirely unless the configuration includes them.

use crate::tree::{
    distinct_names, entries_view, entry_index, file_names, is_prefix_of, lemma_entries_view,
    lemma_entry_index, lemma_node_entry_decreases, lemma_wf_entries_index, lookup, path_view, wf,
    wf_entries, FsEntry, FsNode, Tree,
};
use crate::{
    matches_some_rule, rule_matches, rules_view, Candidate, FileToFolderMatch, Folder,
    IsFolderToRemove, RunConfig,
};
use vstd::prelude::*;

verus! {

/// A name is hidden when it starts with a dot, as `.git` does.
pub open spec fn is_hidden(name: Seq<char>) -> bool {
    name.len() > 0 && name[0] == '.'
}

/// Whether the walk considers a directory entry of this name at all.
pub open spec fn visits(name: Seq<char>, include_hidden: bool) -> bool {
    include_hidden || !is_hidden(name)
}

/// The candidates the walk of subtree `t` (rooted at path `base`) emits, in
/// traversal order. The root itself is never a candidate; a matched child is
/// emitted and not descended into.
pub open spec fn candidates(
    t: Tree,
    base: Seq<Seq<char>>,
    include_hidden: bool,
    rules: Seq<(Seq<char>, Seq<char>)>,
) -> Seq<Candidate>
    decreases t,
{
    match t {
        Tree::File { .. } => Seq::empty(),
        Tree::Dir { entries } => candidates_in_entries(
            entries,
            file_names(entries),
            base,
            include_hidden,
            rules,
        ),
    }
}

/// [`candidates`] of every entry of one directory, concatenated in order.
pub open spec fn candidates_in_entries(
    es: Seq<(Seq<char>, Tree)>,
    parent_files: Seq<Seq<char>>,
    base: Seq<Seq<char>>,
    include_hidden: bool,
    rules: Seq<(Seq<char>, Seq<char>)>,
) -> Seq<Candidate>
    decreases es,
{
    if es.len() == 0 {
        Seq::empty()
    } else {
        candidates_of_entry(es[0], parent_files, base, include_hidden, rules)
            + candidates_in_entries(es.drop_first(), parent_files, base, include_hidden, rules)
    }
}

/// What one directory entry contributes to the walk: itself when a rule
/// matches it (pruning), its own subtree's candidates otherwise, and nothing
/// at all when it is a file or a skipped hidden directory.
pub open spec fn candidates_of_entry(
    e: (Seq<char>, Tree),
    parent_files: Seq<Seq<char>>,
    base: Seq<Seq<char>>,
    include_hidden: bool,
    rules: Seq<(Seq<char>, Seq<char>)>,
) -> Seq<Candidate>
    decreases e,
{
    if e.1 is Dir && visits(e.0, include_hidden) {
        let c = Candidate { path: base.push(e.0), parent_files };
        if matches_some_rule(rules, c) {
            seq![c]
        } else {
            candidates(e.1, base.push(e.0), include_hidden, rules)
        }
    } else {
        Seq::empty()
    }
}

/// The file names of the directory at relative path `rel` of `t`; empty when
/// nothing, or no directory, lives there.
pub open spec fn dir_files_at(t: Tree, rel: Seq<Seq<char>>) -> Seq<Seq<char>> {
    match lookup(t, rel) {
        Some(d) => if d is Dir {
            file_names(d->entries)
        } else {
            Seq::empty()
        },
        None => Seq::empty(),
    }
}

/// A strict ancestor `a` of an emitted candidate was itself visited and not
/// matched: the walk descended through it instead of pruning at it.
pub open spec fn ancestor_clear(
    t: Tree,
    base: Seq<Seq<char>>,
    rules: Seq<(Seq<char>, Seq<char>)>,
    include_hidden: bool,
    a: Seq<Seq<char>>,
) -> bool {
    &&& visits(a.last(), include_hidden)
    &&& !matches_some_rule(
        rules,
        Candidate {
            path: a,
            parent_files: dir_files_at(t, a.skip(base.len() as int).drop_last()),
        },
    )
}

/// What the walk guarantees of every emitted candidate: it lies strictly
/// below `base`, some rule flags it, it names an existing, visited directory
/// of the tree, its recorded parent files are really its parent's files, and
/// every strict ancestor below `base` was visited without matching.
pub open spec fn candidate_fact(
    t: Tree,
    base: Seq<Seq<char>>,
    include_hidden: bool,
    rules: Seq<(Seq<char>, Seq<char>)>,
    c: Candidate,
) -> bool {
    &&& c.path.len() > base.len()
    &&& is_prefix_of(base, c.path)
    &&& matches_some_rule(rules, c)
    &&& (lookup(t, c.path.skip(base.len() as int)) matches Some(d) && d is Dir)
    &&& visits(c.path.last(), include_hidden)
    &&& c.parent_files == dir_files_at(t, c.path.skip(base.len() as int).drop_last())
    &&& forall|k: int|
        base.len() < k < c.path.len() ==> ancestor_clear(
            t,
            base,
            rules,
            include_hidden,
            #[trigger] c.path.take(k),
        )
}

/// Soundness and pruning of the walk: every emitted candidate satisfies
/// [`candidate_fact`], and no emitted candidate lies inside another (their
/// paths are pairwise prefix-free), so the emitted subtrees are disjoint.
pub proof fn lemma_candidates_facts(
    t: Tree,
    base: Seq<Seq<char>>,
    include_hidden: bool,
    rules: Seq<(Seq<char>, Seq<char>)>,
)
    requires
        wf(t),
    ensures
        ({
            let cs = candidates(t, base, include_hidden, rules);
            &&& forall|m: int|
                0 <= m < cs.len() ==> candidate_fact(
                    t,
                    base,
                    include_hidden,
                    rules,
                    #[trigger] cs[m],
                )
            &&& forall|m1: int, m2: int|
                #![trigger cs[m1], cs[m2]]
                0 <= m1 < cs.len() && 0 <= m2 < cs.len() && m1 != m2 ==> !is_prefix_of(
                    cs[m1].path,
                    cs[m2].path,
                )
        }),
    decreases t, 1int,
{
    if t is Dir {
        lemma_cie_facts(t->entries, 0, file_names(t->entries), base, include_hidden, rules);
        assert(t->entries.skip(0) =~= t->entries);
        assert(candidates(t, base, include_hidden, rules) == candidates_in_entries(
            t->entries.skip(0),
            file_names(t->entries),
            base,
            include_hidden,
            rules,
        ));
    }
}

/// [`lemma_candidates_facts`] for the entries of one directory, from index
/// `i` on; additionally, each candidate's first component below `base` is the
/// name of one of those entries.
proof fn lemma_cie_facts(
    es: Seq<(Seq<char>, Tree)>,
    i: int,
    pf: Seq<Seq<char>>,
    base: Seq<Seq<char>>,
    include_hidden: bool,
    rules: Seq<(Seq<char>, Seq<char>)>,
)
    requires
        distinct_names(es),
        wf_entries(es),
        0 <= i <= es.len(),
        pf == file_names(es),
    ensures
        ({
            let t = Tree::Dir { entries: es };
            let cs = candidates_in_entries(es.skip(i), pf, base, include_hidden, rules);
            &&& forall|m: int|
                0 <= m < cs.len() ==> candidate_fact(
                    t,
                    base,
                    include_hidden,
                    rules,
                    #[trigger] cs[m],
                )
            &&& forall|m: int|
                0 <= m < cs.len() ==> exists|j: int|
                    i <= j < es.len() && (#[trigger] cs[m]).path[base.len() as int] == es[j].0
            &&& forall|m1: int, m2: int|
                #![trigger cs[m1], cs[m2]]
                0 <= m1 < cs.len() && 0 <= m2 < cs.len() && m1 != m2 ==> !is_prefix_of(
                    cs[m1].path,
                    cs[m2].path,
                )
        }),
    decreases es, 0int, es.len() - i,
{
    let t = Tree::Dir { entries: es };
    let cs = candidates_in_entries(es.skip(i), pf, base, include_hidden, rules);
    lemma_wf_entries_index(es);
    if i == es.len() {
        assert(es.skip(i) =~= Seq::<(Seq<char>, Tree)>::empty());
        assert(cs.len() == 0);
    } else {
        lemma_candidates_entries_skip(es, pf, base, include_hidden, rules, i);
        lemma_cie_facts(es, i + 1, pf, base, include_hidden, rules);
        let e = es[i];
        let head = candidates_of_entry(e, pf, base, include_hidden, rules);
        let tail = candidates_in_entries(es.skip(i + 1), pf, base, include_hidden, rules);
        assert(cs == head + tail);
        // entry i is the one entry of its name
        lemma_entry_index(es, e.0);
        let idx = entry_index(es, e.0);
        assert(idx == i) by {
            if idx < i {
                assert(es[idx].0 != es[i].0);
            } else if idx > i {
                assert(es[i].0 != es[idx].0);
            }
        }
        if e.1 is Dir && visits(e.0, include_hidden) {
            let below = base.push(e.0);
            let c0 = Candidate { path: below, parent_files: pf };
            if matches_some_rule(rules, c0) {
                assert(head == seq![c0]);
                assert(candidate_fact(t, base, include_hidden, rules, c0)) by {
                    assert(is_prefix_of(base, below));
                    assert(below.skip(base.len() as int) =~= seq![e.0]);
                    assert(seq![e.0][0] == e.0);
                    assert(entry_index(es, seq![e.0][0]) == i);
                    assert(seq![e.0].drop_first() =~= Seq::<Seq<char>>::empty());
                    assert(lookup(es[i].1, seq![e.0].drop_first()) == Some(es[i].1));
                    assert(lookup(t, seq![e.0]) == Some(e.1));
                    assert(below.last() == e.0);
                    assert(below.skip(base.len() as int).drop_last() =~= Seq::<Seq<char>>::empty());
                    assert(lookup(t, Seq::<Seq<char>>::empty()) == Some(t));
                    assert(dir_files_at(t, below.skip(base.len() as int).drop_last()) == pf);
                }
                assert(c0.path[base.len() as int] == es[i].0);
            } else {
                assert(decreases_to!(es => es[i]));
                assert(decreases_to!(es[i] => es[i].1));
                lemma_candidates_facts(e.1, below, include_hidden, rules);
                assert(head == candidates(e.1, below, include_hidden, rules));
                assert forall|m: int| 0 <= m < head.len() implies candidate_fact(
                    t,
                    base,
                    include_hidden,
                    rules,
                    #[trigger] head[m],
                ) && head[m].path[base.len() as int] == es[i].0 by {
                    let c = head[m];
                    let bl = base.len() as int;
                    assert(candidate_fact(e.1, below, include_hidden, rules, c));
                    assert(c.path[bl] == below[bl]);
                    assert(is_prefix_of(base, c.path)) by {
                        assert(forall|x: int| 0 <= x < base.len() ==> base[x] == below[x]);
                    }
                    let rel = c.path.skip(bl);
                    assert(rel[0] == e.0);
                    assert(rel.drop_first() =~= c.path.skip(bl + 1));
                    assert(lookup(t, rel) == lookup(e.1, c.path.skip(bl + 1)));
                    // the recorded parent files sit one level deeper in `t`
                    let rel_parent = c.path.skip(bl).drop_last();
                    assert(rel_parent.len() > 0);
                    assert(rel_parent[0] == c.path[bl]);
                    assert(rel_parent.drop_first() =~= c.path.skip(bl + 1).drop_last());
                    assert(lookup(t, rel_parent) == lookup(
                        e.1,
                        c.path.skip(bl + 1).drop_last(),
                    ));
                    assert(c.parent_files == dir_files_at(t, rel_parent));
                    // every strict ancestor was visited without matching
                    assert forall|k: int| bl < k < c.path.len() implies ancestor_clear(
                        t,
                        base,
                        rules,
                        include_hidden,
                        #[trigger] c.path.take(k),
                    ) by {
                        let a = c.path.take(k);
                        if k == bl + 1 {
                            assert(a =~= below);
                            assert(a.skip(bl).drop_last() =~= Seq::<Seq<char>>::empty());
                            assert(lookup(t, Seq::<Seq<char>>::empty()) == Some(t));
                            assert(dir_files_at(t, a.skip(bl).drop_last()) == pf);
                            assert(a.last() == e.0);
                        } else {
                            assert(ancestor_clear(e.1, below, rules, include_hidden, a));
                            let ap = a.skip(bl).drop_last();
                            assert(ap.len() > 0);
                            assert(ap[0] == c.path[bl]);
                            assert(ap.drop_first() =~= a.skip(bl + 1).drop_last());
                            assert(lookup(t, ap) == lookup(e.1, a.skip(bl + 1).drop_last()));
                            assert(dir_files_at(t, ap) == dir_files_at(
                                e.1,
                                a.skip(bl + 1).drop_last(),
                            ));
                        }
                    }
                }
            }
        } else {
            assert(head =~= Seq::<Candidate>::empty());
        }
        // every head candidate starts with the name of entry i
        assert forall|m: int| 0 <= m < cs.len() implies candidate_fact(
            t,
            base,
            include_hidden,
            rules,
            #[trigger] cs[m],
        ) && exists|j: int| i <= j < es.len() && cs[m].path[base.len() as int] == es[j].0 by {
            if m < head.len() {
                assert(cs[m] == head[m]);
                assert(cs[m].path[base.len() as int] == es[i].0);
            } else {
                assert(cs[m] == tail[m - head.len()]);
                let j0 = choose|j: int|
                    i + 1 <= j < es.len()
                        && tail[m - head.len()].path[base.len() as int] == es[j].0;
                assert(i <= j0 < es.len() && cs[m].path[base.len() as int] == es[j0].0);
            }
        }
        // pairwise prefix-freedom
        assert forall|m1: int, m2: int|
            #![trigger cs[m1], cs[m2]]
            0 <= m1 < cs.len() && 0 <= m2 < cs.len() && m1 != m2 implies !is_prefix_of(
            cs[m1].path,
            cs[m2].path,
        ) by {
            let hl = head.len() as int;
            if m1 < hl && m2 < hl {
                // both from entry i: the matched case emits a single
                // candidate, the descending case is covered by the subtree's
                // own pairwise fact
                if e.1 is Dir && visits(e.0, include_hidden) && !matches_some_rule(
                    rules,
                    Candidate { path: base.push(e.0), parent_files: pf },
                ) {
                    assert(!is_prefix_of(head[m1].path, head[m2].path));
                }
            } else if m1 >= hl && m2 >= hl {
                assert(cs[m1] == tail[m1 - hl] && cs[m2] == tail[m2 - hl]);
            } else {
                // one from entry i, one from a later entry: their names at
                // position base.len() differ, so neither path can be a
                // prefix of the other
                let ma = if m1 < hl {
                    m1
                } else {
                    m2
                };
                let mb = if m1 < hl {
                    m2
                } else {
                    m1
                };
                assert(cs[ma] == head[ma] && cs[mb] == tail[mb - hl]);
                assert(cs[ma].path[base.len() as int] == es[i].0);
                let j0 = choose|j: int|
                    i + 1 <= j < es.len() && tail[mb - hl].path[base.len() as int] == es[j].0;
                assert(es[i].0 != es[j0].0);
                assert(cs[ma].path[base.len() as int] != cs[mb].path[base.len() as int]);
                assert(cs[ma].path.len() > base.len() && cs[mb].path.len() > base.len());
                if is_prefix_of(cs[ma].path, cs[mb].path) {
                    assert(cs[ma].path[base.len() as int] == cs[mb].path[base.len() as int]);
                }
                if is_prefix_of(cs[mb].path, cs[ma].path) {
                    assert(cs[mb].path[base.len() as int] == cs[ma].path[base.len() as int]);
                }
            }
        }
    }
}

/// An element that one entry contributes is an element of the whole
/// directory's contribution.
proof fn lemma_cie_contains(
    es: Seq<(Seq<char>, Tree)>,
    i: int,
    j: int,
    pf: Seq<Seq<char>>,
    base: Seq<Seq<char>>,
    include_hidden: bool,
    rules: Seq<(Seq<char>, Seq<char>)>,
    mi: int,
)
    requires
        0 <= i <= j < es.len(),
        0 <= mi < candidates_of_entry(es[j], pf, base, include_hidden, rules).len(),
    ensures
        exists|m: int|
            0 <= m < candidates_in_entries(es.skip(i), pf, base, include_hidden, rules).len()
                && #[trigger] candidates_in_entries(es.skip(i), pf, base, include_hidden, rules)[m]
                == candidates_of_entry(es[j], pf, base, include_hidden, rules)[mi],
    decreases j - i,
{
    lemma_candidates_entries_skip(es, pf, base, include_hidden, rules, i);
    let head = candidates_of_entry(es[i], pf, base, include_hidden, rules);
    let tail = candidates_in_entries(es.skip(i + 1), pf, base, include_hidden, rules);
    let cs = candidates_in_entries(es.skip(i), pf, base, include_hidden, rules);
    assert(cs == head + tail);
    if i == j {
        assert(cs[mi] == head[mi]);
    } else {
        lemma_cie_contains(es, i + 1, j, pf, base, include_hidden, rules, mi);
        let x = candidates_of_entry(es[j], pf, base, include_hidden, rules)[mi];
        let m0 = choose|m: int| 0 <= m < tail.len() && tail[m] == x;
        assert(cs[head.len() + m0] == tail[m0]);
    }
}

/// Completeness of the walk: a directory that exists in the tree, is flagged
/// by some rule, and whose strict ancestors are all visited and unmatched,
/// is emitted as a candidate.
pub proof fn lemma_candidates_complete(
    t: Tree,
    base: Seq<Seq<char>>,
    include_hidden: bool,
    rules: Seq<(Seq<char>, Seq<char>)>,
    p: Seq<Seq<char>>,
)
    requires
        wf(t),
        p.len() > base.len(),
        is_prefix_of(base, p),
        lookup(t, p.skip(base.len() as int)) matches Some(d) && d is Dir,
        visits(p.last(), include_hidden),
        matches_some_rule(
            rules,
            Candidate {
                path: p,
                parent_files: dir_files_at(t, p.skip(base.len() as int).drop_last()),
            },
        ),
        forall|k: int|
            base.len() < k < p.len() ==> ancestor_clear(
                t,
                base,
                rules,
                include_hidden,
                #[trigger] p.take(k),
            ),
    ensures
        exists|m: int|
            0 <= m < candidates(t, base, include_hidden, rules).len() && (#[trigger] candidates(
                t,
                base,
                include_hidden,
                rules,
            )[m]).path == p,
    decreases t,
{
    let bl = base.len() as int;
    let es = t->entries;
    let rel = p.skip(bl);
    assert(rel.len() > 0);
    let name = rel[0];
    let j = entry_index(es, name);
    lemma_entry_index(es, name);
    assert(j >= 0);
    let e = es[j];
    let pf = file_names(es);
    lemma_wf_entries_index(es);
    assert(es.skip(0) =~= es);
    assert(candidates(t, base, include_hidden, rules) == candidates_in_entries(
        es.skip(0),
        pf,
        base,
        include_hidden,
        rules,
    ));
    let coe = candidates_of_entry(e, pf, base, include_hidden, rules);
    if p.len() == bl + 1 {
        // the entry at `name` is the candidate itself
        assert(rel.drop_first() =~= Seq::<Seq<char>>::empty());
        assert(lookup(e.1, rel.drop_first()) == Some(e.1));
        assert(e.1 is Dir);
        assert(p.last() == name);
        let below = base.push(e.0);
        assert(below =~= p);
        let c0 = Candidate { path: below, parent_files: pf };
        assert(rel.drop_last() =~= Seq::<Seq<char>>::empty());
        assert(lookup(t, Seq::<Seq<char>>::empty()) == Some(t));
        assert(dir_files_at(t, p.skip(bl).drop_last()) == pf);
        assert(c0 == (Candidate { path: p, parent_files: dir_files_at(t, p.skip(bl).drop_last()) }));
        assert(matches_some_rule(rules, c0));
        assert(coe == seq![c0]);
        lemma_cie_contains(es, 0, j, pf, base, include_hidden, rules, 0);
    } else {
        // descend through the entry at `name`
        let a = p.take(bl + 1);
        assert(a.last() == p[bl] && p[bl] == name);
        assert(ancestor_clear(t, base, rules, include_hidden, a));
        let below = base.push(e.0);
        assert(below =~= a);
        assert(a.skip(bl).drop_last() =~= Seq::<Seq<char>>::empty());
        assert(lookup(t, Seq::<Seq<char>>::empty()) == Some(t));
        assert(dir_files_at(t, a.skip(bl).drop_last()) == pf);
        let c0 = Candidate { path: below, parent_files: pf };
        assert(!matches_some_rule(rules, c0));
        assert(rel.drop_first() =~= p.skip(bl + 1));
        assert(lookup(e.1, p.skip(bl + 1)) == lookup(t, rel));
        assert(e.1 is Dir) by {
            assert(p.skip(bl + 1).len() > 0);
        }
        assert(visits(e.0, include_hidden));
        assert(coe == candidates(e.1, below, include_hidden, rules));
        // lift every premise one level down
        assert(is_prefix_of(below, p)) by {
            assert(forall|x: int| 0 <= x < a.len() ==> a[x] == p[x]);
        }
        assert(rel.drop_last() =~= p.skip(bl + 1).drop_last().insert(0, name)) by {
            assert(rel.drop_last().len() == p.skip(bl + 1).drop_last().len() + 1);
        }
        assert(rel.drop_last()[0] == name);
        assert(rel.drop_last().drop_first() =~= p.skip(bl + 1).drop_last());
        assert(lookup(t, rel.drop_last()) == lookup(e.1, p.skip(bl + 1).drop_last()));
        assert(dir_files_at(e.1, p.skip(bl + 1).drop_last()) == dir_files_at(t, rel.drop_last()));
        assert forall|k: int| bl + 1 < k < p.len() implies ancestor_clear(
            e.1,
            below,
            rules,
            include_hidden,
            #[trigger] p.take(k),
        ) by {
            let ak = p.take(k);
            assert(ancestor_clear(t, base, rules, include_hidden, ak));
            let akp = ak.skip(bl).drop_last();
            assert(akp.len() > 0);
            assert(akp[0] == p[bl]);
            assert(akp.drop_first() =~= ak.skip(bl + 1).drop_last());
            assert(lookup(t, akp) == lookup(e.1, ak.skip(bl + 1).drop_last()));
            assert(dir_files_at(e.1, ak.skip(bl + 1).drop_last()) == dir_files_at(t, akp));
        }
        assert(decreases_to!(es => es[j]));
        assert(decreases_to!(es[j] => es[j].1));
        lemma_candidates_complete(e.1, below, include_hidden, rules, p);
        let mi = choose|m: int|
            0 <= m < candidates(e.1, below, include_hidden, rules).len() && (#[trigger] candidates(
                e.1,
                below,
                include_hidden,
                rules,
            )[m]).path == p;
        lemma_cie_contains(es, 0, j, pf, base, include_hidden, rules, mi);
    }
}

/// The ghost image of a list of emitted folders.
pub open spec fn folders_view(fs: Seq<Folder>) -> Seq<Candidate> {
    fs.map_values(|f: Folder| f@)
}

/// Splits the entry contributions at index `i`.
proof fn lemma_candidates_entries_skip(
    es: Seq<(Seq<char>, Tree)>,
    parent_files: Seq<Seq<char>>,
    base: Seq<Seq<char>>,
    include_hidden: bool,
    rules: Seq<(Seq<char>, Seq<char>)>,
    i: int,
)
    requires
        0 <= i < es.len(),
    ensures
        candidates_in_entries(es.skip(i), parent_files, base, include_hidden, rules)
            == candidates_of_entry(es[i], parent_files, base, include_hidden, rules)
            + candidates_in_entries(es.skip(i + 1), parent_files, base, include_hidden, rules),
{
    assert(es.skip(i).drop_first() =~= es.skip(i + 1));
    assert(es.skip(i)[0] == es[i]);
}

/// Splits the file-name collection at index `i`.
proof fn lemma_file_names_skip(es: Seq<(Seq<char>, Tree)>, i: int)
    requires
        0 <= i < es.len(),
    ensures
        file_names(es.skip(i)) == (if es[i].1 is File {
            seq![es[i].0]
        } else {
            Seq::<Seq<char>>::empty()
        }) + file_names(es.skip(i + 1)),
{
    assert(es.skip(i).drop_first() =~= es.skip(i + 1));
    assert(es.skip(i)[0] == es[i]);
}

/// A copy of a list of names.
fn clone_names(names: &Vec<String>) -> (r: Vec<String>)
    ensures
        r@ =~= names@,
{
    let mut r: Vec<String> = Vec::new();
    let mut i: usize = 0;
    while i < names.len()
        invariant
            i <= names.len(),
            r@ =~= names@.take(i as int),
        decreases names.len() - i,
    {
        r.push(names[i].clone());
        i = i + 1;
    }
    r
}

/// Whether the name is hidden, i.e. starts with a dot.
fn is_hidden_name(name: &String) -> (r: bool)
    ensures
        r == is_hidden(name@),
{
    if name.as_str().unicode_len() == 0 {
        false
    } else {
        name.as_str().get_char(0) == '.'
    }
}

/// Names of the regular files among the entries, in order.
fn collect_file_names(entries: &Vec<FsEntry>) -> (r: Vec<String>)
    ensures
        path_view(r@) == file_names(entries_view(entries@)),
{
    let ghost ev = entries_view(entries@);
    proof {
        lemma_entries_view(entries@);
        assert(ev.skip(0) =~= ev);
    }
    let mut r: Vec<String> = Vec::new();
    let mut i: usize = 0;
    while i < entries.len()
        invariant
            i <= entries.len(),
            ev == entries_view(entries@),
            ev.len() == entries@.len(),
            forall|k: int|
                0 <= k < entries.len() ==> #[trigger] ev[k] == (
                    entries@[k].name@,
                    crate::tree::node_view(entries@[k].node),
                ),
            path_view(r@) + file_names(ev.skip(i as int)) =~= file_names(ev),
        decreases entries.len() - i,
    {
        proof {
            lemma_file_names_skip(ev, i as int);
        }
        let keep = match &entries[i].node {
            FsNode::File { .. } => true,
            FsNode::Dir { .. } => false,
        };
        if keep {
            r.push(entries[i].name.clone());
            proof {
                assert(path_view(r@) =~= path_view(r@.drop_last()).push(entries@[i as int].name@));
            }
        }
        i = i + 1;
        proof {
            assert(path_view(r@) + file_names(ev.skip(i as int)) =~= file_names(ev));
        }
    }
    proof {
        assert(ev.skip(entries.len() as int) =~= Seq::<(Seq<char>, Tree)>::empty());
        assert(path_view(r@) =~= file_names(ev));
    }
    r
}

/// Whether any rule of the list flags this folder; rules are tried in order.
fn matches_any_rule(rules: &Vec<FileToFolderMatch>, folder: &Folder) -> (r: bool)
    ensures
        r == matches_some_rule(rules_view(rules@), folder@),
{
    let mut i: usize = 0;
    while i < rules.len()
        invariant
            i <= rules.len(),
            forall|k: int| 0 <= k < i ==> !rule_matches(#[trigger] rules_view(rules@)[k], folder@),
        decreases rules.len() - i,
    {
        if rules[i].is_folder_to_remove(folder) {
            proof {
                assert(rules_view(rules@)[i as int] == rules@[i as int]@);
            }
            return true;
        }
        proof {
            assert(rules_view(rules@)[i as int] == rules@[i as int]@);
        }
        i = i + 1;
    }
    false
}

/// Walks the tree from the root and returns every candidate the rules flag,
/// in traversal order, without ever looking inside one.
pub fn walk(root: &FsNode, config: &RunConfig, rules: &Vec<FileToFolderMatch>) -> (found: Vec<
    Folder,
>)
    ensures
        folders_view(found@) == candidates(
            root@,
            Seq::empty(),
            config.include_hidden,
            rules_view(rules@),
        ),
{
    let mut found: Vec<Folder> = Vec::new();
    let prefix: Vec<String> = Vec::new();
    proof {
        assert(path_view(prefix@) =~= Seq::<Seq<char>>::empty());
    }
    walk_into(root, &prefix, config.include_hidden, rules, &mut found);
    proof {
        assert(folders_view(Seq::<Folder>::empty()) =~= Seq::<Candidate>::empty());
    }
    found
}

/// Adds the candidates of `node` (rooted at path `prefix`) to `out`.
fn walk_into(
    node: &FsNode,
    prefix: &Vec<String>,
    include_hidden: bool,
    rules: &Vec<FileToFolderMatch>,
    out: &mut Vec<Folder>,
)
    ensures
        folders_view(final(out)@) == folders_view(old(out)@) + candidates(
            node@,
            path_view(prefix@),
            include_hidden,
            rules_view(rules@),
        ),
    decreases *node,
{
    let ghost base = path_view(prefix@);
    let ghost rv = rules_view(rules@);
    match node {
        FsNode::File { .. } => {
            proof {
                assert(folders_view(out@) =~= folders_view(out@) + candidates(
                    node@,
                    base,
                    include_hidden,
                    rv,
                ));
            }
        },
        FsNode::Dir { entries } => {
            let ghost ev = entries_view(entries@);
            let ghost out0 = out@;
            let parent_files = collect_file_names(entries);
            let ghost pf = path_view(parent_files@);
            proof {
                lemma_entries_view(entries@);
                assert(ev.skip(0) =~= ev);
                assert(folders_view(out@) + candidates_in_entries(
                    ev.skip(0),
                    pf,
                    base,
                    include_hidden,
                    rv,
                ) =~= folders_view(out0) + candidates_in_entries(
                    ev,
                    pf,
                    base,
                    include_hidden,
                    rv,
                ));
            }
            let mut i: usize = 0;
            while i < entries.len()
                invariant
                    i <= entries.len(),
                    *node == (FsNode::Dir { entries: *entries }),
                    ev == entries_view(entries@),
                    ev.len() == entries@.len(),
                    forall|k: int|
                        0 <= k < entries.len() ==> #[trigger] ev[k] == (
                            entries@[k].name@,
                            crate::tree::node_view(entries@[k].node),
                        ),
                    pf == path_view(parent_files@),
                    base == path_view(prefix@),
                    rv == rules_view(rules@),
                    folders_view(out@) + candidates_in_entries(
                        ev.skip(i as int),
                        pf,
                        base,
                        include_hidden,
                        rv,
                    ) == folders_view(out0) + candidates_in_entries(
                        ev,
                        pf,
                        base,
                        include_hidden,
                        rv,
                    ),
                decreases entries.len() - i,
            {
                proof {
                    lemma_candidates_entries_skip(ev, pf, base, include_hidden, rv, i as int);
                }
                let ghost entry_view = ev[i as int];
                let is_dir = match &entries[i].node {
                    FsNode::Dir { .. } => true,
                    FsNode::File { .. } => false,
                };
                let visited = is_dir && (include_hidden || !is_hidden_name(&entries[i].name));
                if visited {
                    let mut child_path = clone_names(prefix);
                    child_path.push(entries[i].name.clone());
                    let folder = Folder {
                        path: child_path,
                        parent_files: clone_names(&parent_files),
                    };
                    proof {
                        assert(path_view(folder.path@) =~= base.push(entry_view.0));
                        assert(folder@ == (Candidate { path: base.push(entry_view.0), parent_files: pf }));
                    }
                    if matches_any_rule(rules, &folder) {
                        let ghost before = out@;
                        out.push(folder);
                        proof {
                            assert(folders_view(out@) =~= folders_view(before) + seq![folder@]);
                            assert(candidates_of_entry(entry_view, pf, base, include_hidden, rv)
                                =~= seq![folder@]);
                            assert(folders_view(out@) + candidates_in_entries(
                                ev.skip(i + 1),
                                pf,
                                base,
                                include_hidden,
                                rv,
                            ) =~= folders_view(out0) + candidates_in_entries(
                                ev,
                                pf,
                                base,
                                include_hidden,
                                rv,
                            ));
                        }
                    } else {
                        proof {
                            lemma_node_entry_decreases(*node, i as int);
                        }
                        walk_into(&entries[i].node, &folder.path, include_hidden, rules, out);
                        proof {
                            assert(candidates_of_entry(entry_view, pf, base, include_hidden, rv)
                                =~= candidates(
                                crate::tree::node_view(entries@[i as int].node),
                                base.push(entry_view.0),
                                include_hidden,
                                rv,
                            ));
                            assert(folders_view(out@) + candidates_in_entries(
                                ev.skip(i + 1),
                                pf,
                                base,
                                include_hidden,
                                rv,
                            ) =~= folders_view(out0) + candidates_in_entries(
                                ev,
                                pf,
                                base,
                                include_hidden,
                                rv,
                            ));
                        }
                    }
                } else {
                    proof {
                        assert(candidates_of_entry(entry_view, pf, base, include_hidden, rv)
                            =~= Seq::<Candidate>::empty());
                        assert(folders_view(out@) + candidates_in_entries(
                            ev.skip(i + 1),
                            pf,
                            base,
                            include_hidden,
                            rv,
                        ) =~= folders_view(out0) + candidates_in_entries(
                            ev,
                            pf,
                            base,
                            include_hidden,
                            rv,
                        ));
                    }
                }
                i = i + 1;
            }
            proof {
                assert(ev.skip(entries.len() as int) =~= Seq::<(Seq<char>, Tree)>::empty());
                assert(folders_view(out@) =~= folders_view(out0) + candidates(
                    node@,
                    base,
                    include_hidden,
                    rv,
                ));
            }
        },
    }
}

} // verus!
