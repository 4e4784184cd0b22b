//! The orchestration loop: consume candidates sequentially, measure each,
//! ask for a decision, clean accordingly, and account the freed bytes.
//!
//! Consumption is strictly sequential. A candidate's size is computed
//! strictly before any deletion decision is acted upon; a `Quit` decision
//! stops the run at once, and no candidate after it is touched. The running
//! total always equals the bytes the tree has lost since the walk began.

use crate::cleaner::DoCleanUp;
use crate::decider::Decide;
use crate::tree::{
    is_prefix_of, lemma_lookup_none_extends, lemma_lookup_split, lemma_prefix_trans,
    lemma_remove_at_kind_files, lemma_remove_at_lookup, lemma_remove_at_size, lemma_remove_at_wf,
    lookup, remove_at, tree_size, wf, FsNode, Tree,
};
use crate::walker::{
    ancestor_clear, candidate_fact, candidates, dir_files_at, folders_view,
    lemma_candidates_complete, lemma_candidates_facts, walk,
};
use crate::{
    matches_some_rule, rule_matches, rules_view, Candidate, FileToFolderMatch, Folder,
    FolderProcessed, IsFolderToRemove, RunConfig,
};
use vstd::prelude::*;

verus! {

/// What a finished (or aborted) run reports.
pub struct CleanupReport {
    /// Bytes freed by the candidates that were cleaned.
    pub total_freed: u64,
    /// Whether an operator decision ended the run early.
    pub aborted: bool,
    /// One outcome per candidate processed, in consumption order.
    pub outcomes: Vec<FolderProcessed>,
}

/// The tree after removing each of `paths` in order.
pub open spec fn remove_seq(t: Tree, paths: Seq<Seq<Seq<char>>>) -> Tree
    decreases paths.len(),
{
    if paths.len() == 0 {
        t
    } else {
        remove_seq(remove_at(t, paths[0]), paths.drop_first())
    }
}

/// Bytes freed according to a list of outcomes: `Cleaned(n)` adds `n`, every
/// other outcome leaves the total unchanged.
pub open spec fn sum_cleaned(outs: Seq<FolderProcessed>) -> int
    decreases outs.len(),
{
    if outs.len() == 0 {
        0
    } else {
        sum_cleaned(outs.drop_last()) + (match outs.last() {
            FolderProcessed::Cleaned(n) => n as int,
            _ => 0,
        })
    }
}

/// The paths of the candidates that were cleaned, in consumption order.
pub open spec fn cleaned_paths(cs: Seq<Candidate>, outs: Seq<FolderProcessed>) -> Seq<
    Seq<Seq<char>>,
>
    decreases outs.len(),
{
    if outs.len() == 0 {
        Seq::empty()
    } else {
        let rest = cleaned_paths(cs, outs.drop_last());
        if outs.last() is Cleaned {
            rest.push(cs[outs.len() - 1].path)
        } else {
            rest
        }
    }
}

/// What one recorded outcome says about the candidate it belongs to, held
/// against the tree at the start of the run (`t0`) and now (`tcur`).
pub open spec fn outcome_ok(
    t0: Tree,
    tcur: Tree,
    c: Candidate,
    o: FolderProcessed,
    deletes: bool,
) -> bool {
    match o {
        FolderProcessed::Cleaned(n) => {
            &&& deletes
            &&& lookup(t0, c.path) matches Some(s)
            &&& s is Dir
            &&& n == tree_size(s)
            &&& lookup(tcur, c.path) is None
        },
        FolderProcessed::Skipped => lookup(tcur, c.path) == lookup(t0, c.path),
        FolderProcessed::Abort => lookup(tcur, c.path) == lookup(t0, c.path),
        FolderProcessed::NoRuleMatch => false,
    }
}

/// Folding one more removal into an iterated removal.
proof fn lemma_remove_seq_snoc(t: Tree, paths: Seq<Seq<Seq<char>>>, p: Seq<Seq<char>>)
    ensures
        remove_seq(t, paths.push(p)) == remove_at(remove_seq(t, paths), p),
    decreases paths.len(),
{
    if paths.len() == 0 {
        assert(paths.push(p)[0] == p);
        assert(paths.push(p).drop_first() =~= Seq::<Seq<Seq<char>>>::empty());
        assert(remove_seq(remove_at(t, p), paths.push(p).drop_first()) == remove_at(t, p));
    } else {
        assert(paths.push(p)[0] == paths[0]);
        assert(paths.push(p).drop_first() =~= paths.drop_first().push(p));
        lemma_remove_seq_snoc(remove_at(t, paths[0]), paths.drop_first(), p);
        assert(remove_seq(t, paths.push(p)) == remove_seq(
            remove_at(t, paths[0]),
            paths.drop_first().push(p),
        ));
    }
}

/// The bytes one outcome frees: `Cleaned(n)` frees `n`, everything else
/// frees nothing.
pub open spec fn cleaned_bytes(o: FolderProcessed) -> int {
    match o {
        FolderProcessed::Cleaned(n) => n as int,
        _ => 0,
    }
}

/// Folds one outcome into the running total and says whether the run stops:
/// `Cleaned(n)` adds `n`, every other outcome leaves the total unchanged,
/// and only `Abort` stops consumption.
pub fn fold_outcome(total_freed: u64, outcome: FolderProcessed) -> (r: (u64, bool))
    requires
        total_freed + cleaned_bytes(outcome) <= u64::MAX,
    ensures
        r.0 == total_freed + cleaned_bytes(outcome),
        r.1 == (outcome is Abort),
{
    match outcome {
        FolderProcessed::Cleaned(n) => (total_freed + n, false),
        FolderProcessed::Abort => (total_freed, true),
        FolderProcessed::Skipped => (total_freed, false),
        FolderProcessed::NoRuleMatch => (total_freed, false),
    }
}

/// The paths of a list of candidates, in order.
pub open spec fn candidate_paths(cs: Seq<Candidate>) -> Seq<Seq<Seq<char>>> {
    cs.map_values(|c: Candidate| c.path)
}

/// A removal elsewhere leaves a place as it was: same existence, same kind,
/// same file names.
pub open spec fn preserved_at(t: Tree, t2: Tree, q: Seq<Seq<char>>) -> bool {
    &&& (lookup(t2, q) is Some <==> lookup(t, q) is Some)
    &&& (lookup(t, q) matches Some(a) ==> (lookup(t2, q) matches Some(b) && (a is Dir <==> b
        is Dir)))
    &&& dir_files_at(t2, q) == dir_files_at(t, q)
}

/// Whether one of the first `k` paths is a prefix of `q`, i.e. `q` lies in a
/// removed subtree.
pub open spec fn under_some(paths: Seq<Seq<Seq<char>>>, k: int, q: Seq<Seq<char>>) -> bool {
    exists|j: int| 0 <= j < k && is_prefix_of(#[trigger] paths[j], q)
}

/// Removing one directory subtree preserves every place that does not lie
/// inside it.
proof fn lemma_remove_at_preserved(t: Tree, p: Seq<Seq<char>>, q: Seq<Seq<char>>)
    requires
        wf(t),
        p.len() > 0,
        lookup(t, p) matches Some(d) && d is Dir,
        !is_prefix_of(p, q),
    ensures
        preserved_at(t, remove_at(t, p), q),
{
    lemma_remove_at_lookup(t, p, q);
    if is_prefix_of(q, p) {
        assert(q.len() < p.len());
        let y = lookup(t, q).unwrap();
        let suffix = p.skip(q.len() as int);
        assert(q + suffix =~= p);
        lemma_lookup_split(t, q, suffix);
        assert(lookup(y, suffix) == lookup(t, p));
        lemma_remove_at_kind_files(y, suffix);
    }
}

/// Removing a list of pairwise disjoint directory subtrees, one after the
/// other: each removed place is gone, every place outside them is untouched.
proof fn lemma_remove_iter(t: Tree, paths: Seq<Seq<Seq<char>>>, k: int)
    requires
        wf(t),
        0 <= k <= paths.len(),
        forall|j: int| 0 <= j < paths.len() ==> (#[trigger] paths[j]).len() > 0,
        forall|j: int|
            0 <= j < paths.len() ==> (lookup(t, #[trigger] paths[j]) matches Some(d) && d is Dir),
        forall|j1: int, j2: int|
            #![trigger paths[j1], paths[j2]]
            0 <= j1 < paths.len() && 0 <= j2 < paths.len() && j1 != j2 ==> !is_prefix_of(
                paths[j1],
                paths[j2],
            ),
    ensures
        wf(remove_seq(t, paths.take(k))),
        forall|j: int|
            0 <= j < k ==> lookup(remove_seq(t, paths.take(k)), #[trigger] paths[j]) is None,
        forall|q: Seq<Seq<char>>|
            !under_some(paths, k, q) ==> #[trigger] preserved_at(t, remove_seq(t, paths.take(k)), q),
    decreases k,
{
    if k == 0 {
        assert(paths.take(0) =~= Seq::<Seq<Seq<char>>>::empty());
        assert(remove_seq(t, paths.take(0)) == t);
    } else {
        lemma_remove_iter(t, paths, k - 1);
        let tprev = remove_seq(t, paths.take(k - 1));
        let pk = paths[k - 1];
        assert(paths.take(k) =~= paths.take(k - 1).push(pk));
        lemma_remove_seq_snoc(t, paths.take(k - 1), pk);
        let tnext = remove_at(tprev, pk);
        assert(remove_seq(t, paths.take(k)) == tnext);
        // the path about to be removed still exists, as a directory
        assert(!under_some(paths, k - 1, pk)) by {
            if under_some(paths, k - 1, pk) {
                let j = choose|j: int| 0 <= j < k - 1 && is_prefix_of(#[trigger] paths[j], pk);
                assert(!is_prefix_of(paths[j], paths[k - 1]));
            }
        }
        assert(preserved_at(t, tprev, pk));
        assert(lookup(tprev, pk) matches Some(d) && d is Dir);
        lemma_remove_at_wf(tprev, pk);
        // removed places are gone
        assert forall|j: int| 0 <= j < k implies lookup(tnext, #[trigger] paths[j]) is None by {
            if j == k - 1 {
                lemma_remove_at_lookup(tprev, pk, pk);
            } else {
                lemma_remove_at_lookup(tprev, pk, paths[j]);
            }
        }
        // everything outside the removed subtrees is untouched
        assert forall|q: Seq<Seq<char>>| !under_some(paths, k, q) implies #[trigger] preserved_at(
            t,
            remove_seq(t, paths.take(k)),
            q,
        ) by {
            assert(!under_some(paths, k - 1, q)) by {
                if under_some(paths, k - 1, q) {
                    let j = choose|j: int| 0 <= j < k - 1 && is_prefix_of(#[trigger] paths[j], q);
                    assert(0 <= j < k && is_prefix_of(paths[j], q));
                }
            }
            assert(preserved_at(t, tprev, q));
            assert(!is_prefix_of(pk, q)) by {
                if is_prefix_of(pk, q) {
                    assert(0 <= k - 1 < k && is_prefix_of(paths[k - 1], q));
                }
            }
            lemma_remove_at_preserved(tprev, pk, q);
        }
    }
}

/// When every recorded outcome is `Cleaned`, the cleaned paths are exactly
/// the candidates' paths, in order. Together with
/// [`lemma_cleanup_idempotent`], a completed auto-confirmed run with a real
/// cleaner leaves a tree whose next walk emits nothing.
pub proof fn lemma_all_cleaned_paths(cs: Seq<Candidate>, outs: Seq<FolderProcessed>)
    requires
        outs.len() <= cs.len(),
        forall|i: int| 0 <= i < outs.len() ==> (#[trigger] outs[i]) matches FolderProcessed::Cleaned(_),
    ensures
        cleaned_paths(cs, outs) =~= candidate_paths(cs).take(outs.len() as int),
    decreases outs.len(),
{
    if outs.len() > 0 {
        lemma_all_cleaned_paths(cs, outs.drop_last());
        assert(forall|i: int|
            0 <= i < outs.drop_last().len() ==> outs.drop_last()[i] == outs[i]);
        assert(outs.last() matches FolderProcessed::Cleaned(_));
        assert(candidate_paths(cs).take(outs.len() as int) =~= candidate_paths(cs).take(
            outs.len() - 1,
        ).push(cs[outs.len() - 1].path));
    }
}

/// A completed run that cleaned every candidate (as an auto-confirmed run
/// with a real cleaner does) leaves a tree whose walk emits no candidate:
/// a second [`run_cleanup`] over it reports zero bytes freed, records no
/// outcome, and deletes nothing.
pub proof fn lemma_full_run_leaves_no_candidates(
    t0: Tree,
    t2: Tree,
    outs: Seq<FolderProcessed>,
    include_hidden: bool,
    rules: Seq<(Seq<char>, Seq<char>)>,
)
    requires
        wf(t0),
        outs.len() == candidates(t0, Seq::empty(), include_hidden, rules).len(),
        forall|i: int|
            0 <= i < outs.len() ==> (#[trigger] outs[i]) matches FolderProcessed::Cleaned(_),
        t2 == remove_seq(
            t0,
            cleaned_paths(candidates(t0, Seq::empty(), include_hidden, rules), outs),
        ),
    ensures
        wf(t2),
        candidates(t2, Seq::empty(), include_hidden, rules) =~= Seq::<Candidate>::empty(),
{
    let cs = candidates(t0, Seq::empty(), include_hidden, rules);
    lemma_all_cleaned_paths(cs, outs);
    assert(candidate_paths(cs).take(outs.len() as int) =~= candidate_paths(cs));
    lemma_cleanup_idempotent(t0, include_hidden, rules);
}

/// Idempotence of a full cleanup: once every candidate of a tree has been
/// removed, a second walk over what is left finds no candidate at all, so a
/// second run frees nothing and deletes nothing.
pub proof fn lemma_cleanup_idempotent(
    t: Tree,
    include_hidden: bool,
    rules: Seq<(Seq<char>, Seq<char>)>,
)
    requires
        wf(t),
    ensures
        ({
            let cs = candidates(t, Seq::empty(), include_hidden, rules);
            let t2 = remove_seq(t, candidate_paths(cs));
            &&& wf(t2)
            &&& candidates(t2, Seq::empty(), include_hidden, rules) =~= Seq::<Candidate>::empty()
        }),
{
    let base = Seq::<Seq<char>>::empty();
    let cs = candidates(t, base, include_hidden, rules);
    let paths = candidate_paths(cs);
    let t2 = remove_seq(t, paths);
    lemma_candidates_facts(t, base, include_hidden, rules);
    assert(paths.len() == cs.len());
    assert forall|j: int| 0 <= j < paths.len() implies (#[trigger] paths[j]).len() > 0 && (lookup(
        t,
        paths[j],
    ) matches Some(d) && d is Dir) by {
        assert(paths[j] == cs[j].path);
        assert(candidate_fact(t, base, include_hidden, rules, cs[j]));
        assert(cs[j].path.skip(0) =~= cs[j].path);
    }
    assert forall|j1: int, j2: int|
        #![trigger paths[j1], paths[j2]]
        0 <= j1 < paths.len() && 0 <= j2 < paths.len() && j1 != j2 implies !is_prefix_of(
        paths[j1],
        paths[j2],
    ) by {
        assert(paths[j1] == cs[j1].path && paths[j2] == cs[j2].path);
        assert(!is_prefix_of(cs[j1].path, cs[j2].path));
    }
    lemma_remove_iter(t, paths, paths.len() as int);
    assert(paths.take(paths.len() as int) =~= paths);
    let cs2 = candidates(t2, base, include_hidden, rules);
    assert(cs2.len() == 0) by {
        if cs2.len() > 0 {
            lemma_candidates_facts(t2, base, include_hidden, rules);
            let c = cs2[0];
            assert(candidate_fact(t2, base, include_hidden, rules, c));
            let p = c.path;
            assert(p.skip(0) =~= p);
            // no removed path is a prefix of p, or p would be gone
            assert(!under_some(paths, paths.len() as int, p)) by {
                if under_some(paths, paths.len() as int, p) {
                    let j = choose|j: int|
                        0 <= j < paths.len() && is_prefix_of(#[trigger] paths[j], p);
                    lemma_lookup_none_extends(t2, paths[j], p);
                }
            }
            // nor of any prefix of p
            assert forall|k: int| 0 < k <= p.len() implies !under_some(
                paths,
                paths.len() as int,
                #[trigger] p.take(k),
            ) by {
                if under_some(paths, paths.len() as int, p.take(k)) {
                    let j = choose|j: int|
                        0 <= j < paths.len() && is_prefix_of(#[trigger] paths[j], p.take(k));
                    assert(is_prefix_of(p.take(k), p)) by {
                        assert(forall|x: int| 0 <= x < k ==> p.take(k)[x] == p[x]);
                    }
                    lemma_prefix_trans(paths[j], p.take(k), p);
                    assert(under_some(paths, paths.len() as int, p));
                }
            }
            // p, its parent, and all its ancestors look in t as they do in t2
            assert(preserved_at(t, t2, p));
            assert(lookup(t, p) matches Some(d) && d is Dir);
            let par = p.drop_last();
            assert(par =~= p.take(p.len() - 1));
            assert(!under_some(paths, paths.len() as int, par)) by {
                if p.len() > 1 {
                } else {
                    assert(par.len() == 0);
                    if under_some(paths, paths.len() as int, par) {
                        let j = choose|j: int|
                            0 <= j < paths.len() && is_prefix_of(#[trigger] paths[j], par);
                        assert(paths[j].len() > 0);
                    }
                }
            }
            assert(preserved_at(t, t2, par));
            assert(c.parent_files == dir_files_at(t2, p.skip(0).drop_last()));
            assert(c.parent_files == dir_files_at(t, par));
            assert(matches_some_rule(
                rules,
                Candidate { path: p, parent_files: dir_files_at(t, p.skip(0).drop_last()) },
            )) by {
                assert(c == (Candidate { path: p, parent_files: c.parent_files }));
            }
            // ancestors were visited and unmatched in t2, hence in t
            assert forall|k: int| 0 < k < p.len() implies ancestor_clear(
                t,
                base,
                rules,
                include_hidden,
                #[trigger] p.take(k),
            ) by {
                assert(ancestor_clear(t2, base, rules, include_hidden, p.take(k)));
                let a = p.take(k);
                let ap = a.skip(0).drop_last();
                assert(ap =~= p.take(k - 1));
                assert(!under_some(paths, paths.len() as int, p.take(k - 1))) by {
                    if k == 1 {
                        if under_some(paths, paths.len() as int, p.take(0)) {
                            let j = choose|j: int|
                                0 <= j < paths.len() && is_prefix_of(
                                    #[trigger] paths[j],
                                    p.take(0),
                                );
                            assert(paths[j].len() > 0);
                        }
                    }
                }
                assert(preserved_at(t, t2, p.take(k - 1)));
                assert(dir_files_at(t2, ap) == dir_files_at(t, ap));
            }
            lemma_candidates_complete(t, base, include_hidden, rules, p);
            let m = choose|m: int|
                0 <= m < candidates(t, base, include_hidden, rules).len() && (#[trigger] candidates(
                    t,
                    base,
                    include_hidden,
                    rules,
                )[m]).path == p;
            assert(paths[m] == p);
            assert(is_prefix_of(p, p));
            assert(under_some(paths, paths.len() as int, p));
        }
    }
    assert(cs2 =~= Seq::<Candidate>::empty());
}

/// Index of the first rule that flags `folder`, in rule order.
fn find_first_rule(rules: &Vec<FileToFolderMatch>, folder: &Folder) -> (r: Option<usize>)
    ensures
        match r {
            Some(ri) => 0 <= ri < rules@.len() && rule_matches(
                rules_view(rules@)[ri as int],
                folder@,
            ) && forall|j: int|
                0 <= j < ri ==> !rule_matches(#[trigger] rules_view(rules@)[j], folder@),
            None => !matches_some_rule(rules_view(rules@), folder@),
        },
{
    let mut i: usize = 0;
    while i < rules.len()
        invariant
            i <= rules.len(),
            forall|k: int| 0 <= k < i ==> !rule_matches(#[trigger] rules_view(rules@)[k], folder@),
        decreases rules.len() - i,
    {
        if rules[i].is_folder_to_remove(folder) {
            proof {
                assert(rules_view(rules@)[i as int] == rules@[i as int]@);
            }
            return Some(i);
        }
        proof {
            assert(rules_view(rules@)[i as int] == rules@[i as int]@);
        }
        i = i + 1;
    }
    None
}

/// Runs the whole cleanup over the tree: walks it, then processes each
/// candidate in order (size, decision, cleanup, accounting) until the list
/// ends or a decision aborts the run.
#[verifier::loop_isolation(false)]
pub fn run_cleanup<C: DoCleanUp, D: Decide>(
    tree: &mut FsNode,
    config: &RunConfig,
    rules: &Vec<FileToFolderMatch>,
    cleaner: &C,
    decider: &mut D,
) -> (report: CleanupReport)
    requires
        wf(old(tree)@),
        tree_size(old(tree)@) <= u64::MAX,
    ensures
        wf(final(tree)@),
        ({
            let cs = candidates(old(tree)@, Seq::empty(), config.include_hidden, rules_view(rules@));
            let outs = report.outcomes@;
            &&& outs.len() <= cs.len()
            &&& (!report.aborted ==> outs.len() == cs.len())
            &&& (report.aborted <==> outs.len() > 0 && outs.last() is Abort)
            &&& (forall|i: int| 0 <= i < outs.len() - 1 ==> !((#[trigger] outs[i]) is Abort))
            &&& report.total_freed == sum_cleaned(outs)
            &&& report.total_freed + tree_size(final(tree)@) == tree_size(old(tree)@)
            &&& final(tree)@ == remove_seq(old(tree)@, cleaned_paths(cs, outs))
            &&& (forall|i: int|
                0 <= i < outs.len() ==> outcome_ok(
                    old(tree)@,
                    final(tree)@,
                    cs[i],
                    #[trigger] outs[i],
                    cleaner.deletes(),
                ))
            &&& (forall|i: int|
                outs.len() <= i < cs.len() ==> lookup(final(tree)@, (#[trigger] cs[i]).path)
                    == lookup(old(tree)@, cs[i].path))
            &&& (config.auto_confirm || old(decider).sticky_yes() ==> !report.aborted)
            &&& ((config.auto_confirm || old(decider).sticky_yes()) && cleaner.deletes()
                ==> forall|i: int|
                0 <= i < outs.len() ==> (#[trigger] outs[i]) matches FolderProcessed::Cleaned(_))
        }),
        !cleaner.deletes() ==> final(tree)@ == old(tree)@ && report.total_freed == 0,
        old(decider).sticky_yes() || config.auto_confirm ==> final(decider).prompt_count()
            == old(decider).prompt_count(),
        old(decider).sticky_yes() ==> final(decider).sticky_yes(),
{
    let ghost t0 = tree@;
    let candidate_folders = walk(tree, config, rules);
    let ghost cs = folders_view(candidate_folders@);
    let ghost rv = rules_view(rules@);
    proof {
        lemma_candidates_facts(t0, Seq::empty(), config.include_hidden, rv);
    }
    let ctx = config.decision_context();
    let mut total_freed: u64 = 0;
    let mut outcomes: Vec<FolderProcessed> = Vec::new();
    let mut aborted = false;
    let mut idx: usize = 0;
    while idx < candidate_folders.len() && !aborted
        invariant
            idx <= candidate_folders@.len(),
            outcomes@.len() == idx,
            wf(tree@),
            total_freed + tree_size(tree@) == tree_size(t0),
            total_freed == sum_cleaned(outcomes@),
            tree@ == remove_seq(t0, cleaned_paths(cs, outcomes@)),
            forall|i: int|
                idx <= i < cs.len() ==> lookup(tree@, (#[trigger] cs[i]).path) == lookup(
                    t0,
                    cs[i].path,
                ),
            forall|i: int|
                0 <= i < idx ==> outcome_ok(
                    t0,
                    tree@,
                    cs[i],
                    #[trigger] outcomes@[i],
                    cleaner.deletes(),
                ),
            !aborted ==> forall|i: int| 0 <= i < idx ==> !((#[trigger] outcomes@[i]) is Abort),
            aborted ==> idx > 0 && outcomes@.last() is Abort,
            aborted ==> forall|i: int| 0 <= i < idx - 1 ==> !((#[trigger] outcomes@[i]) is Abort),
            !cleaner.deletes() ==> tree@ == t0 && total_freed == 0,
            old(decider).sticky_yes() ==> decider.sticky_yes(),
            old(decider).sticky_yes() || config.auto_confirm ==> decider.prompt_count() == old(
                decider,
            ).prompt_count(),
            config.auto_confirm || old(decider).sticky_yes() ==> !aborted,
            (config.auto_confirm || old(decider).sticky_yes()) && cleaner.deletes()
                ==> forall|i: int|
                0 <= i < idx ==> (#[trigger] outcomes@[i]) matches FolderProcessed::Cleaned(_),
        decreases candidate_folders@.len() - idx,
    {
        let folder = &candidate_folders[idx];
        proof {
            assert(folder@ == cs[idx as int]);
            assert(cs[idx as int].path.skip(0) =~= cs[idx as int].path);
            assert(candidate_fact(t0, Seq::empty(), config.include_hidden, rv, cs[idx as int]));
        }
        let ghost t_before = tree@;
        let ghost outs_before = outcomes@;
        let outcome: FolderProcessed = match find_first_rule(rules, folder) {
            None => {
                // every walked candidate matches some rule; recorded
                // defensively all the same, and the run goes on
                proof {
                    assert(false);
                }
                FolderProcessed::NoRuleMatch
            },
            Some(ri) => {
                match folder.accept(tree, &ctx, &rules[ri], cleaner, decider) {
                    Ok(o) => o,
                    Err(_) => {
                        // a walked candidate still exists as a directory, so
                        // cleanup cannot fail here; a failure would be
                        // reported with its candidate and passed over
                        proof {
                            assert(false);
                        }
                        FolderProcessed::Skipped
                    },
                }
            },
        };
        let ghost p = cs[idx as int].path;
        proof {
            if outcome matches FolderProcessed::Cleaned(n) {
                lemma_remove_at_size(t_before, p);
                assert forall|i: int| idx + 1 <= i < cs.len() implies lookup(
                    tree@,
                    (#[trigger] cs[i]).path,
                ) == lookup(t0, cs[i].path) by {
                    lemma_remove_at_lookup(t_before, p, cs[i].path);
                }
                assert forall|i: int| 0 <= i < idx implies outcome_ok(
                    t0,
                    tree@,
                    cs[i],
                    #[trigger] outcomes@[i],
                    cleaner.deletes(),
                ) by {
                    lemma_remove_at_lookup(t_before, p, cs[i].path);
                }
                assert(lookup(tree@, p) is None) by {
                    lemma_remove_at_lookup(t_before, p, p);
                }
            }
        }
        let folded = fold_outcome(total_freed, outcome);
        total_freed = folded.0;
        aborted = folded.1;
        outcomes.push(outcome);
        proof {
            assert(outcomes@.drop_last() =~= outs_before);
            assert(outcomes@.last() == outcome);
            if outcome matches FolderProcessed::Cleaned(n) {
                assert(cleaned_paths(cs, outcomes@) == cleaned_paths(cs, outs_before).push(p));
                lemma_remove_seq_snoc(t0, cleaned_paths(cs, outs_before), p);
            } else {
                assert(cleaned_paths(cs, outcomes@) == cleaned_paths(cs, outs_before));
            }
        }
        idx = idx + 1;
    }
    CleanupReport { total_freed, aborted, outcomes }
}

} // verus!
