//! Disk-cleanup library: rule-driven discovery and removal of build and
//! dependency artifact directories inside a project tree.
//!
//! A fixed, ordered list of rules maps a marker file (such as `Cargo.toml`)
//! to a reclaimable sibling directory (such as `target`). The library walks
//! a directory tree, prunes descent at every directory a rule matches,
//! computes the size of each candidate, asks a decision provider whether to
//! delete it, and folds the freed bytes into a running total.
//!
//! The filesystem is modelled as an in-memory tree of named nodes; the
//! surrounding binary translates between the real disk and this model.

pub mod cleaner;
pub mod decider;
pub mod run;
pub mod tree;
pub mod walker;

use crate::cleaner::{Clean, DoCleanUp, IoFailure};
use crate::decider::{Decide, Decision, DecisionContext};
use crate::tree::{lemma_lookup_size, lookup, path_view, remove_at, tree_size, wf, FsNode};
use vstd::prelude::*;

verus! {

/// A cleanup rule: a directory is reclaimable when its parent holds a file
/// named `file_to_check` and the directory itself is named `folder_to_remove`.
pub struct FileToFolderMatch {
    file_to_check: String,
    folder_to_remove: String,
}

impl View for FileToFolderMatch {
    type V = (Seq<char>, Seq<char>);

    closed spec fn view(&self) -> (Seq<char>, Seq<char>) {
        (self.file_to_check@, self.folder_to_remove@)
    }
}

/// How processing one candidate folder ended.
#[derive(Clone, Copy, Debug, PartialEq, Eq, Structural)]
pub enum FolderProcessed {
    /// The folder was cleaned and this many bytes were removed.
    Cleaned(u64),
    /// The folder was not cleaned because it did not match any rule.
    NoRuleMatch,
    /// The folder was skipped, e.g. the operator decided to keep it.
    Skipped,
    /// The operator decided to abort the whole run.
    Abort,
}

/// Immutable per-invocation settings.
#[derive(Clone, Copy, Debug, PartialEq, Eq, Structural)]
pub struct RunConfig {
    /// Simulate: report everything, delete nothing.
    pub dry_run: bool,
    /// Answer every question `Yes` without prompting.
    pub auto_confirm: bool,
    /// Follow symbolic links while walking the real tree.
    pub follow_symlinks: bool,
    /// Also walk into hidden directories such as `.git`.
    pub include_hidden: bool,
}

impl RunConfig {
    /// The part of the configuration the decision provider reads.
    pub fn decision_context(&self) -> (ctx: DecisionContext)
        ensures
            ctx.is_dry_run == self.dry_run,
            ctx.yes_to_all == self.auto_confirm,
    {
        DecisionContext { is_dry_run: self.dry_run, yes_to_all: self.auto_confirm }
    }
}

/// Ghost image of a [`Folder`]: its path from the walk root and the names of
/// the regular files that lie beside it in its parent directory.
pub struct Candidate {
    pub path: Seq<Seq<char>>,
    pub parent_files: Seq<Seq<char>>,
}

/// Whether the rule `(marker, target)` flags candidate `c`: the marker file
/// lies beside the candidate and the candidate carries the target name.
pub open spec fn rule_matches(rule: (Seq<char>, Seq<char>), c: Candidate) -> bool {
    c.path.len() > 0 && c.parent_files.contains(rule.0) && c.path.last() == rule.1
}

/// The ghost image of a rule list.
pub open spec fn rules_view(rules: Seq<FileToFolderMatch>) -> Seq<(Seq<char>, Seq<char>)> {
    rules.map_values(|r: FileToFolderMatch| r@)
}

/// Whether any rule of the list flags candidate `c`.
pub open spec fn matches_some_rule(rules: Seq<(Seq<char>, Seq<char>)>, c: Candidate) -> bool {
    exists|k: int| 0 <= k < rules.len() && rule_matches(#[trigger] rules[k], c)
}

/// A directory flagged for deletion: an already canonical path from the walk
/// root, together with the file names seen beside it. Traversal never
/// descends into a candidate.
#[derive(Debug, PartialEq, Eq, Hash)]
pub struct Folder {
    /// Path from the walk root, one component per element; never empty.
    pub path: Vec<String>,
    /// Names of the regular files in the candidate's parent directory.
    pub parent_files: Vec<String>,
}

impl View for Folder {
    type V = Candidate;

    open spec fn view(&self) -> Candidate {
        Candidate { path: path_view(self.path@), parent_files: path_view(self.parent_files@) }
    }
}

impl FileToFolderMatch {
    pub fn new(file_to_check: &str, folder_to_remove: &str) -> (rule: Self)
        ensures
            rule@ == (file_to_check@, folder_to_remove@),
    {
        Self {
            file_to_check: file_to_check.to_owned(),
            folder_to_remove: folder_to_remove.to_owned(),
        }
    }

    /// The marker file name that justifies this rule's candidates.
    pub fn file_to_check(&self) -> (r: &str)
        ensures
            r@ == self@.0,
    {
        self.file_to_check.as_str()
    }

    /// The name of the directory this rule reclaims.
    pub fn folder_to_remove(&self) -> (r: &str)
        ensures
            r@ == self@.1,
    {
        self.folder_to_remove.as_str()
    }

    /// Builds the absolute path that this rule would remove inside `folder`:
    /// the folder's (already canonical) path joined with the target name.
    pub fn path_to_remove(&self, folder: &Folder) -> (r: Option<Vec<String>>)
        ensures
            r matches Some(p) && path_view(p@) == path_view(folder.path@).push(self@.1),
    {
        let mut p: Vec<String> = Vec::new();
        let mut i: usize = 0;
        while i < folder.path.len()
            invariant
                i <= folder.path.len(),
                p@ =~= folder.path@.take(i as int),
            decreases folder.path.len() - i,
        {
            p.push(folder.path[i].clone());
            i = i + 1;
        }
        proof {
            assert(p@ =~= folder.path@);
        }
        p.push(self.folder_to_remove.clone());
        proof {
            assert(path_view(p@) =~= path_view(folder.path@).push(self@.1));
        }
        Some(p)
    }
}

/// Checks whether a folder is to be removed under a rule. Uncertainty (a
/// folder with no parent, a missing marker) must never cause deletion, so
/// every such case answers `false`.
pub trait IsFolderToRemove {
    /// What the check answers.
    spec fn folder_matches(&self, folder: Folder) -> bool;

    /// Whether `folder` should be removed according to this rule.
    fn is_folder_to_remove(&self, folder: &Folder) -> (r: bool)
        ensures
            r == self.folder_matches(*folder),
    ;
}

impl IsFolderToRemove for FileToFolderMatch {
    open spec fn folder_matches(&self, folder: Folder) -> bool {
        rule_matches(self@, folder@)
    }

    fn is_folder_to_remove(&self, folder: &Folder) -> (r: bool) {
        if folder.path.len() == 0 {
            return false;
        }
        let has_marker = contains_name(&folder.parent_files, &self.file_to_check);
        let name_is_target = folder.path[folder.path.len() - 1] == self.folder_to_remove;
        proof {
            assert(path_view(folder.path@).last() == folder.path@.last()@);
        }
        has_marker && name_is_target
    }
}

/// Whether `names` holds a string equal to `name`.
fn contains_name(names: &Vec<String>, name: &String) -> (r: bool)
    ensures
        r == path_view(names@).contains(name@),
{
    let mut i: usize = 0;
    while i < names.len()
        invariant
            i <= names.len(),
            forall|j: int| 0 <= j < i ==> path_view(names@)[j] != name@,
        decreases names.len() - i,
    {
        if names[i] == *name {
            proof {
                assert(path_view(names@)[i as int] == name@);
            }
            return true;
        }
        i = i + 1;
    }
    proof {
        assert forall|j: int| 0 <= j < names@.len() implies path_view(names@)[j] != name@ by {}
    }
    false
}

/// Carries out one decision on one candidate: `No` skips, `Quit` aborts, and
/// only `Yes` reaches the cleaner. This is where an operator's answer becomes
/// an outcome, so the mapping is pinned for every value of the decision: a
/// decline or an abort must never delete, and a quit must never let the run
/// continue.
pub fn apply_decision<C: DoCleanUp>(
    decision: Decision,
    size_amount: u64,
    tree: &mut FsNode,
    path: &Vec<String>,
    cleaner: &C,
) -> (r: Result<FolderProcessed, IoFailure>)
    requires
        wf(old(tree)@),
        path@.len() > 0,
    ensures
        wf(final(tree)@),
        decision == Decision::No ==> r == Ok::<FolderProcessed, IoFailure>(FolderProcessed::Skipped)
            && final(tree)@ == old(tree)@,
        decision == Decision::Quit ==> r == Ok::<FolderProcessed, IoFailure>(FolderProcessed::Abort)
            && final(tree)@ == old(tree)@,
        decision == Decision::Yes && !cleaner.deletes() ==> r == Ok::<FolderProcessed, IoFailure>(
            FolderProcessed::Skipped,
        ) && final(tree)@ == old(tree)@,
        decision == Decision::Yes && cleaner.deletes() && (lookup(old(tree)@, path_view(path@))
            matches Some(sub) && sub is Dir) ==> r == Ok::<FolderProcessed, IoFailure>(
            FolderProcessed::Cleaned(size_amount),
        ) && final(tree)@ == remove_at(old(tree)@, path_view(path@)),
        decision == Decision::Yes && cleaner.deletes() && lookup(old(tree)@, path_view(path@))
            is None ==> r == Err::<FolderProcessed, IoFailure>(IoFailure::NotFound) && final(tree)@
            == old(tree)@,
        decision == Decision::Yes && cleaner.deletes() && (lookup(old(tree)@, path_view(path@))
            matches Some(sub) && sub is File) ==> r == Err::<FolderProcessed, IoFailure>(
            IoFailure::NotADirectory,
        ) && final(tree)@ == old(tree)@,
{
    match decision {
        Decision::Yes => match cleaner.do_cleanup(tree, path) {
            Ok(Clean::Cleaned) => Ok(FolderProcessed::Cleaned(size_amount)),
            Ok(Clean::NotCleaned) => Ok(FolderProcessed::Skipped),
            Err(failure) => Err(failure),
        },
        Decision::Quit => Ok(FolderProcessed::Abort),
        Decision::No => Ok(FolderProcessed::Skipped),
    }
}

impl Folder {
    /// Processes this candidate against one rule: re-check the match, measure
    /// the candidate, obtain a decision, and carry it out through
    /// [`apply_decision`]. The size is taken strictly before any deletion; a
    /// cleanup failure is propagated with the tree untouched.
    pub fn accept<C: DoCleanUp, D: Decide>(
        &self,
        tree: &mut FsNode,
        ctx: &DecisionContext,
        rule: &FileToFolderMatch,
        cleaner: &C,
        decider: &mut D,
    ) -> (r: Result<FolderProcessed, IoFailure>)
        requires
            wf(old(tree)@),
            tree_size(old(tree)@) <= u64::MAX,
        ensures
            wf(final(tree)@),
            match r {
                Ok(FolderProcessed::NoRuleMatch) => !rule_matches(rule@, self@) && final(tree)@
                    == old(tree)@,
                Ok(FolderProcessed::Cleaned(n)) => {
                    &&& rule_matches(rule@, self@)
                    &&& cleaner.deletes()
                    &&& lookup(old(tree)@, self@.path) matches Some(sub)
                    &&& sub is Dir
                    &&& n == tree_size(sub)
                    &&& final(tree)@ == remove_at(old(tree)@, self@.path)
                },
                Ok(FolderProcessed::Skipped) => rule_matches(rule@, self@)
                    && final(tree)@ == old(tree)@,
                Ok(FolderProcessed::Abort) => rule_matches(rule@, self@)
                    && final(tree)@ == old(tree)@
                    && !old(decider).sticky_yes() && !ctx.yes_to_all,
                Err(f) => {
                    &&& rule_matches(rule@, self@)
                    &&& cleaner.deletes()
                    &&& final(tree)@ == old(tree)@
                    &&& f is NotFound ==> lookup(old(tree)@, self@.path) is None
                    &&& f is NotADirectory ==> (lookup(old(tree)@, self@.path) matches Some(sub)
                        && sub is File)
                },
            },
            !rule_matches(rule@, self@) ==> final(decider).sticky_yes()
                == old(decider).sticky_yes()
                && final(decider).prompt_count() == old(decider).prompt_count(),
            old(decider).sticky_yes() ==> final(decider).sticky_yes()
                && final(decider).prompt_count() == old(decider).prompt_count(),
            rule_matches(rule@, self@) && ctx.yes_to_all ==> final(decider).sticky_yes()
                && final(decider).prompt_count() == old(decider).prompt_count(),
            rule_matches(rule@, self@) && !old(decider).sticky_yes() && !ctx.yes_to_all
                ==> final(decider).prompt_count() == old(decider).prompt_count() + 1,
            old(decider).sticky_yes() || ctx.yes_to_all
                ==> !(r matches Ok(FolderProcessed::Abort)),
            (old(decider).sticky_yes() || ctx.yes_to_all) && rule_matches(rule@, self@)
                && cleaner.deletes() && (lookup(old(tree)@, self@.path) matches Some(sub) && sub
                is Dir) ==> r matches Ok(FolderProcessed::Cleaned(_)),
            (old(decider).sticky_yes() || ctx.yes_to_all) && rule_matches(rule@, self@)
                && !cleaner.deletes() ==> r == Ok::<FolderProcessed, IoFailure>(
                FolderProcessed::Skipped,
            ),
    {
        if !rule.is_folder_to_remove(self) {
            return Ok(FolderProcessed::NoRuleMatch);
        }
        let size_amount: u64 = match tree.lookup_node(&self.path) {
            Some(sub) => {
                proof {
                    lemma_lookup_size(tree@, path_view(self.path@));
                }
                sub.calculate_size()
            },
            None => 0,
        };
        let decision = decider.obtain_decision(ctx, "delete directory recursively?");
        apply_decision(decision, size_amount, tree, &self.path, cleaner)
    }
}

} // verus!
