//! Cleanup execution: really removing a candidate, or simulating it.
//!
//! Two interchangeable implementations of one contract. The real cleaner
//! removes the subtree at the candidate's path and reports `Cleaned`; the
//! dry-run cleaner touches nothing and reports `NotCleaned`, so the whole
//! pipeline can be validated without destructive effect.

use crate::tree::{
    lemma_remove_at_wf, lookup, path_view, remove_at, wf, FsNode,
};
use vstd::prelude::*;

verus! {

/// What a cleanup call did to the candidate.
#[derive(Clone, Copy, Debug, PartialEq, Eq, Structural)]
pub enum Clean {
    Cleaned,
    NotCleaned,
}

/// The OS-level failure a real removal can run into in the modelled tree.
#[derive(Clone, Copy, Debug, PartialEq, Eq, Structural)]
pub enum IoFailure {
    /// Nothing lives at the candidate's path (it vanished).
    NotFound,
    /// The candidate's path names a regular file, not a directory.
    NotADirectory,
}

/// Removes (or pretends to remove) candidate directories from the tree.
pub trait DoCleanUp: Sized {
    /// Whether this cleaner really deletes; a dry-run cleaner does not.
    spec fn deletes(&self) -> bool;

    /// Removes the directory at `path` from `tree`, or simulates doing so.
    /// A failure leaves the tree untouched and names its cause.
    fn do_cleanup(&self, tree: &mut FsNode, path: &Vec<String>) -> (r: Result<Clean, IoFailure>)
        requires
            wf(old(tree)@),
            path@.len() > 0,
        ensures
            wf(final(tree)@),
            !self.deletes() ==> r == Ok::<Clean, IoFailure>(Clean::NotCleaned) && final(tree)@
                == old(tree)@,
            self.deletes() ==> match r {
                Ok(Clean::Cleaned) => lookup(old(tree)@, path_view(path@)) matches Some(sub)
                    && sub is Dir && final(tree)@ == remove_at(old(tree)@, path_view(path@)),
                Ok(Clean::NotCleaned) => false,
                Err(IoFailure::NotFound) => lookup(old(tree)@, path_view(path@)) is None
                    && final(tree)@ == old(tree)@,
                Err(IoFailure::NotADirectory) => (lookup(old(tree)@, path_view(path@))
                    matches Some(sub) && sub is File) && final(tree)@ == old(tree)@,
            },
    ;
}

/// The real cleaner: removes the candidate's whole subtree.
#[derive(Default)]
pub struct ProperCleaner;

impl DoCleanUp for ProperCleaner {
    open spec fn deletes(&self) -> bool {
        true
    }

    fn do_cleanup(&self, tree: &mut FsNode, path: &Vec<String>) -> (r: Result<Clean, IoFailure>) {
        let kind: u8 = match tree.lookup_node(path) {
            None => 0,
            Some(FsNode::File { .. }) => 1,
            Some(FsNode::Dir { .. }) => 2,
        };
        if kind == 0 {
            Err(IoFailure::NotFound)
        } else if kind == 1 {
            Err(IoFailure::NotADirectory)
        } else {
            tree.remove_path(path);
            proof {
                lemma_remove_at_wf(old(tree)@, path_view(path@));
            }
            Ok(Clean::Cleaned)
        }
    }
}

/// The dry-run cleaner: performs no mutation at all.
#[derive(Default)]
pub struct DryRunCleaner;

impl DoCleanUp for DryRunCleaner {
    open spec fn deletes(&self) -> bool {
        false
    }

    /// Dry run means doing nothing and reporting that nothing was cleaned.
    fn do_cleanup(&self, tree: &mut FsNode, path: &Vec<String>) -> (r: Result<Clean, IoFailure>) {
        Ok(Clean::NotCleaned)
    }
}

} // verus!
