//! The decision state machine: who answers "delete this candidate?".
//!
//! A [`Decide`] implementation is the injected source of per-candidate
//! decisions. The sticky "yes to all" memory lives in an explicit
//! [`DecisionMemory`] value, never in global state: once auto-confirm has
//! activated, every later question is answered `Yes` without a prompt.

use vstd::prelude::*;

verus! {

/// Answer to one "delete this candidate?" question. `Quit` ends the whole
/// run, it does not merely skip the current candidate.
#[derive(Clone, Copy, Debug, PartialEq, Eq, Structural)]
pub enum Decision {
    Yes,
    No,
    Quit,
}

/// Per-run settings that the decision provider reads.
#[derive(Clone, Copy, Debug, PartialEq, Eq, Structural)]
pub struct DecisionContext {
    /// The run simulates deletion; nothing on disk may change.
    pub is_dry_run: bool,
    /// Answer every question `Yes` without prompting.
    pub yes_to_all: bool,
}

/// Run-scoped sticky memory: has "yes to all" been activated?
#[derive(Clone, Copy, Debug, PartialEq, Eq, Structural)]
pub struct DecisionMemory {
    pub has_sticky_yes: bool,
}

impl DecisionMemory {
    /// Fresh memory: nothing has been confirmed yet.
    pub fn new() -> (memory: DecisionMemory)
        ensures
            !memory.has_sticky_yes,
    {
        DecisionMemory { has_sticky_yes: false }
    }

    /// The part of a decision that needs no operator: `Yes` when the sticky
    /// memory or auto-confirm applies (activating the memory in the latter
    /// case), `None` when the operator has to be prompted.
    pub fn preliminary(&mut self, ctx: &DecisionContext) -> (r: Option<Decision>)
        ensures
            old(self).has_sticky_yes ==> r == Some(Decision::Yes) && final(self).has_sticky_yes,
            !old(self).has_sticky_yes && ctx.yes_to_all ==> r == Some(Decision::Yes)
                && final(self).has_sticky_yes,
            !old(self).has_sticky_yes && !ctx.yes_to_all ==> r is None
                && !final(self).has_sticky_yes,
    {
        if self.has_sticky_yes {
            Some(Decision::Yes)
        } else if ctx.yes_to_all {
            self.has_sticky_yes = true;
            Some(Decision::Yes)
        } else {
            None
        }
    }

    /// What an operator's raw answer means. An affirmative answer is `Yes`, a
    /// decline is `No`, and a cancelled or unanswered prompt is `Quit`: an
    /// ambiguous answer must never let processing continue.
    pub fn interpret_answer(answer: Option<bool>) -> (d: Decision)
        ensures
            d == (match answer {
                Some(true) => Decision::Yes,
                Some(false) => Decision::No,
                None => Decision::Quit,
            }),
    {
        match answer {
            Some(true) => Decision::Yes,
            Some(false) => Decision::No,
            None => Decision::Quit,
        }
    }
}

/// A source of per-candidate decisions. Implementations promise: a sticky or
/// auto-confirmed `Yes` never prompts, sticky memory never deactivates, and
/// exactly one prompt happens otherwise.
pub trait Decide: Sized {
    /// Whether "yes to all" has been activated.
    spec fn sticky_yes(&self) -> bool;

    /// How many times the operator has been prompted so far.
    spec fn prompt_count(&self) -> nat;

    /// Decide whether to delete the candidate that `question` describes.
    fn obtain_decision(&mut self, ctx: &DecisionContext, question: &str) -> (d: Decision)
        ensures
            old(self).sticky_yes() ==> d == Decision::Yes && final(self).prompt_count()
                == old(self).prompt_count(),
            old(self).sticky_yes() ==> final(self).sticky_yes(),
            !old(self).sticky_yes() && ctx.yes_to_all ==> d == Decision::Yes
                && final(self).sticky_yes() && final(self).prompt_count() == old(
                self).prompt_count(),
            !old(self).sticky_yes() && !ctx.yes_to_all ==> final(self).sticky_yes()
                == old(self).sticky_yes() && final(self).prompt_count() == old(
                self).prompt_count() + 1,
    ;
}

/// A decision provider driven by a prepared list of operator answers, one per
/// prompt; a prompt past the end of the list counts as unanswered and yields
/// `Quit`. This is the scripted stand-in for an interactive operator.
pub struct ScriptedDecider {
    /// The sticky "yes to all" state.
    pub memory: DecisionMemory,
    /// Answers the scripted operator gives, in prompt order.
    pub script: Vec<Decision>,
    /// How many scripted answers have been consumed.
    pub next: usize,
    /// How many prompts have happened, answered or not.
    pub prompts: Ghost<nat>,
}

impl ScriptedDecider {
    /// A decider that will answer prompts from `script`.
    pub fn new(script: Vec<Decision>) -> (d: ScriptedDecider)
        ensures
            !d.sticky_yes(),
            d.prompt_count() == 0,
            d.script == script,
            d.next == 0,
    {
        ScriptedDecider { memory: DecisionMemory::new(), script, next: 0, prompts: Ghost(0) }
    }
}

impl Decide for ScriptedDecider {
    open spec fn sticky_yes(&self) -> bool {
        self.memory.has_sticky_yes
    }

    open spec fn prompt_count(&self) -> nat {
        self.prompts@
    }

    fn obtain_decision(&mut self, ctx: &DecisionContext, question: &str) -> (d: Decision)
        ensures
            final(self).script == old(self).script,
            !old(self).sticky_yes() && !ctx.yes_to_all ==> d == (if old(self).next
                < old(self).script.len() {
                old(self).script[old(self).next as int]
            } else {
                Decision::Quit
            }),
            !old(self).sticky_yes() && !ctx.yes_to_all ==> final(self).next == (if old(self).next
                < old(self).script.len() {
                old(self).next + 1
            } else {
                old(self).next as int
            }),
            old(self).sticky_yes() || ctx.yes_to_all ==> final(self).next == old(self).next,
    {
        match self.memory.preliminary(ctx) {
            Some(d) => d,
            None => {
                self.prompts = Ghost(self.prompts@ + 1);
                if self.next < self.script.len() {
                    let a = self.script[self.next];
                    self.next = self.next + 1;
                    a
                } else {
                    // an exhausted script stands for an unanswered prompt
                    Decision::Quit
                }
            },
        }
    }
}

} // verus!
