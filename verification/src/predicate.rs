//! Predicates: what a plugin, a skill group or a skill is gated on.

use vstd::prelude::*;

use crate::text::same_text;

verus! {

/// One condition of a gate.
#[derive(Debug, Clone, PartialEq, Eq)]
pub enum Predicate {
    /// The workspace depends on a crate of this name; `*` stands for any
    /// workspace.
    DependsOn(String),
    /// What is gated comes from a member of the workspace.
    WorkspaceMember,
    /// A shell command succeeds, run from the workspace.
    Shell(String),
    /// A path exists, seen from the workspace.
    PathExists(String),
    /// A program of the plugin's own decides.
    Custom(String),
}

/// A gate: it holds when every one of its predicates does.
#[derive(Debug, Clone, PartialEq, Eq)]
pub struct PredicateSet {
    pub predicates: Vec<Predicate>,
}

/// Whether a predicate holds alike in every workspace. The test is
/// conservative: a dependency and a membership are about the workspace by
/// definition, commands and paths resolve against it, and a custom predicate
/// is opaque.
pub open spec fn holds_anywhere(predicate: Predicate) -> bool {
    predicate matches Predicate::DependsOn(name) && name@ == "*"@
}

/// Whether a gate holds alike in every workspace.
pub open spec fn independent(set: PredicateSet) -> bool {
    forall|i: int| 0 <= i < set.predicates@.len() ==> holds_anywhere(#[trigger] set.predicates@[i])
}

impl PredicateSet {
    /// A gate that asks for a dependency on one crate. There is no crate without
    /// a name.
    pub fn from_depends_on(name: &str) -> (set: Result<Self, String>)
        ensures
            match set {
                Ok(set) => {
                    &&& name@.len() > 0
                    &&& set.predicates@.len() == 1
                    &&& set.predicates@[0] matches Predicate::DependsOn(held) && held@ == name@
                },
                Err(problem) => {
                    &&& name@.len() == 0
                    &&& problem@ == "depends-on needs a crate name"@
                },
            },
    {
        if name.is_empty() {
            return Err("depends-on needs a crate name".to_string());
        }
        let mut predicates: Vec<Predicate> = Vec::new();
        predicates.push(Predicate::DependsOn(name.to_string()));
        Ok(PredicateSet { predicates })
    }

    /// Whether this gate holds alike in every workspace: only the empty set and
    /// `depends-on(*)` do.
    pub fn is_workspace_independent(&self) -> (yes: bool)
        ensures
            yes == independent(*self),
    {
        let mut i: usize = 0;
        while i < self.predicates.len()
            invariant
                i <= self.predicates@.len(),
                forall|k: int| 0 <= k < i ==> holds_anywhere(#[trigger] self.predicates@[k]),
            decreases self.predicates@.len() - i,
        {
            let anywhere = match &self.predicates[i] {
                Predicate::DependsOn(name) => same_text(name.as_str(), "*"),
                _ => false,
            };
            if !anywhere {
                assert(!holds_anywhere(self.predicates@[i as int]));
                return false;
            }
            i += 1;
        }
        true
    }
}

impl Default for PredicateSet {
    fn default() -> (set: Self)
        ensures
            set.predicates@.len() == 0,
    {
        PredicateSet { predicates: Vec::new() }
    }
}

/// What a custom predicate reports while it runs.
#[derive(Debug, Clone, PartialEq, Eq)]
pub enum CustomPredicateEvent {
    /// The result depends on a file.
    WatchFile(String),
    /// The result depends on an environment variable.
    WatchEnv(String),
    /// The result may be kept for so many milliseconds; zero means not at all.
    WatchTime(u64),
    /// Something that does not bear on how long the result may be kept.
    Other,
}

/// A set of predicates holds in any workspace where each of them asks for no
/// crate in particular; one that asks for a crate, a member, a path or what a
/// command says keeps it from that.
pub proof fn only_the_wildcard_holds_anywhere(set: PredicateSet)
    ensures
        independent(set) <==> forall|i: int|
            0 <= i < set.predicates@.len() ==> {
                &&& (#[trigger] set.predicates@[i]) is DependsOn
                &&& set.predicates@[i]->DependsOn_0@ == seq!['*']
            },
{
    reveal_strlit("*");
    assert("*"@ =~= seq!['*']);
    if independent(set) {
        assert forall|i: int| 0 <= i < set.predicates@.len() implies ({
            &&& (#[trigger] set.predicates@[i]) is DependsOn
            &&& set.predicates@[i]->DependsOn_0@ == seq!['*']
        }) by {
            assert(holds_anywhere(set.predicates@[i]));
        }
    }
}

} // verus!
