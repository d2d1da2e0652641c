//! Jobs of the operation queue, as the dialogs and the operation manager see
//! them.

use crate::vpath::VPath;
use vstd::prelude::*;

verus! {

/// What a job does.
#[derive(Clone, Copy, Debug, PartialEq, Eq, Structural)]
pub enum JobKind {
    Copy,
    Move,
    Delete { permanent: bool },
    CreateDir,
    CreateSymlink,
    CreateHardlink,
    ChangeAttributes,
}

/// What happens to an entry whose destination is taken.
#[derive(Clone, Copy, Debug, PartialEq, Eq, Structural)]
pub enum ConflictPolicy {
    Overwrite,
    Skip,
    OverwriteIfOlder,
    OverwriteIfDifferentSize,
    AutoRename,
    RenameTarget,
    Abort,
}

/// How far an answer reaches.
#[derive(Clone, Copy, Debug, PartialEq, Eq, Structural)]
pub enum ConflictScope {
    ThisOnly,
    AllRemaining,
}

/// The answer to a conflict.
#[derive(Debug, PartialEq, Eq)]
pub struct ConflictResolution {
    pub policy: ConflictPolicy,
    pub scope: ConflictScope,
    /// The destination instead, where the policy asks for one.
    pub alternate: Option<VPath>,
}

impl ConflictResolution {
    /// An answer to this conflict alone.
    pub fn once(policy: ConflictPolicy) -> (r: Self)
        ensures
            r == (ConflictResolution { policy, scope: ConflictScope::ThisOnly, alternate: None }),
    {
        ConflictResolution { policy, scope: ConflictScope::ThisOnly, alternate: None }
    }

    /// An answer to this conflict and all that follow.
    pub fn apply_to_all(policy: ConflictPolicy) -> (r: Self)
        ensures
            r == (ConflictResolution {
                policy,
                scope: ConflictScope::AllRemaining,
                alternate: None,
            }),
    {
        ConflictResolution { policy, scope: ConflictScope::AllRemaining, alternate: None }
    }

    /// Another destination for this conflict.
    pub fn rename_to(alternate: VPath) -> (r: Self)
        ensures
            r == (ConflictResolution {
                policy: ConflictPolicy::RenameTarget,
                scope: ConflictScope::ThisOnly,
                alternate: Some(alternate),
            }),
    {
        ConflictResolution {
            policy: ConflictPolicy::RenameTarget,
            scope: ConflictScope::ThisOnly,
            alternate: Some(alternate),
        }
    }
}

/// `""` for one, `"s"` for any other number.
pub open spec fn plural_text(count: nat) -> Seq<char> {
    if count == 1 {
        ""@
    } else {
        "s"@
    }
}

/// The ending of a noun that is counted.
pub fn plural(count: usize) -> (ending: &'static str)
    ensures
        ending@ == plural_text(count as nat),
{
    if count == 1 {
        ""
    } else {
        "s"
    }
}

/// Why no plan could be made.
#[derive(Debug, PartialEq, Eq)]
pub enum PlannerError {
    Cancelled,
    /// What the file system said.
    Vfs(String),
    /// The path that names nothing.
    NoFileName(String),
}

pub open spec fn planner_error_text(err: PlannerError) -> Seq<char> {
    match err {
        PlannerError::Cancelled => "cancelled"@,
        PlannerError::Vfs(message) => message@,
        PlannerError::NoFileName(path) => path@ + " has no file name"@,
    }
}

/// What the user is told of it.
pub fn describe_planner_error(err: &PlannerError) -> (text: String)
    ensures
        text@ == planner_error_text(*err),
{
    match err {
        PlannerError::Cancelled => "cancelled".to_owned(),
        PlannerError::Vfs(message) => message.clone(),
        PlannerError::NoFileName(path) => {
            let mut text = path.clone();
            text.append(" has no file name");
            text
        },
    }
}

/// One is not put into the plural, and every other number is.
pub proof fn lemma_plural(count: nat)
    ensures
        count == 1 <==> plural_text(count).len() == 0,
        count != 1 <==> plural_text(count) == seq!['s'],
{
    reveal_strlit("");
    reveal_strlit("s");
    assert("s"@ =~= seq!['s']);
    assert(""@.len() == 0);
}

/// What the file system said is passed on as it is; a path without a name is
/// named.
pub proof fn lemma_planner_error(err: PlannerError)
    ensures
        match err {
            PlannerError::Cancelled => planner_error_text(err) == "cancelled"@,
            PlannerError::Vfs(message) => planner_error_text(err) == message@,
            PlannerError::NoFileName(path) => path@.is_prefix_of(planner_error_text(err))
                && planner_error_text(err).len() > path@.len(),
        },
{
    reveal_strlit(" has no file name");
    if let PlannerError::NoFileName(path) = err {
        assert(planner_error_text(err).take(path@.len() as int) =~= path@);
    }
}

} // verus!
