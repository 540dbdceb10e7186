//! The crash-safe write protocol for one target file.
//!
//! A file is rewritten in four steps, in this order: copy the current file
//! to its backup, truncate-create the target, write every line, force a
//! durability sync.  The decision logic lives here and is verified: the
//! truncating step is never issued unless the backup step has succeeded,
//! so a failed backup leaves the target file untouched.  The surrounding
//! program performs each issued action and reports its outcome back.

use vstd::prelude::*;

use crate::task::ParseError;

verus! {

/// The store's error taxonomy.
#[derive(Clone, Debug, PartialEq, Eq)]
pub enum Error {
    /// A malformed line or malformed quick-add text.
    Parse(ParseError),
    /// A file open, create, write or sync failure, with its path.
    Io { path: String, message: String },
    /// The pre-write backup copy failed; the target was not overwritten.
    Backup { path: String, message: String },
}

/// Where one file's write stands.
#[derive(Clone, Copy, Debug, PartialEq, Eq, Structural)]
pub enum WriteState {
    /// Nothing done yet; the target file is untouched.
    Start,
    /// The backup copy exists; overwriting may begin.
    BackedUp,
    /// The target was truncate-created.
    Created,
    /// All lines were written.
    Written,
    /// The file was synced: the write succeeded.
    Synced,
    /// A step failed; the protocol stops.
    Failed,
}

/// The outside actions the protocol can ask for.
#[derive(Clone, Copy, Debug, PartialEq, Eq, Structural)]
pub enum WriteAction {
    /// Copy the target file to its backup.
    Backup,
    /// Truncate-create the target file.  The only destructive action.
    Create,
    /// Write the whole new text.
    WriteAll,
    /// Force a durability sync.
    Sync,
    /// Nothing left to do.
    Stop,
}

/// The action owed in a state.
pub open spec fn action_spec(s: WriteState) -> WriteAction {
    match s {
        WriteState::Start => WriteAction::Backup,
        WriteState::BackedUp => WriteAction::Create,
        WriteState::Created => WriteAction::WriteAll,
        WriteState::Written => WriteAction::Sync,
        WriteState::Synced => WriteAction::Stop,
        WriteState::Failed => WriteAction::Stop,
    }
}

/// The state after the owed action reported `ok`.
pub open spec fn step_spec(s: WriteState, ok: bool) -> WriteState {
    match s {
        WriteState::Start => if ok {
            WriteState::BackedUp
        } else {
            WriteState::Failed
        },
        WriteState::BackedUp => if ok {
            WriteState::Created
        } else {
            WriteState::Failed
        },
        WriteState::Created => if ok {
            WriteState::Written
        } else {
            WriteState::Failed
        },
        WriteState::Written => if ok {
            WriteState::Synced
        } else {
            WriteState::Failed
        },
        WriteState::Synced => WriteState::Synced,
        WriteState::Failed => WriteState::Failed,
    }
}

/// The action to perform next.  `Create` is owed only once the backup
/// succeeded.
pub fn write_action(s: WriteState) -> (a: WriteAction)
    ensures
        a == action_spec(s),
        a == WriteAction::Create ==> s == WriteState::BackedUp,
{
    match s {
        WriteState::Start => WriteAction::Backup,
        WriteState::BackedUp => WriteAction::Create,
        WriteState::Created => WriteAction::WriteAll,
        WriteState::Written => WriteAction::Sync,
        WriteState::Synced => WriteAction::Stop,
        WriteState::Failed => WriteAction::Stop,
    }
}

/// Advances the protocol by one reported outcome.
pub fn write_step(s: WriteState, ok: bool) -> (r: WriteState)
    ensures
        r == step_spec(s, ok),
        r == WriteState::BackedUp ==> s == WriteState::Start && ok,
{
    match s {
        WriteState::Start => if ok {
            WriteState::BackedUp
        } else {
            WriteState::Failed
        },
        WriteState::BackedUp => if ok {
            WriteState::Created
        } else {
            WriteState::Failed
        },
        WriteState::Created => if ok {
            WriteState::Written
        } else {
            WriteState::Failed
        },
        WriteState::Written => if ok {
            WriteState::Synced
        } else {
            WriteState::Failed
        },
        WriteState::Synced => WriteState::Synced,
        WriteState::Failed => WriteState::Failed,
    }
}

/// The state after a run of outcomes, from `Start`.
pub open spec fn run_spec(outcomes: Seq<bool>) -> WriteState
    decreases outcomes.len(),
{
    if outcomes.len() == 0 {
        WriteState::Start
    } else {
        step_spec(run_spec(outcomes.drop_last()), outcomes.last())
    }
}

/// BACKUP PRECONDITION: in a run whose first step (the backup) failed,
/// the truncating action is never owed, so the target file keeps its
/// previous content byte for byte.
pub proof fn lemma_backup_guards_overwrite(outcomes: Seq<bool>, k: int)
    requires
        outcomes.len() > 0,
        !outcomes[0],
        0 <= k <= outcomes.len(),
    ensures
        action_spec(run_spec(outcomes.take(k))) != WriteAction::Create,
    decreases k,
{
    if k == 0 {
        assert(outcomes.take(0) =~= Seq::<bool>::empty());
    } else {
        lemma_backup_guards_overwrite(outcomes, k - 1);
        assert(outcomes.take(k).drop_last() =~= outcomes.take(k - 1));
        assert(outcomes.take(k).last() == outcomes[k - 1]);
        let prev = run_spec(outcomes.take(k - 1));
        if k == 1 {
            assert(prev == WriteState::Start);
            assert(!outcomes.take(1).last());
        } else {
            assert(prev != WriteState::BackedUp) by {
                lemma_run_failed_stays(outcomes, k - 1);
            }
        }
    }
}

/// Once the first outcome is a failure, every later state is `Failed`.
proof fn lemma_run_failed_stays(outcomes: Seq<bool>, k: int)
    requires
        outcomes.len() > 0,
        !outcomes[0],
        1 <= k <= outcomes.len(),
    ensures
        run_spec(outcomes.take(k)) == WriteState::Failed,
    decreases k,
{
    if k == 1 {
        assert(outcomes.take(1).drop_last() =~= Seq::<bool>::empty());
        assert(outcomes.take(1).last() == outcomes[0]);
        assert(run_spec(Seq::<bool>::empty()) == WriteState::Start);
    } else {
        lemma_run_failed_stays(outcomes, k - 1);
        assert(outcomes.take(k).drop_last() =~= outcomes.take(k - 1));
    }
}

/// Aggregates the two files' outcomes: success only if both succeeded,
/// otherwise the first error in file order.
pub fn combine(todo: Result<(), Error>, done: Result<(), Error>) -> (r: Result<(), Error>)
    ensures
        r is Ok <==> (todo is Ok && done is Ok),
        todo is Err ==> r == todo,
        todo is Ok && done is Err ==> r == done,
{
    match todo {
        Ok(()) => done,
        Err(e) => Err(e),
    }
}

} // verus!
