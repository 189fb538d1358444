use vstd::prelude::*;
use crate::errors::TaskError;
use crate::task::{Status, TaskList, spec_add, spec_edit, spec_mark, spec_delete, spec_contains_id,
    spec_next_id};
use crate::command::{CommandStatus, CommandType};

verus! {

/// The statuses a filter stands for: a concrete status for itself, `All`
/// for all three.
pub open spec fn spec_expand_filter(c: CommandStatus) -> Seq<Status> {
    match c {
        CommandStatus::Todo => seq![Status::Todo],
        CommandStatus::Progress => seq![Status::Progress],
        CommandStatus::Done => seq![Status::Done],
        CommandStatus::All => seq![Status::Todo, Status::Progress, Status::Done],
    }
}

/// The concrete status a filter narrows to, if any: `All` has none.
pub open spec fn spec_narrow_status(c: CommandStatus) -> Option<Status> {
    match c {
        CommandStatus::Todo => Some(Status::Todo),
        CommandStatus::Progress => Some(Status::Progress),
        CommandStatus::Done => Some(Status::Done),
        CommandStatus::All => None,
    }
}

/// Expands a status filter into the statuses it stands for.
pub fn convert_to_multiple_status(c_status: CommandStatus) -> (r: Vec<Status>)
    ensures
        r@ == spec_expand_filter(c_status),
{
    match c_status {
        CommandStatus::Todo => {
            let v = vec![Status::Todo];
            proof {
                assert(v@ =~= spec_expand_filter(c_status));
            }
            v
        },
        CommandStatus::Progress => {
            let v = vec![Status::Progress];
            proof {
                assert(v@ =~= spec_expand_filter(c_status));
            }
            v
        },
        CommandStatus::Done => {
            let v = vec![Status::Done];
            proof {
                assert(v@ =~= spec_expand_filter(c_status));
            }
            v
        },
        CommandStatus::All => {
            let v = vec![Status::Todo, Status::Progress, Status::Done];
            proof {
                assert(v@ =~= spec_expand_filter(c_status));
            }
            v
        },
    }
}

/// Narrows a status filter to the single status it names; `All` fails with
/// `StatusNotAllowed`.
pub fn convert_to_single_status(c_status: CommandStatus) -> (r: Result<Status, TaskError>)
    ensures
        r matches Ok(st) ==> spec_narrow_status(c_status) == Some(st),
        r matches Err(e) ==> spec_narrow_status(c_status) is None && e
            == TaskError::StatusNotAllowed,
        r is Ok <==> spec_narrow_status(c_status) is Some,
    {
    match c_status {
        CommandStatus::Todo => Ok(Status::Todo),
        CommandStatus::Progress => Ok(Status::Progress),
        CommandStatus::Done => Ok(Status::Done),
        CommandStatus::All => Err(TaskError::StatusNotAllowed),
    }
}

/// Routes a parsed command to the store operation it names. `list` changes
/// nothing; callers wanting the rows call `TaskList::list_task` with the
/// expanded filter, as the displaying caller does.
pub fn run_command(tasks: &mut TaskList, command: CommandType) -> (r: Result<(), TaskError>)
    requires
        command is Add ==> spec_next_id(old(tasks).list@, old(tasks).max_assigned) <= i32::MAX,
    ensures
        !(command is Add) ==> final(tasks).max_assigned == old(tasks).max_assigned,
        command is Add ==> final(tasks).max_assigned as int == spec_next_id(
            old(tasks).list@,
            old(tasks).max_assigned,
        ),
        match command {
            CommandType::Add { desc } => r is Ok && exists|now: crate::time::Timestamp|
                now.wf() && final(tasks).list@ == #[trigger] spec_add(
                    old(tasks).list@,
                    old(tasks).max_assigned,
                    desc,
                    now,
                ),
            CommandType::Edit { id, desc } => {
                &&& r is Ok <==> spec_contains_id(old(tasks).list@, id)
                &&& r matches Err(e) ==> e == TaskError::TaskNotFound && final(tasks).list@ == old(
                    tasks,
                ).list@
                &&& r is Ok ==> exists|now: crate::time::Timestamp|
                    now.wf() && final(tasks).list@ == #[trigger] spec_edit(
                        old(tasks).list@,
                        id,
                        desc,
                        now,
                    )
            },
            CommandType::Delete { id } => {
                &&& r is Ok <==> spec_contains_id(old(tasks).list@, id)
                &&& r matches Err(e) ==> e == TaskError::TaskNotFound && final(tasks).list@ == old(
                    tasks,
                ).list@
                &&& r is Ok ==> final(tasks).list@ == spec_delete(old(tasks).list@, id)
            },
            CommandType::List { status } => r is Ok && final(tasks).list@ == old(tasks).list@,
            CommandType::Mark { id, status } => match spec_narrow_status(status) {
                None => r == Err::<(), TaskError>(TaskError::StatusNotAllowed)
                    && final(tasks).list@ == old(tasks).list@,
                Some(st) => {
                    &&& r is Ok <==> spec_contains_id(old(tasks).list@, id)
                    &&& r matches Err(e) ==> e == TaskError::TaskNotFound && final(tasks).list@
                        == old(tasks).list@
                    &&& r is Ok ==> exists|now: crate::time::Timestamp|
                        now.wf() && final(tasks).list@ == #[trigger] spec_mark(
                            old(tasks).list@,
                            id,
                            st,
                            now,
                        )
                },
            },
        },
{
    match command {
        CommandType::Add { desc } => tasks.add_task(desc),
        CommandType::Edit { id, desc } => tasks.edit_task(id, desc),
        CommandType::List { status } => {
            let filter = convert_to_multiple_status(status);
            let _rows = tasks.list_task(filter.as_slice());
            Ok(())
        },
        CommandType::Delete { id } => match tasks.delete_task(id) {
            Ok(_) => Ok(()),
            Err(e) => Err(e),
        },
        CommandType::Mark { id, status } => match convert_to_single_status(status) {
            Ok(st) => tasks.mark_task(id, st),
            Err(e) => Err(e),
        },
    }
}

} // verus!
