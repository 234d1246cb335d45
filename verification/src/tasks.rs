//! Backup and recovery requests as units of work.
//!
//! Each unit carries its kind and a completion status; the runner performs
//! the outside work and records each unit's outcome, and a join-all barrier
//! settles every unit before shutdown, so no submitted work is silently
//! dropped.

use vstd::prelude::*;

verus! {

/// A unit's completion status.
#[derive(Debug, Clone, PartialEq, Eq)]
pub enum TaskStatus {
    Pending,
    Succeeded,
    Failed(String),
}

/// What a unit of work does: back up one save (or all, when no id is
/// given), or recover one save to the version taken at a timestamp.
#[derive(Debug, Clone)]
pub enum TaskInfo {
    Backup { for_id: Option<String>, description: String },
    Recover { id: String, timestamp: u64 },
}

/// One submitted unit of work.
pub struct Task {
    pub name: String,
    pub info: TaskInfo,
    pub status: TaskStatus,
}

/// Submit a unit of work: it enters the list pending, and its index names
/// it from then on.
pub fn spawn(tasks: &mut Vec<Task>, name: String, info: TaskInfo) -> (id: usize)
    ensures
        final(tasks)@ == old(tasks)@.push(
            (Task { name, info, status: TaskStatus::Pending }),
        ),
        id == old(tasks)@.len(),
{
    let id = tasks.len();
    tasks.push(Task { name, info, status: TaskStatus::Pending });
    id
}

/// The status a unit settles to: a completed unit keeps its status, a
/// pending one takes the outcome handed in for it.
pub open spec fn settled_status(s: TaskStatus, outcome: (bool, String)) -> TaskStatus {
    if !(s is Pending) {
        s
    } else if outcome.0 {
        TaskStatus::Succeeded
    } else {
        TaskStatus::Failed(outcome.1)
    }
}

/// Record one unit's outcome.
pub fn record_outcome(tasks: &mut Vec<Task>, id: usize, ok: bool, message: String)
    requires
        id < old(tasks)@.len(),
    ensures
        final(tasks)@.len() == old(tasks)@.len(),
        forall|i: int|
            0 <= i < old(tasks)@.len() && i != id ==> final(tasks)@[i] == old(tasks)@[i],
        final(tasks)@[id as int].name == old(tasks)@[id as int].name,
        final(tasks)@[id as int].info == old(tasks)@[id as int].info,
        final(tasks)@[id as int].status == if ok {
            TaskStatus::Succeeded
        } else {
            (TaskStatus::Failed(message))
        },
{
    let t = &mut tasks[id];
    t.status = if ok {
        TaskStatus::Succeeded
    } else {
        TaskStatus::Failed(message)
    };
}

/// The join-all barrier: settle every unit with the outcome collected for
/// it, one outcome per unit. Afterwards no unit is left pending — every
/// submitted unit has been awaited.
pub fn wait_all(tasks: &mut Vec<Task>, outcomes: &Vec<(bool, String)>)
    requires
        outcomes@.len() == old(tasks)@.len(),
    ensures
        final(tasks)@.len() == old(tasks)@.len(),
        forall|i: int|
            0 <= i < old(tasks)@.len() ==> {
                &&& (#[trigger] final(tasks)@[i]).name == old(tasks)@[i].name
                &&& final(tasks)@[i].info == old(tasks)@[i].info
                &&& final(tasks)@[i].status == settled_status(old(tasks)@[i].status, outcomes@[i])
            },
        forall|i: int|
            0 <= i < final(tasks)@.len() ==> !((#[trigger] final(tasks)@[i]).status is Pending),
{
    let n = tasks.len();
    for i in 0..n
        invariant
            n == tasks@.len(),
            n == outcomes@.len(),
            forall|j: int|
                i <= j < n ==> #[trigger] tasks@[j] == old(tasks)@[j],
            forall|j: int|
                0 <= j < i ==> {
                    &&& (#[trigger] tasks@[j]).name == old(tasks)@[j].name
                    &&& tasks@[j].info == old(tasks)@[j].info
                    &&& tasks@[j].status == settled_status(old(tasks)@[j].status, outcomes@[j])
                },
            forall|j: int| 0 <= j < i ==> !((#[trigger] tasks@[j]).status is Pending),
    {
        let pending = matches!(tasks[i].status, TaskStatus::Pending);
        if pending {
            let ok = outcomes[i].0;
            let message = outcomes[i].1.clone();
            let t = &mut tasks[i];
            t.status = if ok {
                TaskStatus::Succeeded
            } else {
                TaskStatus::Failed(message)
            };
        }
    }
}

} // verus!
