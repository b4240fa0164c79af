//! The daemon's task map: groups, id assignment, and the pure task
//! lifecycle transitions the scheduler and request handler drive.
//!
//! [`state_wf`] is the invariant every reachable state keeps: task ids are
//! unique and below the id counter, every task's group exists, a recorded
//! start is never before the task's creation, a finished task's end is never
//! before its start, and no group ever holds more running tasks than it has
//! parallel slots. Every operation here requires and re-establishes it.

use vstd::prelude::*;

use crate::task::{Task, TaskResult, TaskStatus};

verus! {

/// Whether a group admits new tasks.
#[derive(Clone, Copy, Debug, PartialEq, Eq, Structural)]
pub enum GroupStatus {
    Running,
    Paused,
    Reset,
}

/// A named scheduling bucket with a parallelism slot count.
#[derive(Clone, Debug)]
pub struct Group {
    pub name: String,
    pub parallel_slots: usize,
    pub status: GroupStatus,
}

/// Why a state operation was refused.
#[derive(Clone, Copy, Debug, PartialEq, Eq, Structural)]
pub enum StateError {
    /// No task or group of that id or name exists.
    NotFound,
    /// The operation is not valid in the task's current status.
    InvalidState,
}

/// The daemon's in-memory state: the task map, the groups, and the next
/// task id.
#[derive(Clone, Debug)]
pub struct State {
    pub tasks: Vec<Task>,
    pub groups: Vec<Group>,
    pub next_id: u64,
}

/// One if the task occupies a running slot of group `g`.
pub open spec fn running_flag(t: Task, g: Seq<char>) -> nat {
    if t.group@ == g && t.status is Running {
        1
    } else {
        0
    }
}

/// How many tasks of group `g` are running.
pub open spec fn running_in(tasks: Seq<Task>, g: Seq<char>) -> nat
    decreases tasks.len(),
{
    if tasks.len() == 0 {
        0
    } else {
        running_in(tasks.drop_last(), g) + running_flag(tasks.last(), g)
    }
}

/// No two tasks share an id.
pub open spec fn ids_unique(tasks: Seq<Task>) -> bool {
    forall|i: int, j: int|
        0 <= i < j < tasks.len() ==> (#[trigger] tasks[i]).id != (#[trigger] tasks[j]).id
}

/// A recorded start is never before the task's creation; a running task
/// has started; a finished task's end is not before its start (so on a
/// finished task, `end >= start >= created`).
pub open spec fn times_ok(t: Task) -> bool {
    &&& match t.start {
        Option::Some(s) => t.created <= s,
        Option::None => true,
    }
    &&& t.status is Running ==> t.start is Some
    &&& t.status is Done ==> match (t.start, t.end) {
        (Option::Some(s), Option::Some(e)) => s <= e,
        _ => false,
    }
}

/// Some group of `groups` carries the name.
pub open spec fn group_exists(groups: Seq<Group>, name: Seq<char>) -> bool {
    exists|j: int| 0 <= j < groups.len() && (#[trigger] groups[j]).name@ == name
}

/// The invariant of a reachable state.
pub open spec fn state_wf(s: State) -> bool {
    &&& ids_unique(s.tasks@)
    &&& forall|i: int| 0 <= i < s.tasks@.len() ==> (#[trigger] s.tasks@[i]).id < s.next_id
    &&& forall|i: int| 0 <= i < s.tasks@.len() ==> times_ok(#[trigger] s.tasks@[i])
    &&& forall|i: int|
        0 <= i < s.tasks@.len() ==> group_exists(s.groups@, (#[trigger] s.tasks@[i]).group@)
    &&& forall|j: int|
        0 <= j < s.groups@.len() ==> running_in(s.tasks@, (#[trigger] s.groups@[j]).name@)
            <= s.groups@[j].parallel_slots
    &&& forall|j: int| 0 <= j < s.groups@.len() ==> (#[trigger] s.groups@[j]).parallel_slots >= 1
    &&& forall|i: int, j: int|
        0 <= i < j < s.groups@.len() ==> (#[trigger] s.groups@[i]).name@ != (
        #[trigger] s.groups@[j]).name@
    &&& group_exists(s.groups@, "default"@)
}

/// A finished task demoted on reload: a running task is set back to
/// queued — its child cannot have survived the daemon — and any other
/// task is kept as it is.
pub open spec fn demoted(t: Task) -> TaskStatus {
    if t.status is Running {
        TaskStatus::Queued
    } else {
        t.status
    }
}

/// The start timestamp recorded for an admission observed at `now`: never
/// before the task's creation.
pub open spec fn start_of(created: u64, now: u64) -> u64 {
    if now >= created {
        now
    } else {
        created
    }
}

/// The start stamped on a task failed for its dependencies at `now`: the
/// recorded start where one exists — the task may have run before a reload
/// demoted it — else the failure time, never before creation.
pub open spec fn failed_start(t: Task, now: u64) -> u64 {
    match t.start {
        Option::Some(st) => st,
        Option::None => start_of(t.created, now),
    }
}

/// The end timestamp recorded for a finish observed at `now`: never
/// before the recorded start.
pub open spec fn end_of(start: Option<u64>, now: u64) -> u64 {
    match start {
        Option::Some(st) => if now >= st {
            now
        } else {
            st
        },
        Option::None => now,
    }
}

/// Replacing a task changes a group's running count by the difference of
/// the two tasks' flags.
proof fn lemma_running_in_update(tasks: Seq<Task>, k: int, t2: Task, g: Seq<char>)
    requires
        0 <= k < tasks.len(),
    ensures
        running_in(tasks.update(k, t2), g) + running_flag(tasks[k], g) == running_in(tasks, g)
            + running_flag(t2, g),
    decreases tasks.len(),
{
    let u = tasks.update(k, t2);
    if k == tasks.len() - 1 {
        assert(u.drop_last() =~= tasks.drop_last());
        assert(u.last() == t2);
    } else {
        assert(u.drop_last() =~= tasks.drop_last().update(k, t2));
        assert(u.last() == tasks.last());
        lemma_running_in_update(tasks.drop_last(), k, t2, g);
    }
}

/// Appending a task adds its flag to a group's running count.
proof fn lemma_running_in_push(tasks: Seq<Task>, t: Task, g: Seq<char>)
    ensures
        running_in(tasks.push(t), g) == running_in(tasks, g) + running_flag(t, g),
{
    assert(tasks.push(t).drop_last() =~= tasks);
    assert(tasks.push(t).last() == t);
}

/// Removing a task subtracts its flag from a group's running count.
proof fn lemma_running_in_remove(tasks: Seq<Task>, k: int, g: Seq<char>)
    requires
        0 <= k < tasks.len(),
    ensures
        running_in(tasks.remove(k), g) + running_flag(tasks[k], g) == running_in(tasks, g),
    decreases tasks.len(),
{
    let u = tasks.remove(k);
    if k == tasks.len() - 1 {
        assert(u =~= tasks.drop_last());
    } else {
        assert(u.drop_last() =~= tasks.drop_last().remove(k));
        assert(u.last() == tasks.last());
        lemma_running_in_remove(tasks.drop_last(), k, g);
    }
}

/// A group no task names has no running tasks.
proof fn lemma_running_in_zero(tasks: Seq<Task>, g: Seq<char>)
    requires
        forall|i: int| 0 <= i < tasks.len() ==> (#[trigger] tasks[i]).group@ != g,
    ensures
        running_in(tasks, g) == 0,
    decreases tasks.len(),
{
    if tasks.len() > 0 {
        assert(forall|i: int|
            0 <= i < tasks.drop_last().len() ==> tasks.drop_last()[i] == #[trigger] tasks[i]);
        lemma_running_in_zero(tasks.drop_last(), g);
        assert(tasks.last() == tasks[tasks.len() - 1]);
    }
}

/// The status after an ungate request: stashed, locked, paused and queued
/// tasks become queued; a running or finished task is left as it is.
pub open spec fn started_status(s: TaskStatus) -> TaskStatus {
    match s {
        TaskStatus::Stashed { .. } => TaskStatus::Queued,
        TaskStatus::Locked => TaskStatus::Queued,
        TaskStatus::Paused => TaskStatus::Queued,
        TaskStatus::Queued => TaskStatus::Queued,
        TaskStatus::Running => TaskStatus::Running,
        TaskStatus::Done(r) => TaskStatus::Done(r),
    }
}

/// The status after a pause request: a queued task becomes paused; any
/// other status — paused ones included — is left as it is.
pub open spec fn paused_status(s: TaskStatus) -> TaskStatus {
    match s {
        TaskStatus::Queued => TaskStatus::Paused,
        other => other,
    }
}

/// The dependency on id `dep` is satisfied: a task with that id exists and
/// finished successfully.
pub open spec fn dep_done(tasks: Seq<Task>, dep: u64) -> bool {
    exists|i: int|
        0 <= i < tasks.len() && (#[trigger] tasks[i]).id == dep && (tasks[i].status matches
        TaskStatus::Done(r) && r matches TaskResult::Success)
}

/// The task is ready to be admitted: every one of its dependencies is
/// satisfied.
pub open spec fn ready_task(tasks: Seq<Task>, t: Task) -> bool {
    forall|d: int| 0 <= d < t.dependencies@.len() ==> dep_done(tasks, #[trigger] t.dependencies@[d])
}

/// The dependency on id `dep` has failed: a task with that id exists and
/// finished without success.
pub open spec fn dep_failed(tasks: Seq<Task>, dep: u64) -> bool {
    exists|i: int|
        0 <= i < tasks.len() && (#[trigger] tasks[i]).id == dep && (tasks[i].status matches
        TaskStatus::Done(r) && !(r matches TaskResult::Success))
}

/// Some dependency of the task has failed, so the task can never run.
pub open spec fn has_failed_dep(tasks: Seq<Task>, t: Task) -> bool {
    exists|d: int|
        0 <= d < t.dependencies@.len() && dep_failed(tasks, #[trigger] t.dependencies@[d])
}

/// A stashed task promoted at time `now`: it becomes queued once its
/// enqueue time has passed; every other task is kept as it is.
pub open spec fn promoted(t: Task, now: u64) -> TaskStatus {
    match t.status {
        TaskStatus::Stashed { enqueue_at: Option::Some(at) } => if at <= now {
            TaskStatus::Queued
        } else {
            TaskStatus::Stashed { enqueue_at: Option::Some(at) }
        },
        other => other,
    }
}

/// The task at position `k` may be admitted into group `g`: it belongs to
/// the group, is queued, and every dependency is satisfied.
pub open spec fn admissible(tasks: Seq<Task>, g: Seq<char>, k: int) -> bool {
    &&& 0 <= k < tasks.len()
    &&& tasks[k].group@ == g
    &&& tasks[k].status is Queued
    &&& ready_task(tasks, tasks[k])
}

impl State {
    /// A fresh state: no tasks, the default group with one slot, ids from
    /// zero.
    pub fn new() -> (s: State)
        ensures
            state_wf(s),
            s.tasks@.len() == 0,
            s.next_id == 0,
            s.groups@.len() == 1,
            s.groups@[0].name@ == "default"@,
            s.groups@[0].parallel_slots == 1,
            s.groups@[0].status == GroupStatus::Running,
    {
        let mut groups: Vec<Group> = Vec::new();
        groups.push(
            Group { name: String::from_str("default"), parallel_slots: 1, status: GroupStatus::Running },
        );
        let s = State { tasks: Vec::new(), groups, next_id: 0 };
        proof {
            assert(s.groups@[0].name@ == "default"@);
            assert(group_exists(s.groups@, "default"@));
            assert(forall|j: int|
                0 <= j < s.groups@.len() ==> running_in(s.tasks@, (#[trigger] s.groups@[j]).name@)
                    == 0);
        }
        s
    }

    /// Find the position of the task with the given id.
    fn find_task(&self, id: u64) -> (r: Option<usize>)
        ensures
            match r {
                Option::Some(k) => k < self.tasks@.len() && self.tasks@[k as int].id == id,
                Option::None => forall|i: int|
                    0 <= i < self.tasks@.len() ==> (#[trigger] self.tasks@[i]).id != id,
            },
    {
        let mut k: usize = 0;
        while k < self.tasks.len()
            invariant
                k <= self.tasks@.len(),
                forall|i: int| 0 <= i < k ==> (#[trigger] self.tasks@[i]).id != id,
            decreases self.tasks@.len() - k,
        {
            if self.tasks[k].id == id {
                return Option::Some(k);
            }
            k += 1;
        }
        Option::None
    }

    /// Find the position of the group with the given name.
    fn find_group(&self, name: &String) -> (r: Option<usize>)
        ensures
            match r {
                Option::Some(j) => j < self.groups@.len() && self.groups@[j as int].name@ == name@,
                Option::None => !group_exists(self.groups@, name@),
            },
    {
        let mut j: usize = 0;
        while j < self.groups.len()
            invariant
                j <= self.groups@.len(),
                forall|i: int| 0 <= i < j ==> (#[trigger] self.groups@[i]).name@ != name@,
            decreases self.groups@.len() - j,
        {
            if self.groups[j].name.eq(name) {
                return Option::Some(j);
            }
            j += 1;
        }
        Option::None
    }

    /// Count the running tasks of group `g`; agrees with [`running_in`].
    fn count_running(&self, g: &String) -> (r: usize)
        ensures
            r as nat == running_in(self.tasks@, g@),
    {
        let mut count: usize = 0;
        let mut i: usize = 0;
        proof {
            assert(self.tasks@.take(0) =~= Seq::<Task>::empty());
        }
        while i < self.tasks.len()
            invariant
                i <= self.tasks@.len(),
                count <= i,
                count as nat == running_in(self.tasks@.take(i as int), g@),
            decreases self.tasks@.len() - i,
        {
            let t = &self.tasks[i];
            let occupies = t.group.eq(g) && matches!(t.status, TaskStatus::Running);
            proof {
                let s1 = self.tasks@.take(i + 1);
                assert(s1.drop_last() =~= self.tasks@.take(i as int));
                assert(s1.last() == self.tasks@[i as int]);
            }
            if occupies {
                count += 1;
            }
            i += 1;
        }
        proof {
            assert(self.tasks@.take(self.tasks@.len() as int) =~= self.tasks@);
        }
        count
    }

    /// Create a task in the given group: it gets the next id — strictly
    /// above every id ever assigned — and starts out queued, or stashed
    /// when so requested.
    pub fn add_task(
        &mut self,
        command: String,
        path: String,
        label: Option<String>,
        group: String,
        dependencies: Vec<u64>,
        created: u64,
        stashed: bool,
        enqueue_at: Option<u64>,
    ) -> (r: Result<u64, StateError>)
        requires
            state_wf(*old(self)),
            old(self).next_id < u64::MAX,
        ensures
            state_wf(*final(self)),
            r matches Result::Ok(_) <==> group_exists(old(self).groups@, group@),
            !group_exists(old(self).groups@, group@) <==> r matches Result::Err(
                StateError::NotFound,
            ),
            r matches Result::Err(_) ==> *final(self) == *old(self),
            r matches Result::Ok(id) ==> {
                &&& id == old(self).next_id
                &&& final(self).next_id == old(self).next_id + 1
                &&& final(self).groups == old(self).groups
                &&& final(self).tasks@.len() == old(self).tasks@.len() + 1
                &&& final(self).tasks@.take(old(self).tasks@.len() as int) == old(self).tasks@
                &&& final(self).tasks@.last().id == id
                &&& final(self).tasks@.last().command == command
                &&& final(self).tasks@.last().path == path
                &&& final(self).tasks@.last().label == label
                &&& final(self).tasks@.last().group == group
                &&& final(self).tasks@.last().dependencies == dependencies
                &&& final(self).tasks@.last().created == created
                &&& final(self).tasks@.last().status == (if stashed {
                    TaskStatus::Stashed { enqueue_at }
                } else {
                    TaskStatus::Queued
                })
                &&& final(self).tasks@.last().start is None
                &&& final(self).tasks@.last().end is None
                &&& forall|i: int|
                    0 <= i < old(self).tasks@.len() ==> (#[trigger] old(self).tasks@[i]).id < id
            },
    {
        if self.find_group(&group).is_none() {
            return Result::Err(StateError::NotFound);
        }
        let id = self.next_id;
        let status = if stashed {
            TaskStatus::Stashed { enqueue_at }
        } else {
            TaskStatus::Queued
        };
        let t = Task {
            id,
            command,
            path,
            label,
            group,
            dependencies,
            status,
            created,
            start: Option::None,
            end: Option::None,
        };
        let ghost old_tasks = self.tasks@;
        proof {
            assert(running_flag(t, t.group@) == 0);
        }
        self.tasks.push(t);
        self.next_id = id + 1;
        proof {
            assert(self.tasks@.take(old_tasks.len() as int) =~= old_tasks);
            assert forall|j: int| 0 <= j < self.groups@.len() implies running_in(
                self.tasks@,
                (#[trigger] self.groups@[j]).name@,
            ) <= self.groups@[j].parallel_slots by {
                lemma_running_in_push(old_tasks, t, self.groups@[j].name@);
            }
        }
        Result::Ok(id)
    }

    /// Ungate the task with the given id: see [`started_status`]. On an
    /// already-running task this changes nothing.
    pub fn start_task(&mut self, id: u64) -> (r: Result<(), StateError>)
        requires
            state_wf(*old(self)),
        ensures
            state_wf(*final(self)),
            final(self).groups == old(self).groups,
            final(self).next_id == old(self).next_id,
            r matches Result::Err(e) ==> e == StateError::NotFound && *final(self) == *old(self)
                && (forall|i: int|
                0 <= i < old(self).tasks@.len() ==> (#[trigger] old(self).tasks@[i]).id != id),
            r matches Result::Ok(_) ==> exists|k: int|
                {
                    let t0 = #[trigger] old(self).tasks@[k];
                    &&& 0 <= k < old(self).tasks@.len()
                    &&& t0.id == id
                    &&& final(self).tasks@ == old(self).tasks@.update(
                        k,
                        (Task { status: started_status(t0.status), ..t0 }),
                    )
                    &&& t0.status is Running ==> final(self).tasks@ == old(self).tasks@
                },
    {
        let k = match self.find_task(id) {
            Option::Some(k) => k,
            Option::None => {
                return Result::Err(StateError::NotFound);
            },
        };
        let ghost old_tasks = self.tasks@;
        let mut t = self.tasks.remove(k);
        let ghost old_t = t;
        t.status = match t.status {
            TaskStatus::Stashed { .. } => TaskStatus::Queued,
            TaskStatus::Locked => TaskStatus::Queued,
            TaskStatus::Paused => TaskStatus::Queued,
            TaskStatus::Queued => TaskStatus::Queued,
            TaskStatus::Running => TaskStatus::Running,
            TaskStatus::Done(r) => TaskStatus::Done(r),
        };
        self.tasks.insert(k, t);
        proof {
            assert(self.tasks@ =~= old_tasks.update(k as int, t));
            assert(t == Task { status: started_status(old_t.status), ..old_t });
            if old_t.status is Running {
                assert(t == old_t);
                assert(self.tasks@ =~= old_tasks);
            }
            assert forall|j: int| 0 <= j < self.groups@.len() implies running_in(
                self.tasks@,
                (#[trigger] self.groups@[j]).name@,
            ) <= self.groups@[j].parallel_slots by {
                lemma_running_in_update(old_tasks, k as int, t, self.groups@[j].name@);
            }
        }
        Result::Ok(())
    }

    /// Pause the task with the given id: see [`paused_status`]. On an
    /// already-paused task this changes nothing.
    pub fn pause_task(&mut self, id: u64) -> (r: Result<(), StateError>)
        requires
            state_wf(*old(self)),
        ensures
            state_wf(*final(self)),
            final(self).groups == old(self).groups,
            final(self).next_id == old(self).next_id,
            r matches Result::Err(e) ==> e == StateError::NotFound && *final(self) == *old(self)
                && (forall|i: int|
                0 <= i < old(self).tasks@.len() ==> (#[trigger] old(self).tasks@[i]).id != id),
            r matches Result::Ok(_) ==> exists|k: int|
                {
                    let t0 = #[trigger] old(self).tasks@[k];
                    &&& 0 <= k < old(self).tasks@.len()
                    &&& t0.id == id
                    &&& final(self).tasks@ == old(self).tasks@.update(
                        k,
                        (Task { status: paused_status(t0.status), ..t0 }),
                    )
                    &&& t0.status is Paused ==> final(self).tasks@ == old(self).tasks@
                },
    {
        let k = match self.find_task(id) {
            Option::Some(k) => k,
            Option::None => {
                return Result::Err(StateError::NotFound);
            },
        };
        let ghost old_tasks = self.tasks@;
        let mut t = self.tasks.remove(k);
        let ghost old_t = t;
        t.status = match t.status {
            TaskStatus::Queued => TaskStatus::Paused,
            other => other,
        };
        self.tasks.insert(k, t);
        proof {
            assert(self.tasks@ =~= old_tasks.update(k as int, t));
            assert(t == Task { status: paused_status(old_t.status), ..old_t });
            if old_t.status is Paused {
                assert(t == old_t);
                assert(self.tasks@ =~= old_tasks);
            }
            assert forall|j: int| 0 <= j < self.groups@.len() implies running_in(
                self.tasks@,
                (#[trigger] self.groups@[j]).name@,
            ) <= self.groups@[j].parallel_slots by {
                lemma_running_in_update(old_tasks, k as int, t, self.groups@[j].name@);
            }
        }
        Result::Ok(())
    }

    /// Remove the task with the given id. An absent id fails with
    /// `NotFound` and leaves the state unchanged; a running task is
    /// refused.
    pub fn remove_task(&mut self, id: u64) -> (r: Result<(), StateError>)
        requires
            state_wf(*old(self)),
        ensures
            state_wf(*final(self)),
            final(self).groups == old(self).groups,
            final(self).next_id == old(self).next_id,
            r matches Result::Err(_) ==> *final(self) == *old(self),
            r matches Result::Err(e) && e == StateError::NotFound <==> (forall|i: int|
                0 <= i < old(self).tasks@.len() ==> (#[trigger] old(self).tasks@[i]).id != id),
            r matches Result::Ok(_) <==> exists|k: int|
                0 <= k < old(self).tasks@.len() && (#[trigger] old(self).tasks@[k]).id == id && !(
                old(self).tasks@[k].status is Running),
            r matches Result::Ok(_) ==> exists|k: int|
                {
                    &&& 0 <= k < old(self).tasks@.len()
                    &&& (#[trigger] old(self).tasks@[k]).id == id
                    &&& !(old(self).tasks@[k].status is Running)
                    &&& final(self).tasks@ == old(self).tasks@.remove(k)
                },
    {
        let k = match self.find_task(id) {
            Option::Some(k) => k,
            Option::None => {
                return Result::Err(StateError::NotFound);
            },
        };
        if matches!(self.tasks[k].status, TaskStatus::Running) {
            proof {
                assert forall|k2: int|
                    0 <= k2 < self.tasks@.len() && (#[trigger] self.tasks@[k2]).id
                        == id implies self.tasks@[k2].status is Running by {
                    if k2 != k as int {
                        assert(self.tasks@[k2].id != self.tasks@[k as int].id);
                    }
                }
            }
            return Result::Err(StateError::InvalidState);
        }
        let ghost old_tasks = self.tasks@;
        let _ = self.tasks.remove(k);
        proof {
            assert forall|j: int| 0 <= j < self.groups@.len() implies running_in(
                self.tasks@,
                (#[trigger] self.groups@[j]).name@,
            ) <= self.groups@[j].parallel_slots by {
                lemma_running_in_remove(old_tasks, k as int, self.groups@[j].name@);
            }
        }
        Result::Ok(())
    }

    /// Whether the dependency on id `dep` is satisfied; agrees with
    /// [`dep_done`].
    fn dep_satisfied(&self, dep: u64) -> (r: bool)
        ensures
            r == dep_done(self.tasks@, dep),
    {
        let mut i: usize = 0;
        while i < self.tasks.len()
            invariant
                i <= self.tasks@.len(),
                forall|m: int|
                    0 <= m < i ==> !((#[trigger] self.tasks@[m]).id == dep && (
                    self.tasks@[m].status matches TaskStatus::Done(r) && r
                        matches TaskResult::Success)),
            decreases self.tasks@.len() - i,
        {
            let ti = &self.tasks[i];
            if ti.id == dep && matches!(ti.status, TaskStatus::Done(TaskResult::Success)) {
                return true;
            }
            i += 1;
        }
        false
    }

    /// Whether the task at `k` is ready to admit; agrees with
    /// [`ready_task`].
    fn is_ready(&self, k: usize) -> (r: bool)
        requires
            k < self.tasks@.len(),
        ensures
            r == ready_task(self.tasks@, self.tasks@[k as int]),
    {
        let mut d: usize = 0;
        while d < self.tasks[k].dependencies.len()
            invariant
                k < self.tasks@.len(),
                d <= self.tasks@[k as int].dependencies@.len(),
                forall|dd: int|
                    0 <= dd < d ==> dep_done(
                        self.tasks@,
                        #[trigger] self.tasks@[k as int].dependencies@[dd],
                    ),
            decreases self.tasks@[k as int].dependencies@.len() - d,
        {
            let dep = self.tasks[k].dependencies[d];
            if !self.dep_satisfied(dep) {
                return false;
            }
            d += 1;
        }
        true
    }

    /// Create a group. The name must be new and the slot count positive.
    pub fn add_group(&mut self, name: String, parallel_slots: usize) -> (r: Result<
        (),
        StateError,
    >)
        requires
            state_wf(*old(self)),
        ensures
            state_wf(*final(self)),
            r matches Result::Err(_) ==> *final(self) == *old(self),
            r matches Result::Ok(_) <==> parallel_slots >= 1 && !group_exists(
                old(self).groups@,
                name@,
            ),
            r matches Result::Ok(_) ==> {
                &&& final(self).tasks == old(self).tasks
                &&& final(self).next_id == old(self).next_id
                &&& final(self).groups@ == old(self).groups@.push(
                    (Group { name, parallel_slots, status: GroupStatus::Running }),
                )
            },
    {
        if parallel_slots == 0 {
            return Result::Err(StateError::InvalidState);
        }
        if self.find_group(&name).is_some() {
            return Result::Err(StateError::InvalidState);
        }
        let ghost old_groups = self.groups@;
        let ghost name_v = name@;
        let g = Group { name, parallel_slots, status: GroupStatus::Running };
        self.groups.push(g);
        proof {
            assert forall|i: int| 0 <= i < self.tasks@.len() implies (
            #[trigger] self.tasks@[i]).group@ != name_v by {
                if self.tasks@[i].group@ == name_v {
                    assert(group_exists(old_groups, name_v));
                }
            }
            lemma_running_in_zero(self.tasks@, name_v);
            assert forall|i: int| 0 <= i < self.tasks@.len() implies group_exists(
                self.groups@,
                (#[trigger] self.tasks@[i]).group@,
            ) by {
                let j = choose|j: int|
                    0 <= j < old_groups.len() && (#[trigger] old_groups[j]).name@
                        == self.tasks@[i].group@;
                assert(self.groups@[j].name@ == self.tasks@[i].group@);
            }
            assert(group_exists(self.groups@, "default"@)) by {
                let j = choose|j: int|
                    0 <= j < old_groups.len() && (#[trigger] old_groups[j]).name@ == "default"@;
                assert(self.groups@[j].name@ == "default"@);
            }
        }
        Result::Ok(())
    }

    /// Admit a queued task: mark it running and record its start time.
    /// Admission is granted exactly when the task exists, is queued, every
    /// dependency has finished successfully, and its group has a free slot
    /// — so a group never runs more tasks than it has slots.
    pub fn admit_task(&mut self, id: u64, now: u64) -> (r: Result<(), StateError>)
        requires
            state_wf(*old(self)),
        ensures
            state_wf(*final(self)),
            final(self).groups == old(self).groups,
            final(self).next_id == old(self).next_id,
            r matches Result::Err(_) ==> *final(self) == *old(self),
            r matches Result::Err(e) && e == StateError::NotFound <==> (forall|i: int|
                0 <= i < old(self).tasks@.len() ==> (#[trigger] old(self).tasks@[i]).id != id),
            r matches Result::Ok(_) <==> exists|k: int|
                {
                    let t0 = #[trigger] old(self).tasks@[k];
                    &&& 0 <= k < old(self).tasks@.len()
                    &&& t0.id == id
                    &&& t0.status is Queued
                    &&& ready_task(old(self).tasks@, t0)
                    &&& exists|j: int|
                        0 <= j < old(self).groups@.len() && (#[trigger] old(
                            self,
                        ).groups@[j]).name@ == t0.group@ && running_in(old(self).tasks@, t0.group@)
                            < old(self).groups@[j].parallel_slots
                },
            r matches Result::Ok(_) ==> exists|k: int|
                {
                    let t0 = #[trigger] old(self).tasks@[k];
                    &&& 0 <= k < old(self).tasks@.len()
                    &&& t0.id == id
                    &&& final(self).tasks@ == old(self).tasks@.update(
                        k,
                        (Task {
                            status: TaskStatus::Running,
                            start: Option::Some(start_of(t0.created, now)),
                            ..t0
                        }),
                    )
                },
    {
        let k = match self.find_task(id) {
            Option::Some(k) => k,
            Option::None => {
                return Result::Err(StateError::NotFound);
            },
        };
        if !matches!(self.tasks[k].status, TaskStatus::Queued) {
            return Result::Err(StateError::InvalidState);
        }
        if !self.is_ready(k) {
            return Result::Err(StateError::InvalidState);
        }
        let j = match self.find_group(&self.tasks[k].group) {
            Option::Some(j) => j,
            Option::None => {
                proof {
                    assert(group_exists(self.groups@, self.tasks@[k as int].group@));
                }
                return Result::Err(StateError::NotFound);
            },
        };
        let count = self.count_running(&self.tasks[k].group);
        if count >= self.groups[j].parallel_slots {
            proof {
                assert forall|j2: int|
                    0 <= j2 < self.groups@.len() && (#[trigger] self.groups@[j2]).name@
                        == self.tasks@[k as int].group@ implies !(running_in(
                    self.tasks@,
                    self.tasks@[k as int].group@,
                ) < self.groups@[j2].parallel_slots) by {
                    assert(j2 == j as int);
                }
            }
            return Result::Err(StateError::InvalidState);
        }
        let ghost old_tasks = self.tasks@;
        let mut t = self.tasks.remove(k);
        let ghost old_t = t;
        let st = if now >= t.created {
            now
        } else {
            t.created
        };
        t.status = TaskStatus::Running;
        t.start = Option::Some(st);
        self.tasks.insert(k, t);
        proof {
            assert(self.tasks@ =~= old_tasks.update(k as int, t));
            assert(t == (Task {
                status: TaskStatus::Running,
                start: Option::Some(start_of(old_t.created, now)),
                ..old_t
            }));
            assert forall|j2: int| 0 <= j2 < self.groups@.len() implies running_in(
                self.tasks@,
                (#[trigger] self.groups@[j2]).name@,
            ) <= self.groups@[j2].parallel_slots by {
                lemma_running_in_update(old_tasks, k as int, t, self.groups@[j2].name@);
                if self.groups@[j2].name@ == t.group@ {
                    assert(j2 == j as int);
                }
            }
        }
        Result::Ok(())
    }


    /// The scheduler's admission step for one group: admit the ready queued
    /// task with the smallest id, provided the group has a free slot. The
    /// admitted id is returned.
    pub fn admit_next_task(&mut self, group: &String, now: u64) -> (r: Result<u64, StateError>)
        requires
            state_wf(*old(self)),
        ensures
            state_wf(*final(self)),
            final(self).groups == old(self).groups,
            final(self).next_id == old(self).next_id,
            r matches Result::Err(_) ==> *final(self) == *old(self),
            r matches Result::Err(e) && e == StateError::NotFound <==> !group_exists(
                old(self).groups@,
                group@,
            ),
            r matches Result::Ok(_) <==> (exists|k: int|
                admissible(old(self).tasks@, group@, k)) && (exists|j: int|
                0 <= j < old(self).groups@.len() && (#[trigger] old(self).groups@[j]).name@
                    == group@ && running_in(old(self).tasks@, group@) < old(
                    self,
                ).groups@[j].parallel_slots),
            r matches Result::Ok(id) ==> exists|k: int|
                {
                    let t0 = #[trigger] old(self).tasks@[k];
                    &&& admissible(old(self).tasks@, group@, k)
                    &&& t0.id == id
                    &&& final(self).tasks@ == old(self).tasks@.update(
                        k,
                        (Task {
                            status: TaskStatus::Running,
                            start: Option::Some(start_of(t0.created, now)),
                            ..t0
                        }),
                    )
                },
            r matches Result::Ok(id) ==> forall|k2: int|
                admissible(old(self).tasks@, group@, k2) ==> id <= (#[trigger] old(
                    self,
                ).tasks@[k2]).id,
    {
        let j = match self.find_group(group) {
            Option::Some(j) => j,
            Option::None => {
                return Result::Err(StateError::NotFound);
            },
        };
        let mut best: Option<usize> = Option::None;
        let mut i: usize = 0;
        while i < self.tasks.len()
            invariant
                i <= self.tasks@.len(),
                match best {
                    Option::Some(b) => admissible(self.tasks@, group@, b as int) && b < i
                        && forall|k2: int|
                        0 <= k2 < i && admissible(self.tasks@, group@, k2)
                            ==> self.tasks@[b as int].id <= (#[trigger] self.tasks@[k2]).id,
                    Option::None => forall|k2: int|
                        0 <= k2 < i ==> !admissible(self.tasks@, group@, k2),
                },
            decreases self.tasks@.len() - i,
        {
            let in_group = self.tasks[i].group.eq(group);
            let queued = matches!(self.tasks[i].status, TaskStatus::Queued);
            if in_group && queued && self.is_ready(i) {
                let replace = match best {
                    Option::None => true,
                    Option::Some(b) => self.tasks[i].id < self.tasks[b].id,
                };
                if replace {
                    best = Option::Some(i);
                }
            }
            i += 1;
        }
        let b = match best {
            Option::Some(b) => b,
            Option::None => {
                return Result::Err(StateError::InvalidState);
            },
        };
        let count = self.count_running(group);
        if count >= self.groups[j].parallel_slots {
            proof {
                assert forall|j2: int|
                    0 <= j2 < self.groups@.len() && (#[trigger] self.groups@[j2]).name@
                        == group@ implies !(running_in(self.tasks@, group@)
                    < self.groups@[j2].parallel_slots) by {
                    assert(j2 == j as int);
                }
            }
            return Result::Err(StateError::InvalidState);
        }
        let id = self.tasks[b].id;
        let r = self.admit_task(id, now);
        proof {
            assert forall|k2: int|
                0 <= k2 < old(self).tasks@.len() && (#[trigger] old(self).tasks@[k2]).id
                    == id implies k2 == b as int by {
                if k2 != b as int {
                    assert(old(self).tasks@[k2].id != old(self).tasks@[b as int].id);
                }
            }
            assert(admissible(old(self).tasks@, group@, b as int) && old(self).tasks@[b as int].id
                == id && old(self).tasks@[b as int].status is Queued && ready_task(
                old(self).tasks@,
                old(self).tasks@[b as int],
            ) && old(self).groups@[j as int].name@ == group@ && running_in(
                old(self).tasks@,
                group@,
            ) < old(self).groups@[j as int].parallel_slots);
            assert(r matches Result::Ok(_));
        }
        match r {
            Result::Ok(_) => Result::Ok(id),
            Result::Err(e) => Result::Err(e),
        }
    }

    /// Record the end of a running task: it becomes `Done(result)` with an
    /// end never before its recorded start.
    pub fn finish_task(&mut self, id: u64, result: TaskResult, now: u64) -> (r: Result<
        (),
        StateError,
    >)
        requires
            state_wf(*old(self)),
        ensures
            state_wf(*final(self)),
            final(self).groups == old(self).groups,
            final(self).next_id == old(self).next_id,
            r matches Result::Err(_) ==> *final(self) == *old(self),
            r matches Result::Err(e) && e == StateError::NotFound <==> (forall|i: int|
                0 <= i < old(self).tasks@.len() ==> (#[trigger] old(self).tasks@[i]).id != id),
            r matches Result::Ok(_) <==> exists|k: int|
                0 <= k < old(self).tasks@.len() && (#[trigger] old(self).tasks@[k]).id == id && old(
                    self,
                ).tasks@[k].status is Running,
            r matches Result::Ok(_) ==> exists|k: int|
                {
                    let t0 = #[trigger] old(self).tasks@[k];
                    &&& 0 <= k < old(self).tasks@.len()
                    &&& t0.id == id
                    &&& final(self).tasks@ == old(self).tasks@.update(
                        k,
                        (Task {
                            status: TaskStatus::Done(result),
                            end: Option::Some(end_of(t0.start, now)),
                            ..t0
                        }),
                    )
                },
    {
        let k = match self.find_task(id) {
            Option::Some(k) => k,
            Option::None => {
                return Result::Err(StateError::NotFound);
            },
        };
        if !matches!(self.tasks[k].status, TaskStatus::Running) {
            return Result::Err(StateError::InvalidState);
        }
        let ghost old_tasks = self.tasks@;
        let mut t = self.tasks.remove(k);
        let ghost old_t = t;
        let end = match t.start {
            Option::Some(st) => if now >= st {
                now
            } else {
                st
            },
            Option::None => now,
        };
        t.status = TaskStatus::Done(result);
        t.end = Option::Some(end);
        self.tasks.insert(k, t);
        proof {
            assert(self.tasks@ =~= old_tasks.update(k as int, t));
            assert(t == (Task {
                status: TaskStatus::Done(result),
                end: Option::Some(end_of(old_t.start, now)),
                ..old_t
            }));
            assert forall|j2: int| 0 <= j2 < self.groups@.len() implies running_in(
                self.tasks@,
                (#[trigger] self.groups@[j2]).name@,
            ) <= self.groups@[j2].parallel_slots by {
                lemma_running_in_update(old_tasks, k as int, t, self.groups@[j2].name@);
            }
        }
        Result::Ok(())
    }


    /// Whether some dependency of the task at `k` has failed; agrees with
    /// [`has_failed_dep`].
    fn has_failed_dependency(&self, k: usize) -> (r: bool)
        requires
            k < self.tasks@.len(),
        ensures
            r == has_failed_dep(self.tasks@, self.tasks@[k as int]),
    {
        let mut d: usize = 0;
        while d < self.tasks[k].dependencies.len()
            invariant
                k < self.tasks@.len(),
                d <= self.tasks@[k as int].dependencies@.len(),
                forall|dd: int|
                    0 <= dd < d ==> !dep_failed(
                        self.tasks@,
                        #[trigger] self.tasks@[k as int].dependencies@[dd],
                    ),
            decreases self.tasks@[k as int].dependencies@.len() - d,
        {
            let dep = self.tasks[k].dependencies[d];
            let mut i: usize = 0;
            let mut failed = false;
            while i < self.tasks.len()
                invariant
                    i <= self.tasks@.len(),
                    failed ==> dep_failed(self.tasks@, dep),
                    !failed ==> forall|m: int|
                        0 <= m < i ==> !((#[trigger] self.tasks@[m]).id == dep && (
                        self.tasks@[m].status matches TaskStatus::Done(r) && !(r
                            matches TaskResult::Success))),
                decreases self.tasks@.len() - i,
            {
                let ti = &self.tasks[i];
                if ti.id == dep {
                    if let TaskStatus::Done(res) = &ti.status {
                        if !matches!(res, TaskResult::Success) {
                            failed = true;
                        }
                    }
                }
                i += 1;
            }
            if failed {
                return true;
            }
            d += 1;
        }
        false
    }

    /// Fail a queued task whose dependency has finished without success:
    /// it becomes `Done(DependencyFailed)` without ever running, stamped at
    /// `now`.
    pub fn fail_dependent_task(&mut self, id: u64, now: u64) -> (r: Result<(), StateError>)
        requires
            state_wf(*old(self)),
        ensures
            state_wf(*final(self)),
            final(self).groups == old(self).groups,
            final(self).next_id == old(self).next_id,
            r matches Result::Err(_) ==> *final(self) == *old(self),
            r matches Result::Err(e) && e == StateError::NotFound <==> (forall|i: int|
                0 <= i < old(self).tasks@.len() ==> (#[trigger] old(self).tasks@[i]).id != id),
            r matches Result::Ok(_) <==> exists|k: int|
                {
                    let t0 = #[trigger] old(self).tasks@[k];
                    &&& 0 <= k < old(self).tasks@.len()
                    &&& t0.id == id
                    &&& t0.status is Queued
                    &&& has_failed_dep(old(self).tasks@, t0)
                },
            r matches Result::Ok(_) ==> exists|k: int|
                {
                    let t0 = #[trigger] old(self).tasks@[k];
                    &&& 0 <= k < old(self).tasks@.len()
                    &&& t0.id == id
                    &&& final(self).tasks@ == old(self).tasks@.update(
                        k,
                        (Task {
                            status: TaskStatus::Done(TaskResult::DependencyFailed),
                            start: Option::Some(failed_start(t0, now)),
                            end: Option::Some(end_of(Option::Some(failed_start(t0, now)), now)),
                            ..t0
                        }),
                    )
                },
    {
        let k = match self.find_task(id) {
            Option::Some(k) => k,
            Option::None => {
                return Result::Err(StateError::NotFound);
            },
        };
        if !matches!(self.tasks[k].status, TaskStatus::Queued) {
            return Result::Err(StateError::InvalidState);
        }
        if !self.has_failed_dependency(k) {
            return Result::Err(StateError::InvalidState);
        }
        let ghost old_tasks = self.tasks@;
        let mut t = self.tasks.remove(k);
        let ghost old_t = t;
        let start = match t.start {
            Option::Some(st) => st,
            Option::None => if now >= t.created {
                now
            } else {
                t.created
            },
        };
        let end = if now >= start {
            now
        } else {
            start
        };
        t.status = TaskStatus::Done(TaskResult::DependencyFailed);
        t.start = Option::Some(start);
        t.end = Option::Some(end);
        self.tasks.insert(k, t);
        proof {
            assert(self.tasks@ =~= old_tasks.update(k as int, t));
            assert forall|j2: int| 0 <= j2 < self.groups@.len() implies running_in(
                self.tasks@,
                (#[trigger] self.groups@[j2]).name@,
            ) <= self.groups@[j2].parallel_slots by {
                lemma_running_in_update(old_tasks, k as int, t, self.groups@[j2].name@);
            }
        }
        Result::Ok(())
    }

    /// Promote every stashed task whose enqueue time has passed to queued,
    /// as the scheduler does on each tick.
    pub fn enqueue_due(&mut self, now: u64)
        requires
            state_wf(*old(self)),
        ensures
            state_wf(*final(self)),
            final(self).groups == old(self).groups,
            final(self).next_id == old(self).next_id,
            final(self).tasks@.len() == old(self).tasks@.len(),
            forall|i: int|
                0 <= i < old(self).tasks@.len() ==> #[trigger] final(self).tasks@[i] == (Task {
                    status: promoted(old(self).tasks@[i], now),
                    ..old(self).tasks@[i]
                }),
    {
        let ghost orig = self.tasks@;
        let mut i: usize = 0;
        while i < self.tasks.len()
            invariant
                state_wf(*self),
                i <= self.tasks@.len(),
                self.tasks@.len() == orig.len(),
                self.groups == old(self).groups,
                self.next_id == old(self).next_id,
                orig == old(self).tasks@,
                forall|m: int|
                    0 <= m < i ==> #[trigger] self.tasks@[m] == (Task {
                        status: promoted(orig[m], now),
                        ..orig[m]
                    }),
                forall|m: int| i <= m < orig.len() ==> #[trigger] self.tasks@[m] == orig[m],
            decreases self.tasks@.len() - i,
        {
            let due = match &self.tasks[i].status {
                TaskStatus::Stashed { enqueue_at: Option::Some(at) } => *at <= now,
                _ => false,
            };
            if due {
                let ghost before = self.tasks@;
                let mut t = self.tasks.remove(i);
                t.status = TaskStatus::Queued;
                self.tasks.insert(i, t);
                proof {
                    assert(self.tasks@ =~= before.update(i as int, t));
                    assert(t == (Task { status: promoted(before[i as int], now), ..before[
                        i as int
                    ] }));
                    assert forall|j2: int| 0 <= j2 < self.groups@.len() implies running_in(
                        self.tasks@,
                        (#[trigger] self.groups@[j2]).name@,
                    ) <= self.groups@[j2].parallel_slots by {
                        lemma_running_in_update(before, i as int, t, self.groups@[j2].name@);
                    }
                }
            }
            i += 1;
        }
    }

    /// Demote every running task to queued, as done when a persisted state
    /// is reloaded: the previous daemon's children cannot have survived it.
    pub fn demote_running(&mut self)
        requires
            state_wf(*old(self)),
        ensures
            state_wf(*final(self)),
            final(self).groups == old(self).groups,
            final(self).next_id == old(self).next_id,
            final(self).tasks@.len() == old(self).tasks@.len(),
            forall|i: int|
                0 <= i < old(self).tasks@.len() ==> #[trigger] final(self).tasks@[i] == (Task {
                    status: demoted(old(self).tasks@[i]),
                    ..old(self).tasks@[i]
                }),
    {
        let ghost orig = self.tasks@;
        let mut i: usize = 0;
        while i < self.tasks.len()
            invariant
                state_wf(*self),
                i <= self.tasks@.len(),
                self.tasks@.len() == orig.len(),
                self.groups == old(self).groups,
                self.next_id == old(self).next_id,
                orig == old(self).tasks@,
                forall|m: int|
                    0 <= m < i ==> #[trigger] self.tasks@[m] == (Task {
                        status: demoted(orig[m]),
                        ..orig[m]
                    }),
                forall|m: int| i <= m < orig.len() ==> #[trigger] self.tasks@[m] == orig[m],
            decreases self.tasks@.len() - i,
        {
            if matches!(self.tasks[i].status, TaskStatus::Running) {
                let ghost before = self.tasks@;
                let mut t = self.tasks.remove(i);
                let ghost old_t = t;
                t.status = TaskStatus::Queued;
                self.tasks.insert(i, t);
                proof {
                    assert(self.tasks@ =~= before.update(i as int, t));
                    assert(t == (Task { status: demoted(before[i as int]), ..before[i as int] }));
                    assert forall|j2: int| 0 <= j2 < self.groups@.len() implies running_in(
                        self.tasks@,
                        (#[trigger] self.groups@[j2]).name@,
                    ) <= self.groups@[j2].parallel_slots by {
                        lemma_running_in_update(before, i as int, t, self.groups@[j2].name@);
                    }
                }
            }
            i += 1;
        }
    }
}

} // verus!
