//! Job control: the table of background jobs.
use vstd::prelude::*;

verus! {

/// Job state.
#[derive(Debug, Clone, Copy, PartialEq, Eq, Structural)]
pub enum JobState {
    /// Job is running.
    Running,
    /// Job has completed with exit code.
    Done(i32),
}

/// How a task ended.
#[derive(Debug, Clone, Copy, PartialEq, Eq, Structural)]
pub enum TaskOutcome {
    /// With an exit code.
    Exit(i32),
    /// With an error.
    Failed,
}

/// What is known of a task.
#[derive(Debug, Clone, Copy, PartialEq, Eq, Structural)]
pub struct TaskHandle {
    /// The number of the task.
    pub task: u64,
    /// Whether the task has ended.
    pub complete: bool,
    /// How it ended, where that is known.
    pub outcome: Option<TaskOutcome>,
}

/// A background job.
#[derive(Debug)]
pub struct Job {
    /// Job ID (1-based, for %1, %2, etc.).
    pub id: usize,
    /// Command string (for display).
    pub command: String,
    /// Task handles for all tasks in the job.
    pub handles: Vec<TaskHandle>,
    /// Job state.
    pub state: JobState,
}

impl Job {
    /// Whether all tasks have ended.
    pub open spec fn ended(self) -> bool {
        forall|i: int| 0 <= i < self.handles@.len() ==> (#[trigger] self.handles@[i]).complete
    }

    /// The state that the tasks give.
    pub open spec fn next_state(self) -> JobState {
        if !self.ended() {
            self.state
        } else if self.handles@.len() == 0 {
            JobState::Done(0)
        } else {
            match self.handles@.last().outcome {
                Some(TaskOutcome::Exit(code)) => JobState::Done(code),
                Some(TaskOutcome::Failed) => JobState::Done(1),
                None => self.state,
            }
        }
    }

    /// The job in the state that its tasks give.
    pub open spec fn updated(self) -> Job {
        Job { state: self.next_state(), ..self }
    }

    /// The numbers of the tasks.
    pub open spec fn tasks(self) -> Seq<u64> {
        self.handles@.map_values(|h: TaskHandle| h.task)
    }

    /// Check if all tasks are complete.
    pub fn is_complete(&self) -> (r: bool)
        ensures
            r == self.ended(),
    {
        let mut i: usize = 0;
        while i < self.handles.len()
            invariant
                i <= self.handles@.len(),
                forall|k: int| 0 <= k < i ==> (#[trigger] self.handles@[k]).complete,
            decreases self.handles@.len() - i,
        {
            if !self.handles[i].complete {
                return false;
            }
            i += 1;
        }
        true
    }

    /// Update state based on task completion: the exit code is that of the last
    /// task.
    pub fn update_state(&mut self)
        ensures
            *final(self) == old(self).updated(),
    {
        if self.is_complete() {
            let n = self.handles.len();
            if n > 0 {
                match self.handles[n - 1].outcome {
                    Some(TaskOutcome::Exit(code)) => {
                        self.state = JobState::Done(code);
                    },
                    Some(TaskOutcome::Failed) => {
                        self.state = JobState::Done(1);
                    },
                    None => {},
                }
            } else {
                self.state = JobState::Done(0);
            }
        }
    }

    /// Kill the job: the tasks that have to be cancelled.
    pub fn kill(&self) -> (r: Vec<u64>)
        ensures
            r@ == self.tasks(),
    {
        let mut out: Vec<u64> = Vec::new();
        let mut i: usize = 0;
        while i < self.handles.len()
            invariant
                i <= self.handles@.len(),
                out@ =~= self.tasks().take(i as int),
            decreases self.handles@.len() - i,
        {
            out.push(self.handles[i].task);
            i += 1;
        }
        proof {
            assert(out@ =~= self.tasks());
        }
        out
    }
}

/// Job table.
#[derive(Debug)]
pub struct JobTable {
    jobs: Vec<Option<Job>>,
    next_id: usize,
}

/// The first slot from `i` on without a job; the number of slots where there is
/// none.
pub open spec fn free_from(slots: Seq<Option<Job>>, i: int) -> int
    decreases slots.len() - i,
{
    if i < 0 || i >= slots.len() || slots[i] is None {
        i
    } else {
        free_from(slots, i + 1)
    }
}

/// The slots with a job put into the first free one.
pub open spec fn placed(slots: Seq<Option<Job>>, job: Job) -> Seq<Option<Job>> {
    let i = free_from(slots, 0);
    if i < slots.len() {
        slots.update(i, Some(job))
    } else {
        slots.push(Some(job))
    }
}

/// The slot from `i` on that holds the job `id`; the number of slots where none
/// does.
pub open spec fn slot_from(slots: Seq<Option<Job>>, id: usize, i: int) -> int
    decreases slots.len() - i,
{
    if i < 0 || i >= slots.len() || (slots[i] matches Some(j) && j.id == id) {
        i
    } else {
        slot_from(slots, id, i + 1)
    }
}

/// The job `id`.
pub open spec fn found(slots: Seq<Option<Job>>, id: usize) -> Option<Job> {
    let i = slot_from(slots, id, 0);
    if i < slots.len() {
        slots[i]
    } else {
        None
    }
}

/// The slots without the job `id`.
pub open spec fn without(slots: Seq<Option<Job>>, id: usize) -> Seq<Option<Job>> {
    let i = slot_from(slots, id, 0);
    if i < slots.len() {
        slots.update(i, None)
    } else {
        slots
    }
}

/// The jobs from slot `i` on, in order.
pub open spec fn listed_from(slots: Seq<Option<Job>>, i: int) -> Seq<Job>
    decreases slots.len() - i,
{
    if i < 0 || i >= slots.len() {
        Seq::empty()
    } else {
        match slots[i] {
            Some(j) => seq![j] + listed_from(slots, i + 1),
            None => listed_from(slots, i + 1),
        }
    }
}

/// The slots with every job in the state that its tasks give.
pub open spec fn refreshed(slots: Seq<Option<Job>>) -> Seq<Option<Job>> {
    slots.map_values(
        |s: Option<Job>|
            match s {
                Some(j) => Some(j.updated()),
                None => None,
            },
    )
}

/// The jobs from slot `i` on that are done, with their exit codes.
pub open spec fn done_from(slots: Seq<Option<Job>>, i: int) -> Seq<(usize, i32)>
    decreases slots.len() - i,
{
    if i < 0 || i >= slots.len() {
        Seq::empty()
    } else {
        match slots[i] {
            Some(j) => match j.state {
                JobState::Done(code) => seq![(j.id, code)] + done_from(slots, i + 1),
                JobState::Running => done_from(slots, i + 1),
            },
            None => done_from(slots, i + 1),
        }
    }
}

/// The slots after the first `n` of some jobs have been removed.
pub open spec fn cleared(slots: Seq<Option<Job>>, gone: Seq<(usize, i32)>, n: int) -> Seq<
    Option<Job>,
>
    decreases n,
{
    if n <= 0 {
        slots
    } else {
        without(cleared(slots, gone, n - 1), gone[n - 1].0)
    }
}

/// Whether no two jobs have the same ID, and no ID is above `limit`.
pub open spec fn ids_differ(slots: Seq<Option<Job>>, limit: int) -> bool {
    &&& forall|i: int| 0 <= i < slots.len() && (#[trigger] slots[i]) is Some ==> slots[i]->0.id <= limit
    &&& forall|i: int, j: int|
        0 <= i < j < slots.len() && (#[trigger] slots[i]) is Some && (#[trigger] slots[j]) is Some
            ==> slots[i]->0.id != slots[j]->0.id
}

proof fn lemma_slot_from(slots: Seq<Option<Job>>, id: usize, i: int)
    requires
        0 <= i <= slots.len(),
    ensures
        i <= slot_from(slots, id, i) <= slots.len(),
        slot_from(slots, id, i) < slots.len() ==> (slots[slot_from(slots, id, i)] matches Some(j)
            && j.id == id),
        forall|k: int|
            i <= k < slot_from(slots, id, i) ==> !((#[trigger] slots[k]) matches Some(j) && j.id
                == id),
    decreases slots.len() - i,
{
    if i < slots.len() && !(slots[i] matches Some(j) && j.id == id) {
        lemma_slot_from(slots, id, i + 1);
    }
}

proof fn lemma_free_from(slots: Seq<Option<Job>>, i: int)
    requires
        0 <= i <= slots.len(),
    ensures
        i <= free_from(slots, i) <= slots.len(),
        free_from(slots, i) < slots.len() ==> slots[free_from(slots, i)] is None,
    decreases slots.len() - i,
{
    if i < slots.len() && slots[i] is Some {
        lemma_free_from(slots, i + 1);
    }
}

impl JobTable {
    /// The slots of the table, each with a job or without one.
    pub closed spec fn slots(self) -> Seq<Option<Job>> {
        self.jobs@
    }

    /// The ID that was given last.
    pub closed spec fn last_id(self) -> int {
        self.next_id as int
    }

    /// Create a new job table.
    pub fn new() -> (r: Self)
        ensures
            r.slots() == Seq::<Option<Job>>::empty(),
            r.last_id() == 0,
    {
        JobTable { jobs: Vec::new(), next_id: 0 }
    }

    /// Add a new background job.
    ///
    /// Returns the job ID.
    pub fn add(&mut self, command: String, handles: Vec<TaskHandle>) -> (r: usize)
        requires
            old(self).last_id() < usize::MAX,
        ensures
            r == old(self).last_id() + 1,
            final(self).last_id() == r,
            final(self).slots() == placed(
                old(self).slots(),
                (Job { id: r, command, handles, state: JobState::Running }),
            ),
    {
        self.next_id = self.next_id + 1;
        let id = self.next_id;
        let job = Job { id, command, handles, state: JobState::Running };
        let mut i: usize = 0;
        while i < self.jobs.len() && self.jobs[i].is_some()
            invariant
                i <= self.jobs@.len(),
                free_from(self.jobs@, 0) == free_from(self.jobs@, i as int),
            decreases self.jobs@.len() - i,
        {
            i += 1;
        }
        if i < self.jobs.len() {
            self.jobs.set(i, Some(job));
        } else {
            self.jobs.push(Some(job));
        }
        id
    }

    fn slot(&self, id: usize) -> (r: usize)
        ensures
            r == slot_from(self.jobs@, id, 0),
            r <= self.jobs@.len(),
    {
        let mut i: usize = 0;
        while i < self.jobs.len()
            invariant
                i <= self.jobs@.len(),
                slot_from(self.jobs@, id, 0) == slot_from(self.jobs@, id, i as int),
            decreases self.jobs@.len() - i,
        {
            match &self.jobs[i] {
                Some(j) => {
                    if j.id == id {
                        return i;
                    }
                },
                None => {},
            }
            i += 1;
        }
        i
    }

    /// Get a job by ID.
    pub fn get(&self, id: usize) -> (r: Option<&Job>)
        ensures
            match r {
                Some(j) => found(self.slots(), id) == Some(*j) && j.id == id,
                None => found(self.slots(), id) is None,
            },
    {
        proof {
            lemma_slot_from(self.jobs@, id, 0);
        }
        let i = self.slot(id);
        if i < self.jobs.len() {
            self.jobs[i].as_ref()
        } else {
            None
        }
    }

    /// Get a mutable job by ID.
    pub fn get_mut(&mut self, id: usize) -> (r: Option<&mut Job>)
        ensures
            final(self).last_id() == old(self).last_id(),
            match r {
                Some(j) => found(old(self).slots(), id) == Some(*j)
                    && final(self).slots() == old(self).slots().update(
                    slot_from(old(self).slots(), id, 0),
                    Some(*final(j)),
                ),
                None => found(old(self).slots(), id) is None
                    && final(self).slots() == old(self).slots(),
            },
    {
        proof {
            lemma_slot_from(self.jobs@, id, 0);
        }
        let i = self.slot(id);
        if i < self.jobs.len() {
            match &mut self.jobs[i] {
                Some(j) => Some(j),
                None => None,
            }
        } else {
            None
        }
    }

    /// Remove a job by ID.
    pub fn remove(&mut self, id: usize) -> (r: Option<Job>)
        ensures
            r == found(old(self).slots(), id),
            final(self).slots() == without(old(self).slots(), id),
            final(self).last_id() == old(self).last_id(),
    {
        let i = self.slot(id);
        if i < self.jobs.len() {
            let mut job: Option<Job> = None;
            std::mem::swap(&mut self.jobs[i], &mut job);
            job
        } else {
            None
        }
    }

    /// Kill a job by ID and remove it.
    ///
    /// Returns the tasks that have to be cancelled if the job existed.
    pub fn kill(&mut self, id: usize) -> (r: Option<Vec<u64>>)
        ensures
            match found(old(self).slots(), id) {
                Some(job) => r matches Some(tasks) && tasks@ == job.tasks(),
                None => r is None,
            },
            final(self).slots() == without(old(self).slots(), id),
            final(self).last_id() == old(self).last_id(),
    {
        match self.remove(id) {
            Some(job) => Some(job.kill()),
            None => None,
        }
    }

    /// All active jobs in the order of the table.
    pub fn iter(&self) -> (r: Vec<&Job>)
        ensures
            r@.map_values(|j: &Job| *j) == listed_from(self.slots(), 0),
    {
        let mut out: Vec<&Job> = Vec::new();
        let mut i: usize = 0;
        let ghost whole = listed_from(self.jobs@, 0);
        proof {
            assert(out@.map_values(|j: &Job| *j) + whole =~= whole);
        }
        while i < self.jobs.len()
            invariant
                i <= self.jobs@.len(),
                out@.map_values(|j: &Job| *j) + listed_from(self.jobs@, i as int) == whole,
            decreases self.jobs@.len() - i,
        {
            match &self.jobs[i] {
                Some(j) => {
                    let ghost before = out@;
                    out.push(j);
                    proof {
                        assert(out@.map_values(|j: &Job| *j) =~= before.map_values(|j: &Job| *j)
                            + seq![*j]);
                        assert(out@.map_values(|j: &Job| *j) + listed_from(self.jobs@, i + 1)
                            =~= before.map_values(|j: &Job| *j) + listed_from(
                            self.jobs@,
                            i as int,
                        ));
                    }
                },
                None => {},
            }
            i += 1;
        }
        proof {
            assert(out@.map_values(|j: &Job| *j) =~= whole);
        }
        out
    }

    /// Update states and remove completed jobs.
    ///
    /// Returns list of (`job_id`, `exit_code`) for completed jobs.
    pub fn reap(&mut self) -> (r: Vec<(usize, i32)>)
        ensures
            r@ == done_from(refreshed(old(self).slots()), 0),
            final(self).slots() == cleared(refreshed(old(self).slots()), r@, r@.len() as int),
            final(self).last_id() == old(self).last_id(),
    {
        let mut completed: Vec<(usize, i32)> = Vec::new();
        let ghost start = self.jobs@;
        let ghost fresh = refreshed(start);
        let ghost whole = done_from(fresh, 0);
        let ghost limit = self.next_id;
        let mut i: usize = 0;
        proof {
            assert(completed@ + whole =~= whole);
        }
        while i < self.jobs.len()
            invariant
                fresh == refreshed(start),
                self.next_id == limit,
                self.jobs@.len() == start.len(),
                i <= start.len(),
                forall|k: int| 0 <= k < i ==> #[trigger] self.jobs@[k] == fresh[k],
                forall|k: int| i <= k < start.len() ==> #[trigger] self.jobs@[k] == start[k],
                completed@ + done_from(fresh, i as int) == whole,
            decreases start.len() - i,
        {
            let mut slot: Option<Job> = None;
            std::mem::swap(&mut self.jobs[i], &mut slot);
            let ghost before = completed@;
            match slot {
                Some(job) => {
                    let mut job = job;
                    job.update_state();
                    proof {
                        assert(fresh[i as int] == Some(job));
                    }
                    match job.state {
                        JobState::Done(code) => {
                            completed.push((job.id, code));
                            proof {
                                assert(completed@ + done_from(fresh, i + 1) =~= before + done_from(
                                    fresh,
                                    i as int,
                                ));
                            }
                        },
                        JobState::Running => {},
                    }
                    self.jobs.set(i, Some(job));
                },
                None => {},
            }
            i += 1;
        }
        proof {
            assert(self.jobs@ =~= fresh);
            assert(completed@ =~= whole);
        }
        let mut k: usize = 0;
        while k < completed.len()
            invariant
                self.next_id == limit,
                k <= completed@.len(),
                self.jobs@ == cleared(fresh, completed@, k as int),
            decreases completed@.len() - k,
        {
            let id = completed[k].0;
            self.remove(id);
            k += 1;
        }
        completed
    }

    /// Number of active jobs.
    pub fn len(&self) -> (r: usize)
        ensures
            r == listed_from(self.slots(), 0).len(),
    {
        let mut n: usize = 0;
        let mut i: usize = 0;
        while i < self.jobs.len()
            invariant
                i <= self.jobs.len(),
                n <= i,
                n + listed_from(self.jobs@, i as int).len() == listed_from(self.jobs@, 0).len(),
            decreases self.jobs@.len() - i,
        {
            if self.jobs[i].is_some() {
                n += 1;
            }
            i += 1;
        }
        n
    }

    /// Check if empty.
    pub fn is_empty(&self) -> (r: bool)
        ensures
            r == (listed_from(self.slots(), 0).len() == 0),
    {
        self.len() == 0
    }
}

impl Default for JobTable {
    fn default() -> (r: Self)
        ensures
            r.slots() == Seq::<Option<Job>>::empty(),
            r.last_id() == 0,
    {
        JobTable::new()
    }
}

// ---------------------------------------------------------------------------
// Laws
// ---------------------------------------------------------------------------

/// A job added under a new ID is found under it, every other job is found as
/// before, and IDs stay different.
pub proof fn law_added_is_found(slots: Seq<Option<Job>>, limit: int, job: Job, other: usize)
    requires
        ids_differ(slots, limit),
        job.id > limit,
        other != job.id,
    ensures
        found(placed(slots, job), job.id) == Some(job),
        found(placed(slots, job), other) == found(slots, other),
        ids_differ(placed(slots, job), job.id as int),
{
    lemma_free_from(slots, 0);
    let new = placed(slots, job);
    let at = free_from(slots, 0);
    assert(new[at] == Some(job));
    lemma_slot_from(new, job.id, 0);
    lemma_slot_from(new, other, 0);
    lemma_slot_from(slots, other, 0);
    let a = slot_from(new, job.id, 0);
    assert(a <= at);
    if a < at {
        assert(new[a] == slots[a]);
    }
    let x = slot_from(slots, other, 0);
    let y = slot_from(new, other, 0);
    if x < slots.len() {
        assert(new[x] == slots[x]);
        assert(y <= x);
        assert(y != at);
        assert(new[y] == slots[y]);
    } else if y < new.len() {
        assert(y != at);
        assert(new[y] == slots[y]);
    }
    assert forall|i: int| 0 <= i < new.len() && (#[trigger] new[i]) is Some implies new[i]->0.id
        <= job.id by {
        if i != at {
            assert(new[i] == slots[i]);
        }
    }
    assert forall|i: int, j: int|
        0 <= i < j < new.len() && (#[trigger] new[i]) is Some && (#[trigger] new[j]) is Some implies
        new[i]->0.id != new[j]->0.id by {
        if i != at {
            assert(new[i] == slots[i]);
        }
        if j != at {
            assert(new[j] == slots[j]);
        }
    }
}

/// A removed job is no longer found, every other job is found as before, and IDs
/// stay different.
pub proof fn law_removed_is_gone(slots: Seq<Option<Job>>, limit: int, id: usize, other: usize)
    requires
        ids_differ(slots, limit),
        other != id,
    ensures
        found(without(slots, id), id) is None,
        found(without(slots, id), other) == found(slots, other),
        ids_differ(without(slots, id), limit),
{
    let new = without(slots, id);
    lemma_slot_from(slots, id, 0);
    lemma_slot_from(slots, other, 0);
    lemma_slot_from(new, id, 0);
    lemma_slot_from(new, other, 0);
    let at = slot_from(slots, id, 0);
    let a = slot_from(new, id, 0);
    if at < slots.len() {
        if a < new.len() {
            assert(a != at);
            assert(new[a] == slots[a]);
        }
        let x = slot_from(slots, other, 0);
        let y = slot_from(new, other, 0);
        if x < slots.len() {
            assert(new[x] == slots[x]);
            assert(y <= x);
            assert(y != at);
            assert(new[y] == slots[y]);
        } else if y < new.len() {
            assert(y != at);
            assert(new[y] == slots[y]);
        }
    }
    assert forall|i: int| 0 <= i < new.len() && (#[trigger] new[i]) is Some implies new[i]->0.id
        <= limit by {
        assert(new[i] == slots[i]);
    }
    assert forall|i: int, j: int|
        0 <= i < j < new.len() && (#[trigger] new[i]) is Some && (#[trigger] new[j]) is Some implies
        new[i]->0.id != new[j]->0.id by {
        assert(new[i] == slots[i]);
        assert(new[j] == slots[j]);
    }
}

/// Whether `id` is among the first `n` of some jobs.
spec fn named(gone: Seq<(usize, i32)>, n: int, id: usize) -> bool {
    exists|k: int| 0 <= k < n && (#[trigger] gone[k]).0 == id
}

proof fn lemma_cleared(slots: Seq<Option<Job>>, limit: int, gone: Seq<(usize, i32)>, n: int)
    requires
        ids_differ(slots, limit),
        0 <= n <= gone.len(),
    ensures
        cleared(slots, gone, n).len() == slots.len(),
        forall|i: int|
            0 <= i < slots.len() ==> #[trigger] cleared(slots, gone, n)[i] == (if slots[i] is Some
                && named(gone, n, slots[i]->0.id) {
                None
            } else {
                slots[i]
            }),
    decreases n,
{
    if n > 0 {
        lemma_cleared(slots, limit, gone, n - 1);
        let before = cleared(slots, gone, n - 1);
        let id = gone[n - 1].0;
        lemma_slot_from(before, id, 0);
        let at = slot_from(before, id, 0);
        let after = cleared(slots, gone, n);
        assert forall|i: int| 0 <= i < slots.len() implies #[trigger] after[i] == (if slots[i] is Some
            && named(gone, n, slots[i]->0.id) {
            None
        } else {
            slots[i]
        }) by {
            assert(before[i] == if slots[i] is Some && named(gone, n - 1, slots[i]->0.id) {
                None
            } else {
                slots[i]
            });
            if slots[i] is Some {
                let own = slots[i]->0.id;
                if named(gone, n - 1, own) {
                    let k = choose|k: int| 0 <= k < n - 1 && (#[trigger] gone[k]).0 == own;
                    assert(gone[k].0 == own);
                    assert(named(gone, n, own));
                } else if own == id {
                    assert(gone[n - 1].0 == own);
                    assert(named(gone, n, own));
                    assert(before[i] == slots[i]);
                    assert(at <= i);
                    assert(before[at] == slots[at]);
                } else if named(gone, n, own) {
                    let k = choose|k: int| 0 <= k < n && (#[trigger] gone[k]).0 == own;
                    assert(k < n - 1);
                }
            }
        }
    }
}

proof fn lemma_done(slots: Seq<Option<Job>>, from: int)
    requires
        0 <= from <= slots.len(),
    ensures
        forall|i: int|
            from <= i < slots.len() && (#[trigger] slots[i] matches Some(j) && j.state is Done)
                ==> named(done_from(slots, from), done_from(slots, from).len() as int, slots[i]->0.id),
        forall|k: int|
            0 <= k < done_from(slots, from).len() ==> exists|i: int|
                from <= i < slots.len() && (#[trigger] slots[i] matches Some(j) && j.state is Done
                    && j.id == (#[trigger] done_from(slots, from)[k]).0),
    decreases slots.len() - from,
{
    if from < slots.len() {
        lemma_done(slots, from + 1);
        let rest = done_from(slots, from + 1);
        let all = done_from(slots, from);
        let own = slots[from] matches Some(j) && j.state is Done;
        let more: int = if own {
            1
        } else {
            0
        };
        assert(all.len() == rest.len() + more);
        assert(forall|k: int| 0 <= k < rest.len() ==> #[trigger] rest[k] == all[k + more]);
        assert forall|i: int|
            from <= i < slots.len() && (#[trigger] slots[i] matches Some(j) && j.state is Done) implies
            named(all, all.len() as int, slots[i]->0.id) by {
            if i == from {
                assert(all[0].0 == slots[i]->0.id);
            } else {
                let k = choose|k: int|
                    0 <= k < rest.len() && (#[trigger] rest[k]).0 == slots[i]->0.id;
                assert(all[k + more].0 == slots[i]->0.id);
            }
        }
        assert forall|k: int| 0 <= k < all.len() implies exists|i: int|
            from <= i < slots.len() && (#[trigger] slots[i] matches Some(j) && j.state is Done && j.id
                == (#[trigger] all[k]).0) by {
            if own && k == 0 {
                assert(slots[from]->0.id == all[k].0);
            } else {
                assert(rest[k - more] == all[k]);
                let i = choose|i: int|
                    from + 1 <= i < slots.len() && (#[trigger] slots[i] matches Some(j)
                        && j.state is Done
                        && j.id == rest[k - more].0);
                assert(slots[i]->0.id == all[k].0);
            }
        }
    }
}

/// Reaping removes the jobs that are done, and no other.
pub proof fn law_reaped_are_gone(slots: Seq<Option<Job>>, limit: int, i: int)
    requires
        ids_differ(slots, limit),
        0 <= i < slots.len(),
    ensures
        ({
            let fresh = refreshed(slots);
            let gone = done_from(fresh, 0);
            let left = cleared(fresh, gone, gone.len() as int);
            &&& left.len() == slots.len()
            &&& left[i] == (if fresh[i] matches Some(j) && j.state is Done {
                None
            } else {
                fresh[i]
            })
        }),
{
    let fresh = refreshed(slots);
    let gone = done_from(fresh, 0);
    assert forall|a: int| 0 <= a < fresh.len() && (#[trigger] fresh[a]) is Some implies fresh[a]->0.id
        <= limit by {
        assert(slots[a] is Some);
    }
    assert forall|a: int, b: int|
        0 <= a < b < fresh.len() && (#[trigger] fresh[a]) is Some
            && (#[trigger] fresh[b]) is Some implies
        fresh[a]->0.id != fresh[b]->0.id by {
        assert(slots[a] is Some && slots[b] is Some);
    }
    lemma_cleared(fresh, limit, gone, gone.len() as int);
    lemma_done(fresh, 0);
    if fresh[i] is Some && named(gone, gone.len() as int, fresh[i]->0.id) {
        let k = choose|k: int| 0 <= k < gone.len() && (#[trigger] gone[k]).0 == fresh[i]->0.id;
        let a = choose|a: int|
            0 <= a < fresh.len() && (#[trigger] fresh[a] matches Some(j) && j.state is Done && j.id
                == gone[k].0);
        assert(a == i);
    }
}

/// A job runs until all of its tasks have ended. Then it is done, with the exit code of its
/// last task, or with one where that failed.
pub proof fn law_states_of_a_job(j: Job, code: i32)
    ensures
        (exists|i: int| 0 <= i < j.handles@.len() && !(#[trigger] j.handles@[i]).complete)
            ==> j.updated() == j,
        j.ended() && j.handles@.len() == 0 ==> j.updated().state == JobState::Done(0),
        j.ended() && j.handles@.len() > 0 && j.handles@.last().outcome == Some(
            TaskOutcome::Exit(code),
        ) ==> j.updated().state == JobState::Done(code),
        j.ended() && j.handles@.len() > 0 && j.handles@.last().outcome == Some(TaskOutcome::Failed)
            ==> j.updated().state == JobState::Done(1),
        j.updated().id == j.id && j.updated().command == j.command && j.updated().handles
            == j.handles,
{
}

/// A job goes to the first free place, and behind all others where there is none.
pub proof fn law_first_free_place(slots: Seq<Option<Job>>, job: Job, i: int)
    requires
        0 <= i <= slots.len(),
        forall|k: int| 0 <= k < i ==> (#[trigger] slots[k]) is Some,
        i < slots.len() ==> slots[i] is None,
    ensures
        i < slots.len() ==> placed(slots, job) == slots.update(i, Some(job)),
        i == slots.len() ==> placed(slots, job) == slots.push(Some(job)),
{
    lemma_free_is(slots, 0, i);
}

proof fn lemma_free_is(slots: Seq<Option<Job>>, from: int, i: int)
    requires
        0 <= from <= i <= slots.len(),
        forall|k: int| 0 <= k < i ==> (#[trigger] slots[k]) is Some,
        i < slots.len() ==> slots[i] is None,
    ensures
        free_from(slots, from) == i,
    decreases i - from,
{
    if from < i {
        assert(slots[from] is Some);
        lemma_free_is(slots, from + 1, i);
    }
}

/// The jobs are listed in the order of their places, and those that are done are reported in
/// that order with their exit codes.
pub proof fn law_jobs_are_listed_in_order(slots: Seq<Option<Job>>, last: Option<Job>)
    ensures
        listed_from(slots.push(last), 0) == match last {
            Some(j) => listed_from(slots, 0).push(j),
            None => listed_from(slots, 0),
        },
        done_from(slots.push(last), 0) == (if last is Some && last->0.state is Done {
            done_from(slots, 0).push((last->0.id, last->0.state->0))
        } else {
            done_from(slots, 0)
        }),
{
    lemma_listed_grows(slots, last, 0);
}

proof fn lemma_listed_grows(slots: Seq<Option<Job>>, last: Option<Job>, i: int)
    requires
        0 <= i <= slots.len(),
    ensures
        listed_from(slots.push(last), i) == match last {
            Some(j) => listed_from(slots, i).push(j),
            None => listed_from(slots, i),
        },
        done_from(slots.push(last), i) == (if last is Some && last->0.state is Done {
            done_from(slots, i).push((last->0.id, last->0.state->0))
        } else {
            done_from(slots, i)
        }),
    decreases slots.len() - i,
{
    let all = slots.push(last);
    reveal_with_fuel(listed_from, 2);
    reveal_with_fuel(done_from, 2);
    if i < slots.len() {
        assert(all[i] == slots[i]);
        lemma_listed_grows(slots, last, i + 1);
    } else {
        assert(all[i] == last);
    }
    assert(listed_from(all, i) =~= match last {
        Some(j) => listed_from(slots, i).push(j),
        None => listed_from(slots, i),
    });
    assert(done_from(all, i) =~= (if last is Some && last->0.state is Done {
        done_from(slots, i).push((last->0.id, last->0.state->0))
    } else {
        done_from(slots, i)
    }));
}

} // verus!
