use vstd::prelude::*;
use crate::errors::TaskError;
use crate::time::{Timestamp, spec_ts_le, spec_ts_max, ts_later};

verus! {

/// Lifecycle stage of a task.
#[derive(Clone, Copy, Debug, PartialEq, Eq, Structural)]
pub enum Status {
    Todo,
    Progress,
    Done,
}

/// A unit of work: id, description, status, and the two timestamps.
#[derive(Debug)]
pub struct Task {
    pub id: i32,
    pub desc: String,
    pub status: Status,
    pub create_at: Timestamp,
    pub update_at: Timestamp,
}

// Tasks compare by id, the store-wide key.
impl PartialEq for Task {
    fn eq(&self, other: &Self) -> (r: bool) {
        self.id == other.id
    }
}

impl vstd::std_specs::cmp::PartialEqSpecImpl for Task {
    open spec fn obeys_eq_spec() -> bool {
        true
    }

    open spec fn eq_spec(&self, other: &Task) -> bool {
        self.id == other.id
    }
}

/// The in-memory owner of all tasks for one invocation, in insertion order.
/// `max_assigned` is the highest id the store ever assigned: it is raised on
/// every add and kept on delete, so a deleted id is never handed out again.
#[derive(Debug)]
pub struct TaskList {
    pub list: Vec<Task>,
    pub max_assigned: i32,
}

/// Some stored task carries this id.
pub open spec fn spec_contains_id(s: Seq<Task>, id: i32) -> bool {
    exists|i: int| 0 <= i < s.len() && (#[trigger] s[i]).id == id
}

/// `i` is the position of the first task with this id.
pub open spec fn spec_is_first_idx(s: Seq<Task>, id: i32, i: int) -> bool {
    0 <= i < s.len() && s[i].id == id && (forall|j: int| 0 <= j < i ==> (#[trigger] s[j]).id != id)
}

/// The position of the first task with this id (meaningful when one exists).
pub open spec fn spec_first_idx(s: Seq<Task>, id: i32) -> int {
    choose|i: int| spec_is_first_idx(s, id, i)
}

/// No two stored tasks share an id.
pub open spec fn spec_ids_unique(s: Seq<Task>) -> bool {
    forall|i: int, j: int|
        0 <= i < j < s.len() ==> (#[trigger] s[i]).id != (#[trigger] s[j]).id
}

/// The largest stored id, or 0 for an empty store.
pub open spec fn spec_max_id(s: Seq<Task>) -> int
    decreases s.len(),
{
    if s.len() == 0 {
        0
    } else if s.len() == 1 {
        s[0].id as int
    } else {
        let m = spec_max_id(s.drop_last());
        if s.last().id as int > m {
            s.last().id as int
        } else {
            m
        }
    }
}

/// Every stored id is at most the tracked maximum `m`.
pub open spec fn spec_ids_tracked(s: Seq<Task>, m: i32) -> bool {
    forall|i: int| 0 <= i < s.len() ==> ((#[trigger] s[i]).id as int) <= m as int
}

/// The id the next add assigns: one more than the largest of the tracked
/// maximum and every stored id.
pub open spec fn spec_next_id(s: Seq<Task>, m: i32) -> int {
    let b = if spec_max_id(s) > m as int {
        spec_max_id(s)
    } else {
        m as int
    };
    b + 1
}

/// A freshly created task: status `Todo`, both timestamps set to `now`.
pub open spec fn spec_new_task(id: i32, desc: String, now: Timestamp) -> Task {
    Task { id, desc, status: Status::Todo, create_at: now, update_at: now }
}

/// The store after an add with tracked maximum `m`: the new task is
/// appended with id `spec_next_id(s, m)`.
pub open spec fn spec_add(s: Seq<Task>, m: i32, desc: String, now: Timestamp) -> Seq<Task> {
    s.push(spec_new_task((spec_next_id(s, m) as i32), desc, now))
}

/// The refreshed update time: the clock reading, clamped so that it never
/// falls below the creation time or the previous update time (a wall clock
/// can step backwards; the stored order must not).
pub open spec fn spec_refreshed(t: Task, now: Timestamp) -> Timestamp {
    spec_ts_max(spec_ts_max(now, t.create_at), t.update_at)
}

/// `t` with its description replaced and its update time refreshed.
pub open spec fn spec_with_desc(t: Task, desc: String, now: Timestamp) -> Task {
    Task { desc, update_at: spec_refreshed(t, now), ..t }
}

/// `t` with its status replaced and its update time refreshed.
pub open spec fn spec_with_status(t: Task, status: Status, now: Timestamp) -> Task {
    Task { status, update_at: spec_refreshed(t, now), ..t }
}

/// The store after an edit of the task with this id.
pub open spec fn spec_edit(s: Seq<Task>, id: i32, desc: String, now: Timestamp) -> Seq<Task> {
    s.update(spec_first_idx(s, id), spec_with_desc(s[spec_first_idx(s, id)], desc, now))
}

/// The store after a mark of the task with this id.
pub open spec fn spec_mark(s: Seq<Task>, id: i32, status: Status, now: Timestamp) -> Seq<Task> {
    s.update(spec_first_idx(s, id), spec_with_status(s[spec_first_idx(s, id)], status, now))
}

/// The store after a delete of the task with this id.
pub open spec fn spec_delete(s: Seq<Task>, id: i32) -> Seq<Task> {
    s.remove(spec_first_idx(s, id))
}

/// The tasks whose status is in `sts`, in store order.
pub open spec fn spec_status_filter(s: Seq<Task>, sts: Seq<Status>) -> Seq<Task> {
    s.filter(|t: Task| sts.contains(t.status))
}

/// A first position exists for every stored id, and `spec_first_idx` names it.
pub proof fn lemma_first_idx_of_contains(s: Seq<Task>, id: i32)
    requires
        spec_contains_id(s, id),
    ensures
        spec_is_first_idx(s, id, spec_first_idx(s, id)),
    decreases s.len(),
{
    if s[0].id == id {
        assert(spec_is_first_idx(s, id, 0));
    } else {
        let w = choose|i: int| 0 <= i < s.len() && (#[trigger] s[i]).id == id;
        let tail = s.subrange(1, s.len() as int);
        assert(tail[w - 1].id == id);
        lemma_first_idx_of_contains(tail, id);
        let i = spec_first_idx(tail, id);
        assert(s[i + 1] == tail[i]);
        assert forall|j: int| 0 <= j < i + 1 implies (#[trigger] s[j]).id != id by {
            if j > 0 {
                assert(tail[j - 1] == s[j]);
            }
        }
        assert(spec_is_first_idx(s, id, i + 1));
    }
}

/// The first position is unique, so finding it fixes `spec_first_idx`.
pub proof fn lemma_first_idx_unique(s: Seq<Task>, id: i32, i: int)
    requires
        spec_is_first_idx(s, id, i),
    ensures
        spec_first_idx(s, id) == i,
{
    assert(spec_contains_id(s, id));
    lemma_first_idx_of_contains(s, id);
    let k = spec_first_idx(s, id);
    if k < i {
        assert(s[k].id != id);
    } else if k > i {
        assert(s[i].id != id);
    }
}

/// Every stored id is at most the maximum.
pub proof fn lemma_max_id_ge_all(s: Seq<Task>)
    ensures
        forall|i: int| 0 <= i < s.len() ==> (#[trigger] s[i]).id as int <= spec_max_id(s),
    decreases s.len(),
{
    if s.len() <= 1 {
    } else {
        lemma_max_id_ge_all(s.drop_last());
        assert forall|i: int| 0 <= i < s.len() implies (#[trigger] s[i]).id as int <= spec_max_id(
            s,
        ) by {
            if i < s.len() - 1 {
                assert(s.drop_last()[i] == s[i]);
            }
        }
    }
}

impl TaskList {
    /// An empty store: no tasks, no id ever assigned.
    pub fn new() -> (r: Self)
        ensures
            r.list@ == Seq::<Task>::empty(),
            r.max_assigned == 0,
    {
        TaskList { list: Vec::new(), max_assigned: 0 }
    }

    /// The largest stored id, 0 when the store is empty.
    pub fn max_id(&self) -> (m: i32)
        ensures
            m as int == spec_max_id(self.list@),
    {
        if self.list.len() == 0 {
            return 0;
        }
        let mut m = self.list[0].id;
        let mut i: usize = 1;
        proof {
            assert(self.list@.take(1).len() == 1);
            assert(self.list@.take(1)[0] == self.list@[0]);
        }
        while i < self.list.len()
            invariant
                1 <= i <= self.list@.len(),
                m as int == spec_max_id(self.list@.take(i as int)),
            decreases self.list@.len() - i,
        {
            let id = self.list[i].id;
            proof {
                let t = self.list@.take(i as int + 1);
                assert(t.drop_last() =~= self.list@.take(i as int));
                assert(t.last() == self.list@[i as int]);
            }
            if id > m {
                m = id;
            }
            i += 1;
        }
        proof {
            assert(self.list@.take(self.list@.len() as int) =~= self.list@);
        }
        m
    }

    /// The position of the first task with this id, `None` when there is none.
    fn find_index(&self, id: i32) -> (r: Option<usize>)
        ensures
            r matches Some(i) ==> spec_is_first_idx(self.list@, id, i as int) && spec_first_idx(
                self.list@,
                id,
            ) == i as int,
            r is None ==> !spec_contains_id(self.list@, id),
    {
        let mut i: usize = 0;
        while i < self.list.len()
            invariant
                i <= self.list@.len(),
                forall|j: int| 0 <= j < i ==> (#[trigger] self.list@[j]).id != id,
            decreases self.list@.len() - i,
        {
            if self.list[i].id == id {
                proof {
                    lemma_first_idx_unique(self.list@, id, i as int);
                }
                return Some(i);
            }
            i += 1;
        }
        None
    }

    /// Appends a new task carrying the given description: the id is one
    /// more than the largest id the store ever assigned (never one that a
    /// deleted task held), status `Todo`, both timestamps the clock reading.
    pub fn add_task(&mut self, desc: String) -> (r: Result<(), TaskError>)
        requires
            spec_next_id(old(self).list@, old(self).max_assigned) <= i32::MAX,
        ensures
            r is Ok,
            final(self).max_assigned as int == spec_next_id(
                old(self).list@,
                old(self).max_assigned,
            ),
            exists|now: Timestamp|
                now.wf() && final(self).list@ == #[trigger] spec_add(
                    old(self).list@,
                    old(self).max_assigned,
                    desc,
                    now,
                ),
    {
        let ghost d0 = desc;
        let cur = self.max_id();
        let base = if self.max_assigned > cur {
            self.max_assigned
        } else {
            cur
        };
        let next_id = base + 1;
        self.max_assigned = next_id;
        let now = Timestamp::now();
        let task = Task {
            id: next_id,
            desc,
            status: Status::Todo,
            create_at: now,
            update_at: now,
        };
        self.list.push(task);
        proof {
            assert(self.list@ == spec_add(old(self).list@, old(self).max_assigned, d0, now));
        }
        Ok(())
    }

    /// Replaces the description of the task with this id and refreshes its
    /// update time; everything else, and every other task, is unchanged.
    /// Fails with `TaskNotFound`, leaving the store unmodified, when no task
    /// has the id.
    pub fn edit_task(&mut self, id: i32, desc: String) -> (r: Result<(), TaskError>)
        ensures
            r is Ok <==> spec_contains_id(old(self).list@, id),
            final(self).max_assigned == old(self).max_assigned,
            r matches Err(e) ==> e == TaskError::TaskNotFound && final(self).list@ == old(
                self,
            ).list@,
            r is Ok ==> exists|now: Timestamp|
                now.wf() && final(self).list@ == #[trigger] spec_edit(
                    old(self).list@,
                    id,
                    desc,
                    now,
                ),
            r is Ok ==> ({
                let i = spec_first_idx(old(self).list@, id);
                spec_ts_le(old(self).list@[i].create_at, final(self).list@[i].update_at)
                    && spec_ts_le(old(self).list@[i].update_at, final(self).list@[i].update_at)
            }),
    {
        let ghost d0 = desc;
        match self.find_index(id) {
            None => Err(TaskError::TaskNotFound),
            Some(i) => {
                let now = Timestamp::now();
                let tid = self.list[i].id;
                let tstatus = self.list[i].status;
                let tcreate = self.list[i].create_at;
                let tupdate = self.list[i].update_at;
                let stamp = ts_later(&ts_later(&now, &tcreate), &tupdate);
                self.list[i] = Task {
                    id: tid,
                    desc,
                    status: tstatus,
                    create_at: tcreate,
                    update_at: stamp,
                };
                proof {
                    assert(self.list@ =~= spec_edit(old(self).list@, id, d0, now));
                }
                Ok(())
            },
        }
    }

    /// Sets the status of the task with this id and refreshes its update
    /// time; everything else, and every other task, is unchanged. Fails with
    /// `TaskNotFound`, leaving the store unmodified, when no task has the id.
    pub fn mark_task(&mut self, id: i32, status: Status) -> (r: Result<(), TaskError>)
        ensures
            r is Ok <==> spec_contains_id(old(self).list@, id),
            final(self).max_assigned == old(self).max_assigned,
            r matches Err(e) ==> e == TaskError::TaskNotFound && final(self).list@ == old(
                self,
            ).list@,
            r is Ok ==> exists|now: Timestamp|
                now.wf() && final(self).list@ == #[trigger] spec_mark(
                    old(self).list@,
                    id,
                    status,
                    now,
                ),
            r is Ok ==> ({
                let i = spec_first_idx(old(self).list@, id);
                spec_ts_le(old(self).list@[i].create_at, final(self).list@[i].update_at)
                    && spec_ts_le(old(self).list@[i].update_at, final(self).list@[i].update_at)
            }),
    {
        match self.find_index(id) {
            None => Err(TaskError::TaskNotFound),
            Some(i) => {
                let now = Timestamp::now();
                let tid = self.list[i].id;
                let tdesc_owner = &self.list[i];
                let tcreate = tdesc_owner.create_at;
                let tupdate = tdesc_owner.update_at;
                let tdesc = tdesc_owner.desc.clone();
                let stamp = ts_later(&ts_later(&now, &tcreate), &tupdate);
                self.list[i] = Task {
                    id: tid,
                    desc: tdesc,
                    status,
                    create_at: tcreate,
                    update_at: stamp,
                };
                proof {
                    assert(self.list@ =~= spec_mark(old(self).list@, id, status, now));
                }
                Ok(())
            },
        }
    }

    /// Removes and returns the task with this id. Fails with `TaskNotFound`,
    /// leaving the store unmodified, when no task has the id.
    pub fn delete_task(&mut self, id: i32) -> (r: Result<Task, TaskError>)
        ensures
            r is Ok <==> spec_contains_id(old(self).list@, id),
            final(self).max_assigned == old(self).max_assigned,
            r matches Err(e) ==> e == TaskError::TaskNotFound && final(self).list@ == old(
                self,
            ).list@,
            r matches Ok(t) ==> final(self).list@ == spec_delete(old(self).list@, id) && t == old(
                self,
            ).list@[spec_first_idx(old(self).list@, id)],
    {
        match self.find_index(id) {
            None => Err(TaskError::TaskNotFound),
            Some(i) => {
                let t = self.list.remove(i);
                Ok(t)
            },
        }
    }

    /// The first task with this id, read-only. Fails with `TaskNotFound`
    /// when no task has the id.
    pub fn get_task(&self, id: i32) -> (r: Result<&Task, TaskError>)
        ensures
            r is Ok <==> spec_contains_id(self.list@, id),
            r matches Err(e) ==> e == TaskError::TaskNotFound,
            r matches Ok(t) ==> spec_is_first_idx(self.list@, id, spec_first_idx(self.list@, id))
                && *t == self.list@[spec_first_idx(self.list@, id)],
    {
        match self.find_index(id) {
            None => Err(TaskError::TaskNotFound),
            Some(i) => Ok(&self.list[i]),
        }
    }

    /// The tasks whose status is in `status`, in store order.
    pub fn get_tasks_with_status(&self, status: &[Status]) -> (r: Vec<&Task>)
        ensures
            r@.map_values(|t: &Task| *t) == spec_status_filter(self.list@, status@),
    {
        let mut out: Vec<&Task> = Vec::new();
        let mut i: usize = 0;
        proof {
            assert(out@.map_values(|t: &Task| *t) =~= spec_status_filter(
                self.list@.take(0),
                status@,
            ));
        }
        while i < self.list.len()
            invariant
                i <= self.list@.len(),
                out@.map_values(|t: &Task| *t) == spec_status_filter(
                    self.list@.take(i as int),
                    status@,
                ),
            decreases self.list@.len() - i,
        {
            proof {
                lemma_status_filter_push(self.list@.take(i as int), self.list@[i as int], status@);
                assert(self.list@.take(i as int).push(self.list@[i as int]) =~= self.list@.take(
                    i as int + 1,
                ));
            }
            if status_slice_contains(status, self.list[i].status) {
                out.push(&self.list[i]);
                proof {
                    assert(out@.map_values(|t: &Task| *t) =~= spec_status_filter(
                        self.list@.take(i as int + 1),
                        status@,
                    ));
                }
            }
            i += 1;
        }
        proof {
            assert(self.list@.take(self.list@.len() as int) =~= self.list@);
        }
        out
    }

    /// The tasks a `list` command with this filter shows, in store order.
    /// Rendering them, and the "no tasks" message for an empty result, is the
    /// caller's concern.
    pub fn list_task(&self, status: &[Status]) -> (r: Vec<&Task>)
        ensures
            r@.map_values(|t: &Task| *t) == spec_status_filter(self.list@, status@),
    {
        self.get_tasks_with_status(status)
    }
}

/// The text a listing shows for each status.
pub open spec fn spec_display_status(status: Status) -> Seq<char> {
    match status {
        Status::Todo => "To do"@,
        Status::Progress => "In Progress"@,
        Status::Done => "Done"@,
    }
}

/// Renders a status for task listings.
pub fn display_status(status: &Status) -> (r: &'static str)
    ensures
        r@ == spec_display_status(*status),
{
    match status {
        Status::Todo => "To do",
        Status::Progress => "In Progress",
        Status::Done => "Done",
    }
}

/// Whether `st` occurs in the slice.
fn status_slice_contains(sts: &[Status], st: Status) -> (r: bool)
    ensures
        r <==> sts@.contains(st),
{
    let mut i: usize = 0;
    while i < sts.len()
        invariant
            i <= sts@.len(),
            forall|j: int| 0 <= j < i ==> sts@[j] != st,
        decreases sts@.len() - i,
    {
        if sts[i] == st {
            return true;
        }
        i += 1;
    }
    false
}

/// The store (task list and tracked maximum) after adding one task per
/// description, oldest first, starting from an empty store; `nows[i]` is
/// the clock reading of the `i`-th add.
pub open spec fn spec_add_all(descs: Seq<String>, nows: Seq<Timestamp>) -> (Seq<Task>, i32)
    decreases descs.len(),
{
    if descs.len() == 0 {
        (Seq::empty(), 0)
    } else {
        let prev = spec_add_all(descs.drop_last(), nows.drop_last());
        (
            spec_add(prev.0, prev.1, descs.last(), nows.last()),
            spec_next_id(prev.0, prev.1) as i32,
        )
    }
}

/// Law: adding tasks in sequence to an empty store assigns the ids
/// 1, 2, ... in insertion order, whatever the descriptions and clock
/// readings, and the descriptions land in that same order.
pub proof fn lemma_sequential_ids(descs: Seq<String>, nows: Seq<Timestamp>)
    requires
        descs.len() == nows.len(),
        descs.len() <= i32::MAX,
    ensures
        spec_add_all(descs, nows).0.len() == descs.len(),
        forall|i: int|
            0 <= i < descs.len() ==> (#[trigger] spec_add_all(descs, nows).0[i]).id as int == i
                + 1,
        forall|i: int|
            0 <= i < descs.len() ==> (#[trigger] spec_add_all(descs, nows).0[i]).desc == descs[i],
        spec_max_id(spec_add_all(descs, nows).0) == descs.len(),
        spec_add_all(descs, nows).1 as int == descs.len(),
    decreases descs.len(),
{
    if descs.len() == 0 {
    } else {
        lemma_sequential_ids(descs.drop_last(), nows.drop_last());
        let prev = spec_add_all(descs.drop_last(), nows.drop_last()).0;
        let pm = spec_add_all(descs.drop_last(), nows.drop_last()).1;
        let cur = spec_add_all(descs, nows).0;
        assert(spec_next_id(prev, pm) == descs.len());
        assert(cur == prev.push(spec_new_task(
            (spec_next_id(prev, pm) as i32),
            descs.last(),
            nows.last(),
        )));
        if prev.len() == 0 {
            assert(spec_max_id(cur) == cur[0].id as int);
        } else {
            assert(cur.drop_last() =~= prev);
        }
        assert forall|i: int| 0 <= i < descs.len() implies (#[trigger] cur[i]).id as int == i
            + 1 by {
            if i < descs.len() - 1 {
                assert(cur[i] == prev[i]);
            }
        }
        assert forall|i: int| 0 <= i < descs.len() implies (#[trigger] cur[i]).desc
            == descs[i] by {
            if i < descs.len() - 1 {
                assert(cur[i] == prev[i]);
                assert(descs.drop_last()[i] == descs[i]);
            }
        }
    }
}

/// Law: a newly added task's id is strictly greater than the highest id
/// the store ever assigned (the tracked maximum) and than every stored id,
/// so ids strictly increase across adds, whatever was deleted in between.
pub proof fn lemma_add_id_fresh(s: Seq<Task>, m: i32, desc: String, now: Timestamp)
    requires
        spec_next_id(s, m) <= i32::MAX,
    ensures
        (spec_add(s, m, desc, now).last().id as int) > m as int,
        forall|i: int|
            0 <= i < s.len() ==> ((#[trigger] s[i]).id as int) < (spec_add(
                s,
                m,
                desc,
                now,
            ).last().id as int),
{
    lemma_max_id_ge_all(s);
}

/// Law: an add after a delete never hands out an id the store assigned
/// before. Every id the store ever assigned is at most the tracked maximum
/// `m` (the store invariant, kept by every operation), deletion keeps `m`,
/// and the next id exceeds `m` — so in particular the deleted id, maximal
/// or not, is never reused.
pub proof fn lemma_no_reuse_after_delete(s: Seq<Task>, m: i32, id: i32, desc: String, now: Timestamp)
    requires
        id as int <= m as int,
        spec_contains_id(s, id),
        spec_next_id(spec_delete(s, id), m) <= i32::MAX,
    ensures
        (spec_add(spec_delete(s, id), m, desc, now).last().id as int) > id as int,
{
}

/// Law: every operation keeps each stored id at most the tracked maximum,
/// the invariant behind the no-reuse law: an add raises the maximum to the
/// new id, the other operations assign no id and keep the maximum.
pub proof fn lemma_ops_preserve_tracked(
    s: Seq<Task>,
    m: i32,
    id: i32,
    desc: String,
    st: Status,
    now: Timestamp,
)
    requires
        spec_ids_tracked(s, m),
        spec_next_id(s, m) <= i32::MAX,
    ensures
        spec_ids_tracked(spec_add(s, m, desc, now), (spec_next_id(s, m)) as i32),
        spec_contains_id(s, id) ==> spec_ids_tracked(spec_edit(s, id, desc, now), m),
        spec_contains_id(s, id) ==> spec_ids_tracked(spec_mark(s, id, st, now), m),
        spec_contains_id(s, id) ==> spec_ids_tracked(spec_delete(s, id), m),
{
    let a = spec_add(s, m, desc, now);
    let next = spec_next_id(s, m);
    assert forall|i: int| 0 <= i < a.len() implies ((#[trigger] a[i]).id as int) <= next by {
        if i < s.len() {
            assert(a[i] == s[i]);
        }
    }
    if spec_contains_id(s, id) {
        lemma_first_idx_of_contains(s, id);
        let f = spec_first_idx(s, id);
        let e = spec_edit(s, id, desc, now);
        assert forall|i: int| 0 <= i < e.len() implies ((#[trigger] e[i]).id as int) <= m as int by {
            assert(e[i].id == s[i].id);
        }
        let mk = spec_mark(s, id, st, now);
        assert forall|i: int| 0 <= i < mk.len() implies ((#[trigger] mk[i]).id as int)
            <= m as int by {
            assert(mk[i].id == s[i].id);
        }
        let d = spec_delete(s, id);
        assert forall|i: int| 0 <= i < d.len() implies ((#[trigger] d[i]).id as int)
            <= m as int by {
            let si = if i < f {
                i
            } else {
                i + 1
            };
            assert(d[i] == s[si]);
        }
    }
}

/// Law: editing replaces exactly the description and update time of the
/// first task with the id; its id, status and creation time, and every
/// other task, are unchanged, and the store keeps its length and order.
pub proof fn lemma_edit_changes_only_desc(s: Seq<Task>, id: i32, desc: String, now: Timestamp)
    requires
        spec_contains_id(s, id),
    ensures
        ({
            let i = spec_first_idx(s, id);
            let r = spec_edit(s, id, desc, now);
            spec_is_first_idx(s, id, i) && r.len() == s.len() && r[i].desc == desc
                && r[i].update_at == spec_refreshed(s[i], now) && spec_ts_le(
                s[i].create_at,
                r[i].update_at,
            ) && spec_ts_le(s[i].update_at, r[i].update_at) && r[i].id == s[i].id && r[i].status
                == s[i].status && r[i].create_at == s[i].create_at && (forall|j: int|
                0 <= j < s.len() && j != i ==> r[j] == s[j])
        }),
{
    lemma_first_idx_of_contains(s, id);
}

/// Law: after marking a task, listing by a filter holding its new status
/// includes that task, and, when ids are unique, listing by any filter
/// without that status excludes its id.
pub proof fn lemma_mark_then_list(s: Seq<Task>, id: i32, st: Status, now: Timestamp, sts: Seq<Status>)
    requires
        spec_ids_unique(s),
        spec_contains_id(s, id),
    ensures
        ({
            let r = spec_mark(s, id, st, now);
            let i = spec_first_idx(s, id);
            (sts.contains(st) ==> spec_status_filter(r, sts).contains(r[i])) && (!sts.contains(st)
                ==> forall|k: int|
                0 <= k < spec_status_filter(r, sts).len() ==> (#[trigger] spec_status_filter(
                    r,
                    sts,
                )[k]).id != id)
        }),
{
    lemma_first_idx_of_contains(s, id);
    let r = spec_mark(s, id, st, now);
    let i = spec_first_idx(s, id);
    lemma_status_filter_sound(r, sts);
    assert(r[i].status == st);
    if !sts.contains(st) {
        let f = spec_status_filter(r, sts);
        assert forall|k: int| 0 <= k < f.len() implies (#[trigger] f[k]).id != id by {
            if f[k].id == id {
                let j = choose|j: int| 0 <= j < r.len() && r[j] == f[k];
                assert(r[j].id == id);
                if j != i {
                    assert(s[j].id == id);
                    assert(s[i].id == id);
                }
            }
        }
    }
}

/// Law: listing with all three statuses returns every task in store order,
/// and listing with an empty filter returns nothing.
pub proof fn lemma_list_all_and_none(s: Seq<Task>)
    ensures
        spec_status_filter(s, seq![Status::Todo, Status::Progress, Status::Done]) == s,
        spec_status_filter(s, Seq::<Status>::empty()) == Seq::<Task>::empty(),
    decreases s.len(),
{
    let all = seq![Status::Todo, Status::Progress, Status::Done];
    if s.len() == 0 {
        reveal_with_fuel(Seq::filter, 2);
        assert(spec_status_filter(s, all) =~= s);
        assert(spec_status_filter(s, Seq::<Status>::empty()) =~= Seq::<Task>::empty());
    } else {
        lemma_list_all_and_none(s.drop_last());
        let d = s.drop_last();
        let t = s.last();
        assert(s =~= d.push(t));
        lemma_status_filter_push(d, t, all);
        lemma_status_filter_push(d, t, Seq::<Status>::empty());
        assert(all.contains(t.status)) by {
            match t.status {
                Status::Todo => assert(all[0] == t.status),
                Status::Progress => assert(all[1] == t.status),
                Status::Done => assert(all[2] == t.status),
            }
        }
        assert(!Seq::<Status>::empty().contains(t.status));
        assert(spec_status_filter(s, all) =~= s);
    }
}

/// Law: the store never holds two tasks with one id after an add, an edit,
/// a mark or a delete, provided it did not before.
pub proof fn lemma_ops_preserve_unique_ids(
    s: Seq<Task>,
    m: i32,
    id: i32,
    desc: String,
    st: Status,
    now: Timestamp,
)
    requires
        spec_ids_unique(s),
        spec_next_id(s, m) <= i32::MAX,
    ensures
        spec_ids_unique(spec_add(s, m, desc, now)),
        spec_contains_id(s, id) ==> spec_ids_unique(spec_edit(s, id, desc, now)),
        spec_contains_id(s, id) ==> spec_ids_unique(spec_mark(s, id, st, now)),
        spec_contains_id(s, id) ==> spec_ids_unique(spec_delete(s, id)),
{
    lemma_max_id_ge_all(s);
    let a = spec_add(s, m, desc, now);
    assert forall|i: int, j: int| 0 <= i < j < a.len() implies (#[trigger] a[i]).id != (
    #[trigger] a[j]).id by {
        if j < s.len() {
            assert(s[i].id != s[j].id);
        } else {
            assert(s[i].id as int <= spec_max_id(s));
        }
    }
    if spec_contains_id(s, id) {
        lemma_first_idx_of_contains(s, id);
        let f = spec_first_idx(s, id);
        let e = spec_edit(s, id, desc, now);
        assert forall|i: int, j: int| 0 <= i < j < e.len() implies (#[trigger] e[i]).id != (
        #[trigger] e[j]).id by {
            assert(e[i].id == s[i].id && e[j].id == s[j].id);
        }
        let m = spec_mark(s, id, st, now);
        assert forall|i: int, j: int| 0 <= i < j < m.len() implies (#[trigger] m[i]).id != (
        #[trigger] m[j]).id by {
            assert(m[i].id == s[i].id && m[j].id == s[j].id);
        }
        let d = spec_delete(s, id);
        assert forall|i: int, j: int| 0 <= i < j < d.len() implies (#[trigger] d[i]).id != (
        #[trigger] d[j]).id by {
            let si = if i < f {
                i
            } else {
                i + 1
            };
            let sj = if j < f {
                j
            } else {
                j + 1
            };
            assert(d[i] == s[si] && d[j] == s[sj]);
            assert(s[si].id != s[sj].id);
        }
    }
}

/// Every filtered task carries a status from the filter and is a stored
/// task, and every stored task whose status is in the filter appears in the
/// filtered view.
pub proof fn lemma_status_filter_sound(s: Seq<Task>, sts: Seq<Status>)
    ensures
        forall|k: int|
            0 <= k < spec_status_filter(s, sts).len() ==> sts.contains(
                (#[trigger] spec_status_filter(s, sts)[k]).status,
            ) && s.contains(spec_status_filter(s, sts)[k]),
        forall|j: int|
            0 <= j < s.len() && sts.contains((#[trigger] s[j]).status) ==> spec_status_filter(
                s,
                sts,
            ).contains(s[j]),
    decreases s.len(),
{
    if s.len() == 0 {
        reveal_with_fuel(Seq::filter, 1);
    } else {
        let d = s.drop_last();
        let t = s.last();
        assert(s =~= d.push(t));
        lemma_status_filter_sound(d, sts);
        lemma_status_filter_push(d, t, sts);
        let f = spec_status_filter(s, sts);
        let fd = spec_status_filter(d, sts);
        assert forall|k: int| 0 <= k < f.len() implies sts.contains((#[trigger] f[k]).status)
            && s.contains(f[k]) by {
            if sts.contains(t.status) && k == f.len() - 1 {
                assert(f[k] == t);
                assert(s[s.len() - 1] == t);
            } else {
                assert(f[k] == fd[k]);
                assert(sts.contains(fd[k].status));
                let w = choose|w: int| 0 <= w < d.len() && d[w] == fd[k];
                assert(s[w] == fd[k]);
            }
        }
        assert forall|j: int| 0 <= j < s.len() && sts.contains((#[trigger] s[j]).status) implies f
            .contains(s[j]) by {
            if j == s.len() - 1 {
                assert(f[f.len() - 1] == t);
            } else {
                assert(d[j] == s[j]);
                assert(fd.contains(d[j]));
                let w = choose|w: int| 0 <= w < fd.len() && fd[w] == d[j];
                assert(f[w] == fd[w]);
            }
        }
    }
}

/// Appending a task extends the filtered view exactly when its status matches.
pub proof fn lemma_status_filter_push(s: Seq<Task>, t: Task, sts: Seq<Status>)
    ensures
        spec_status_filter(s.push(t), sts) == if sts.contains(t.status) {
            spec_status_filter(s, sts).push(t)
        } else {
            spec_status_filter(s, sts)
        },
{
    assert(s.push(t).drop_last() =~= s);
    assert(s.push(t).last() == t);
    reveal_with_fuel(Seq::filter, 2);
}

} // verus!
