//! Task identities and the store that owns every task record.
use crate::clock::{instant_elapsed, instant_now};
use crate::model::{
    cancelled_all, children_ok, ended, initial, lemma_cancelled_all, lemma_ended, lemma_logged,
    lemma_same_shape, lemma_started, linked, logged, parent_of, resolve, started, well_formed,
    within, TaskState,
};
use crate::ordered::{
    set_clone, set_get_index, set_get_index_of, set_insert, set_items, set_len, set_new,
    set_shift_remove,
};
use crate::prune::{
    below, doomed, doomed_set, dropped, flushed, keep, lemma_dropped, lemma_keep_all,
    lemma_keep_none, lemma_without_step, settled, subtree, without,
};
use crate::retention::Retention;
use crate::{accepts, step, Action, Renderer};
use indexmap::IndexSet;
use std::collections::VecDeque;
use std::time::{Duration, Instant};
use vstd::prelude::*;

verus! {

/// Unique identifier for a task in the tree.
#[derive(Debug, Clone, Copy, PartialEq, Eq, Hash, Structural)]
pub struct TaskId(pub usize);

impl TaskId {
    /// The reserved identity of the virtual root, for use in contracts.
    pub open spec fn spec_root() -> TaskId {
        TaskId(0)
    }

    /// The reserved identity of the virtual root.
    #[verifier::when_used_as_spec(spec_root)]
    pub fn root() -> (r: TaskId)
        ensures
            r == TaskId::spec_root(),
    {
        TaskId(0)
    }

    /// Check if this identity refers to the root.
    pub fn is_root(&self) -> (r: bool)
        ensures
            r == (*self == TaskId::root()),
    {
        self.0 == 0
    }

    /// Creates a new [`TaskId`] from a non-zero value.
    pub fn new(id: usize) -> (r: TaskId)
        requires
            id != 0,
        ensures
            r == TaskId(id),
            r != TaskId::root(),
    {
        TaskId(id)
    }

    /// The identity with raw value `raw`, unless that is the root's.
    pub fn checked(raw: usize) -> (r: Option<TaskId>)
        ensures
            raw == 0 ==> r.is_none(),
            raw != 0 ==> r == Some(TaskId(raw)),
    {
        if raw == 0 {
            None
        } else {
            Some(TaskId(raw))
        }
    }

    /// The raw value of the identity.
    pub fn raw(&self) -> (r: usize)
        ensures
            r == self.0,
    {
        self.0
    }

    /// Creates a [`TaskId`] from a non-zero value.
    pub fn from(id: usize) -> (r: TaskId)
        requires
            id != 0,
        ensures
            r == TaskId(id),
            r != TaskId::root(),
    {
        TaskId(id)
    }
}

/// The identities that a sequence of raw values stands for.
pub open spec fn ids_of(raw: Seq<usize>) -> Seq<TaskId> {
    raw.map_values(|x: usize| TaskId(x))
}

/// One record of the store: a task's place in the tree, its flags, its
/// payload and its buffered events.
pub struct Task<T, E> {
    depth: usize,
    completed: bool,
    cancelled: bool,
    started_at: Instant,
    parent: Option<TaskId>,
    data: Option<T>,
    events: VecDeque<E>,
    subtasks: IndexSet<usize>,
}

impl<T, E> Task<T, E> {
    /// What the record says of the task, the start time left out.
    pub closed spec fn state(&self) -> TaskState<T, E> {
        TaskState {
            depth: self.depth as nat,
            completed: self.completed,
            cancelled: self.cancelled,
            parent: self.parent,
            data: self.data,
            events: self.events@,
            subtasks: ids_of(set_items(self.subtasks)),
        }
    }

    fn new(depth: usize, parent: Option<TaskId>, data: Option<T>) -> (r: Self)
        ensures
            r.state() == TaskState::<T, E>::fresh(depth as nat, parent, data),
    {
        let r = Task {
            data,
            depth,
            parent,
            completed: false,
            cancelled: false,
            started_at: instant_now(),
            events: VecDeque::new(),
            subtasks: set_new(),
        };
        assert(r.state().subtasks =~= Seq::<TaskId>::empty());
        r
    }

    /// The nesting depth; the root's children are at depth 1.
    pub fn depth(&self) -> (r: usize)
        ensures
            r == self.state().depth,
    {
        self.depth
    }

    /// Whether the task has ended.
    pub fn completed(&self) -> (r: bool)
        ensures
            r == self.state().completed,
    {
        self.completed
    }

    /// Whether the task was cancelled.
    pub fn cancelled(&self) -> (r: bool)
        ensures
            r == self.state().cancelled,
    {
        self.cancelled
    }

    /// The recorded parent: `None` for the root and for its children.
    pub fn parent(&self) -> (r: Option<TaskId>)
        ensures
            r == self.state().parent,
    {
        self.parent
    }

    /// The payload; `None` only for the root.
    pub fn data(&self) -> (r: Option<&T>)
        ensures
            r.is_some() == self.state().data.is_some(),
            r.is_some() ==> *r.unwrap() == self.state().data.unwrap(),
    {
        self.data.as_ref()
    }

    /// The time since the task was started.
    pub fn elapsed(&self) -> Duration {
        instant_elapsed(&self.started_at)
    }

    /// The buffered events, oldest first.
    pub fn events(&self) -> (r: &VecDeque<E>)
        ensures
            r@ == self.state().events,
    {
        &self.events
    }

    /// The number of children.
    pub fn subtask_count(&self) -> (r: usize)
        ensures
            r == self.state().subtasks.len(),
    {
        set_len(&self.subtasks)
    }

    /// The child at position `index` of the child set.
    pub fn subtask(&self, index: usize) -> (r: TaskId)
        requires
            index < self.state().subtasks.len(),
        ensures
            r == self.state().subtasks[index as int],
    {
        match set_get_index(&self.subtasks, index) {
            Some(raw) => TaskId(raw),
            None => TaskId(0),
        }
    }

    /// The position of `id` in the child set, where it is a child.
    pub fn subtask_index(&self, id: TaskId) -> (r: Option<usize>)
        ensures
            r.is_some() == self.state().subtasks.contains(id),
            r.is_some() ==> r.unwrap() < self.state().subtasks.len()
                && self.state().subtasks[r.unwrap() as int] == id,
    {
        let r = set_get_index_of(&self.subtasks, id.0);
        proof {
            lemma_ids_contains(set_items(self.subtasks), id);
        }
        r
    }
}

/// A sequence of identities holds an identity exactly when the raw
/// sequence holds its raw value, and has no duplicates exactly when the raw
/// sequence has none.
pub proof fn lemma_ids_contains(raw: Seq<usize>, id: TaskId)
    ensures
        ids_of(raw).contains(id) == raw.contains(id.0),
        ids_of(raw).no_duplicates() == raw.no_duplicates(),
{
    if raw.contains(id.0) {
        let i = choose|i: int| 0 <= i < raw.len() && raw[i] == id.0;
        assert(ids_of(raw)[i] == id);
    }
    if ids_of(raw).contains(id) {
        let i = choose|i: int| 0 <= i < ids_of(raw).len() && ids_of(raw)[i] == id;
        assert(raw[i] == id.0);
    }
    if raw.no_duplicates() {
        assert forall|i: int, j: int|
            0 <= i < ids_of(raw).len() && 0 <= j < ids_of(raw).len() && i != j implies ids_of(
            raw,
        )[i] != ids_of(raw)[j] by {
            assert(raw[i] != raw[j]);
        }
    }
    if ids_of(raw).no_duplicates() {
        assert forall|i: int, j: int|
            0 <= i < raw.len() && 0 <= j < raw.len() && i != j implies raw[i] != raw[j] by {
            assert(ids_of(raw)[i] != ids_of(raw)[j]);
        }
    }
}

/// The arena that owns every task record, keyed by identity.
///
/// Records stand in one sequence; an ordered set of raw identities says
/// which identity owns which position. A task's record always stands behind
/// its parent's.
pub struct TaskStore<T, E> {
    ids: IndexSet<usize>,
    tasks: Vec<Task<T, E>>,
    retention: Retention,
}

impl<T, E> View for TaskStore<T, E> {
    type V = Map<TaskId, TaskState<T, E>>;

    closed spec fn view(&self) -> Map<TaskId, TaskState<T, E>> {
        Map::new(
            |id: TaskId| set_items(self.ids).contains(id.0),
            |id: TaskId| self.tasks@[set_items(self.ids).index_of(id.0)].state(),
        )
    }
}

impl<T, E> TaskStore<T, E> {
    /// The raw identity of the task whose child set holds the record at
    /// position `i`.
    spec fn parent_raw(&self, i: int) -> usize {
        match self.tasks@[i].parent {
            Some(p) => p.0,
            None => 0,
        }
    }

    /// Positions and identities match one to one, and the root owns the
    /// first position.
    spec fn arena(&self) -> bool {
        let ids = set_items(self.ids);
        &&& ids.len() == self.tasks@.len()
        &&& ids.len() > 0
        &&& ids[0] == 0
        &&& ids.no_duplicates()
    }

    /// Every record but the root's stands behind its parent's.
    spec fn ordered(&self) -> bool {
        let ids = set_items(self.ids);
        forall|i: int|
            1 <= i < ids.len() ==> {
                let j = ids.index_of(#[trigger] self.parent_raw(i));
                0 <= j < i && ids[j] == self.parent_raw(i)
            }
    }

    /// The store's invariant: the records form a well-formed tree, and
    /// every buffer below the root is within the retention rule's bound.
    pub closed spec fn wf(&self) -> bool {
        &&& self.arena()
        &&& self.ordered()
        &&& well_formed(self@)
        &&& within(self@, self.retention)
    }

    /// The retention rule the store applies to events.
    pub closed spec fn rule(&self) -> Retention {
        self.retention
    }

    /// What the invariant says of the tree.
    pub proof fn lemma_wf(&self)
        requires
            self.wf(),
        ensures
            well_formed(self@),
            within(self@, self.rule()),
    {
    }

    /// The record at position `i` is the state of the identity that owns
    /// the position.
    proof fn lemma_at(&self, i: int)
        requires
            self.arena(),
            0 <= i < self.tasks@.len(),
        ensures
            self@.contains_key(TaskId(set_items(self.ids)[i])),
            set_items(self.ids).index_of(set_items(self.ids)[i]) == i,
            self@[TaskId(set_items(self.ids)[i])] == self.tasks@[i].state(),
    {
        let ids = set_items(self.ids);
        assert(ids.contains(ids[i]));
        let j = ids.index_of(ids[i]);
        assert(0 <= j < ids.len() && ids[j] == ids[i]);
    }

    /// An identity of the tree owns a position.
    proof fn lemma_slot(&self, id: TaskId)
        requires
            self.arena(),
            self@.contains_key(id),
        ensures
            0 <= set_items(self.ids).index_of(id.0) < self.tasks@.len(),
            set_items(self.ids)[set_items(self.ids).index_of(id.0)] == id.0,
            self@[id] == self.tasks@[set_items(self.ids).index_of(id.0)].state(),
    {
    }

    /// A record's depth is at most its position.
    proof fn lemma_depth(&self, i: int)
        requires
            self.wf(),
            0 <= i < self.tasks@.len(),
        ensures
            self.tasks@[i].depth <= i,
        decreases i,
    {
        let ids = set_items(self.ids);
        self.lemma_at(i);
        if i > 0 {
            let id = TaskId(ids[i]);
            assert(id != TaskId::root());
            assert(self@.contains_key(id) && id != TaskId::root());
            assert(linked(self@, id));
            let p = parent_of(self@, id);
            assert(p.0 == self.parent_raw(i));
            let j = ids.index_of(self.parent_raw(i));
            self.lemma_slot(p);
            self.lemma_depth(j);
        }
    }

    /// A store that holds only the root and applies the standard rule.
    pub fn new() -> (r: Self)
        ensures
            r.wf(),
            r@ == initial::<T, E>(),
            r.rule() == Retention::Rolling(3),
    {
        Self::with_retention(Retention::standard())
    }

    /// A store that holds only the root and keeps the newest `max_events`
    /// events of each task.
    pub fn with_max_events(max_events: usize) -> (r: Self)
        ensures
            r.wf(),
            r@ == initial::<T, E>(),
            r.rule() == Retention::Rolling(max_events),
    {
        Self::with_retention(Retention::Rolling(max_events))
    }

    /// A store that holds only the root and applies `rule` to events.
    pub fn with_retention(rule: Retention) -> (r: Self)
        ensures
            r.wf(),
            r@ == initial::<T, E>(),
            r.rule() == rule,
    {
        let mut ids = set_new();
        let _ = set_insert(&mut ids, 0);
        let mut tasks: Vec<Task<T, E>> = Vec::new();
        tasks.push(Task::new(0, None, None));
        let r = TaskStore { ids, tasks, retention: rule };
        proof {
            let raw = set_items(r.ids);
            assert(raw =~= seq![0usize]);
            r.lemma_at(0);
            assert forall|id: TaskId| r@.contains_key(id) implies id == TaskId::root() by {
                let k = choose|k: int| 0 <= k < raw.len() && raw[k] == id.0;
            }
            assert(r@ =~= initial::<T, E>());
            assert(children_ok(r@, TaskId::root()));
        }
        r
    }

    /// The retention rule the store applies to events.
    pub fn retention(&self) -> (r: Retention)
        ensures
            r == self.rule(),
    {
        self.retention
    }

    /// The position that `id` owns, where the store holds it.
    fn slot(&self, id: TaskId) -> (r: Option<usize>)
        requires
            self.arena(),
        ensures
            r.is_some() == self@.contains_key(id),
            r.is_some() ==> r.unwrap() < self.tasks@.len() && r.unwrap() == set_items(
                self.ids,
            ).index_of(id.0) && self@[id] == self.tasks@[r.unwrap() as int].state(),
    {
        let r = set_get_index_of(&self.ids, id.0);
        proof {
            if r.is_some() {
                self.lemma_at(r.unwrap() as int);
            }
        }
        r
    }

    /// Whether the store holds a task `id`.
    pub fn contains(&self, id: TaskId) -> (r: bool)
        requires
            self.wf(),
        ensures
            r == self@.contains_key(id),
    {
        self.slot(id).is_some()
    }

    /// The record of a task that the store holds.
    pub fn task(&self, id: &TaskId) -> (r: &Task<T, E>)
        requires
            self.wf(),
            self@.contains_key(*id),
        ensures
            r.state() == self@[*id],
    {
        let slot = self.slot(*id);
        &self.tasks[slot.unwrap()]
    }

    /// The number of tasks the store holds, the root included.
    pub fn len(&self) -> (r: usize)
        requires
            self.wf(),
        ensures
            r == self@.dom().len(),
            r >= 1,
    {
        proof {
            self.lemma_dom_len();
        }
        self.tasks.len()
    }

    /// The tree has as many identities as the arena has positions.
    proof fn lemma_dom_len(&self)
        requires
            self.arena(),
        ensures
            self@.dom().finite(),
            self@.dom().len() == self.tasks@.len(),
    {
        let raw = set_items(self.ids);
        let ids = ids_of(raw);
        assert forall|i: int, j: int|
            0 <= i < ids.len() && 0 <= j < ids.len() && i != j implies ids[i] != ids[j] by {
            assert(raw[i] != raw[j]);
        }
        ids.unique_seq_to_set();
        assert(ids.to_set() =~= self@.dom()) by {
            assert forall|id: TaskId| ids.to_set().contains(id) == self@.dom().contains(id) by {
                lemma_ids_contains(raw, id);
            }
        }
    }
}

impl<T, E> TaskStore<T, E> {
    /// The task that `parent` designates: the named task where the store
    /// holds it, the root otherwise.
    pub fn resolve(&self, parent: Option<TaskId>) -> (r: TaskId)
        requires
            self.wf(),
        ensures
            r == resolve(self@, parent),
            self@.contains_key(r),
    {
        match parent {
            Some(p) => if self.contains(p) {
                p
            } else {
                TaskId::root()
            },
            None => TaskId::root(),
        }
    }

    /// Starts task `id` with payload `data` under the task that `parent`
    /// designates.
    pub fn start(&mut self, id: TaskId, parent: Option<TaskId>, data: T)
        requires
            old(self).wf(),
            !old(self)@.contains_key(id),
        ensures
            final(self).wf(),
            final(self).rule() == old(self).rule(),
            final(self)@ == started(old(self)@, id, parent, data),
    {
        let pid = self.resolve(parent);
        let slot = self.slot(pid);
        let ps = slot.unwrap();
        proof {
            // a record's depth is at most its position, which is below the length
            self.lemma_depth(ps as int);
            assert(self.tasks.len() == self.tasks@.len());
        }
        let depth = self.tasks[ps].depth + 1;
        let recorded = if pid.is_root() {
            None
        } else {
            Some(pid)
        };
        let task = Task::new(depth, recorded, Some(data));
        let ghost old_ids = set_items(self.ids);
        let ghost old_kids = set_items(self.tasks@[ps as int].subtasks);
        proof {
            // the parent does not list the new identity yet
            assert(children_ok(old(self)@, pid));
            lemma_ids_contains(old_kids, id);
            if old_kids.contains(id.0) {
                let k = choose|k: int|
                    0 <= k < ids_of(old_kids).len() && ids_of(old_kids)[k] == id;
                assert(old(self)@.contains_key(old(self)@[pid].subtasks[k]));
            }
        }
        let _ = set_insert(&mut self.ids, id.0);
        self.tasks.push(task);
        let _ = set_insert(&mut self.tasks[ps].subtasks, id.0);
        proof {
            let new_ids = set_items(self.ids);
            let n = old_ids.len() as int;
            assert(new_ids == old_ids.push(id.0));
            assert(self.arena());
            assert forall|i: int| 0 <= i < n implies new_ids.index_of(old_ids[i]) == i by {
                self.lemma_at(i);
            }
            self.lemma_at(n);
            let goal = started(old(self)@, id, parent, data);
            assert(ids_of(old_kids.push(id.0)) =~= ids_of(old_kids).push(id));
            assert forall|k: TaskId| self@.contains_key(k) == goal.contains_key(k) by {
                if old_ids.contains(k.0) {
                    let i = choose|i: int| 0 <= i < old_ids.len() && old_ids[i] == k.0;
                    assert(new_ids[i] == k.0);
                }
                if k == id {
                    assert(new_ids[n] == k.0);
                }
            }
            assert forall|k: TaskId| self@.contains_key(k) implies self@[k] == goal[k] by {
                if k == id {
                } else {
                    assert(old(self)@.contains_key(k));
                    old(self).lemma_slot(k);
                    let i = old_ids.index_of(k.0);
                    assert(new_ids.index_of(k.0) == i);
                }
            }
            assert(self@ =~= goal);
            lemma_started(old(self)@, id, parent, data);
            assert(within(self@, self.retention)) by {
                assert forall|k: TaskId| #[trigger]
                    self@.contains_key(k) && k != TaskId::root() implies self.retention.admits(
                    self@[k].events.len(),
                ) by {
                    if k != id {
                        assert(old(self)@.contains_key(k));
                    }
                }
            }
            assert(self.ordered()) by {
                assert forall|i: int| 1 <= i < new_ids.len() implies {
                    let j = new_ids.index_of(#[trigger] self.parent_raw(i));
                    0 <= j < i && new_ids[j] == self.parent_raw(i)
                } by {
                    if i < n {
                        assert(self.parent_raw(i) == old(self).parent_raw(i));
                        let j = old_ids.index_of(old(self).parent_raw(i));
                        assert(0 <= j < i && old_ids[j] == old(self).parent_raw(i));
                        assert(new_ids.index_of(old_ids[j]) == j);
                    } else {
                        assert(self.parent_raw(i) == pid.0);
                        assert(new_ids.index_of(old_ids[ps as int]) == ps);
                    }
                }
            }
        }
    }
}

impl<T, E> TaskStore<T, E> {
    /// Two stores that agree on identities, positions and recorded parents
    /// agree on the order of their records.
    proof fn lemma_reordered(&self, before: &Self)
        requires
            before.arena(),
            before.ordered(),
            set_items(self.ids) == set_items(before.ids),
            self.tasks@.len() == before.tasks@.len(),
            forall|i: int|
                0 <= i < self.tasks@.len() ==> (#[trigger] self.tasks@[i]).parent
                    == before.tasks@[i].parent,
        ensures
            self.arena(),
            self.ordered(),
    {
        let ids = set_items(self.ids);
        assert forall|i: int| 1 <= i < ids.len() implies {
            let j = ids.index_of(#[trigger] self.parent_raw(i));
            0 <= j < i && ids[j] == self.parent_raw(i)
        } by {
            assert(self.tasks@[i].parent == before.tasks@[i].parent);
            assert(self.parent_raw(i) == before.parent_raw(i));
        }
    }

    /// Buffers an event for the task that `parent` designates. The root
    /// keeps every event until the next render pass; any other task applies
    /// the retention rule.
    pub fn event(&mut self, parent: Option<TaskId>, data: E)
        requires
            old(self).wf(),
        ensures
            final(self).wf(),
            final(self).rule() == old(self).rule(),
            final(self)@ == logged(old(self)@, old(self).rule(), parent, data),
    {
        let pid = self.resolve(parent);
        let slot = self.slot(pid);
        let ps = slot.unwrap();
        if pid.is_root() {
            self.tasks[ps].events.push_back(data);
        } else {
            let rule = self.retention;
            rule.push(&mut self.tasks[ps].events, data);
        }
        proof {
            let goal = logged(old(self)@, old(self).rule(), parent, data);
            self.lemma_reordered(old(self));
            assert forall|k: TaskId| self@.contains_key(k) implies self@[k] == goal[k] by {
                old(self).lemma_slot(k);
            }
            assert(self@ =~= goal);
            lemma_logged(old(self)@, old(self).rule(), parent, data);
        }
    }

    /// Marks task `id` completed. The root and identities the store does
    /// not hold are left alone.
    pub fn end(&mut self, id: TaskId)
        requires
            old(self).wf(),
        ensures
            final(self).wf(),
            final(self).rule() == old(self).rule(),
            final(self)@ == ended(old(self)@, id),
    {
        if !id.is_root() {
            match self.slot(id) {
                Some(s) => {
                    self.tasks[s].completed = true;
                    proof {
                        let goal = ended(old(self)@, id);
                        self.lemma_reordered(old(self));
                        assert forall|k: TaskId| self@.contains_key(k) implies self@[k]
                            == goal[k] by {
                            old(self).lemma_slot(k);
                        }
                        assert(self@ =~= goal);
                    }
                },
                None => {},
            }
        }
        proof {
            lemma_ended(old(self)@, id);
        }
    }

    /// Marks every task but the root cancelled.
    pub fn cancel_all(&mut self)
        requires
            old(self).wf(),
        ensures
            final(self).wf(),
            final(self).rule() == old(self).rule(),
            final(self)@ == cancelled_all(old(self)@),
    {
        let count = self.tasks.len();
        let mut i: usize = 1;
        while i < count
            invariant
                1 <= i <= count,
                count == self.tasks@.len(),
                count == old(self).tasks@.len(),
                self.ids == old(self).ids,
                self.retention == old(self).retention,
                self.tasks@[0] == old(self).tasks@[0],
                forall|k: int|
                    1 <= k < i ==> (#[trigger] self.tasks@[k]).state() == (TaskState {
                        cancelled: true,
                        ..old(self).tasks@[k].state()
                    }),
                forall|k: int| i <= k < count ==> #[trigger] self.tasks@[k] == old(self).tasks@[k],
                forall|k: int|
                    0 <= k < count ==> (#[trigger] self.tasks@[k]).parent == old(
                        self,
                    ).tasks@[k].parent,
            decreases count - i,
        {
            self.tasks[i].cancelled = true;
            i += 1;
        }
        proof {
            let goal = cancelled_all(old(self)@);
            self.lemma_reordered(old(self));
            assert forall|k: TaskId| self@.contains_key(k) implies self@[k] == goal[k] by {
                old(self).lemma_slot(k);
                let s = set_items(self.ids).index_of(k.0);
                if s == 0 {
                } else {
                    assert(k != TaskId::root());
                }
            }
            assert(self@ =~= goal);
            lemma_cancelled_all(old(self)@);
        }
    }
}

impl<T, E> TaskStore<T, E> {
    /// Takes the childless record at position `i` out of the arena and out
    /// of its parent's child set.
    fn drop_leaf(&mut self, i: usize)
        requires
            old(self).wf(),
            1 <= i < old(self).tasks@.len(),
            old(self).tasks@[i as int].state().subtasks.len() == 0,
        ensures
            final(self).wf(),
            final(self).rule() == old(self).rule(),
            set_items(final(self).ids) == set_items(old(self).ids).remove(i as int),
            final(self).tasks@.len() == old(self).tasks@.len() - 1,
            final(self)@ == dropped(old(self)@, TaskId(set_items(old(self).ids)[i as int])),
    {
        let ghost old_ids = set_items(self.ids);
        let ghost x = TaskId(old_ids[i as int]);
        let ghost m = self@;
        let ghost p = parent_of(m, x);
        let ghost j = old_ids.index_of(self.parent_raw(i as int));
        proof {
            self.lemma_at(i as int);
            assert(m.contains_key(x) && x != TaskId::root());
            assert(linked(m, x));
            assert(p.0 == self.parent_raw(i as int));
            assert(0 <= j < i && old_ids[j] == p.0);
            self.lemma_at(j);
            assert(children_ok(m, p));
            // nobody names the leaf as a parent
            assert forall|k: int| 1 <= k < old_ids.len() implies self.parent_raw(k)
                != old_ids[i as int] by {
                self.lemma_at(k);
                let c = TaskId(old_ids[k]);
                if self.parent_raw(k) == old_ids[i as int] {
                    assert(m.contains_key(c) && c != TaskId::root());
                    assert(linked(m, c));
                    assert(parent_of(m, c) == x);
                }
            }
        }
        let raw = match set_get_index(&self.ids, i) {
            Some(r) => r,
            None => 0,
        };
        let task = self.tasks.remove(i);
        let _ = set_shift_remove(&mut self.ids, raw);
        let pid = match task.parent {
            Some(q) => q,
            None => TaskId::root(),
        };
        let ghost new_ids = set_items(self.ids);
        proof {
            assert(new_ids == old_ids.remove(i as int));
            assert(new_ids[j] == p.0);
        }
        let found = set_get_index_of(&self.ids, pid.0);
        let ps = match found {
            Some(s) => s,
            None => 0,
        };
        assert(ps == j);
        let ghost old_kids = set_items(self.tasks@[ps as int].subtasks);
        let _ = set_shift_remove(&mut self.tasks[ps].subtasks, raw);
        proof {
            let new_kids = set_items(self.tasks@[ps as int].subtasks);
            lemma_ids_contains(old_kids, x);
            assert(ids_of(old_kids) == m[p].subtasks);
            let k = choose|k: int|
                0 <= k < old_kids.len() && old_kids[k] == raw && new_kids == old_kids.remove(k);
            assert(ids_of(old_kids)[k] == x);
            assert(k == m[p].subtasks.index_of(x));
            assert(ids_of(new_kids) =~= m[p].subtasks.remove(k));
            assert(self.arena());
            // positions: below `i` they stay, above they move down by one
            assert forall|s: int| 0 <= s < new_ids.len() implies new_ids.index_of(new_ids[s])
                == s by {
                self.lemma_at(s);
            }
            let goal = dropped(m, x);
            assert forall|q: TaskId| self@.contains_key(q) == goal.contains_key(q) by {
                if old_ids.contains(q.0) && q != x {
                    let s = choose|s: int| 0 <= s < old_ids.len() && old_ids[s] == q.0;
                    if s < i {
                        assert(new_ids[s] == q.0);
                    } else {
                        assert(new_ids[s - 1] == q.0);
                    }
                }
                if new_ids.contains(q.0) {
                    let s = choose|s: int| 0 <= s < new_ids.len() && new_ids[s] == q.0;
                    if s < i {
                        assert(old_ids[s] == q.0);
                    } else {
                        assert(old_ids[s + 1] == q.0);
                    }
                }
            }
            assert forall|q: TaskId| self@.contains_key(q) implies self@[q] == goal[q] by {
                self.lemma_slot(q);
                let s = new_ids.index_of(q.0);
                if s < i {
                    old(self).lemma_at(s);
                } else {
                    old(self).lemma_at(s + 1);
                }
            }
            assert(self@ =~= goal);
            lemma_dropped(m, x);
            assert(self.ordered()) by {
                assert forall|s: int| 1 <= s < new_ids.len() implies {
                    let t = new_ids.index_of(#[trigger] self.parent_raw(s));
                    0 <= t < s && new_ids[t] == self.parent_raw(s)
                } by {
                    let before = if s < i {
                        s
                    } else {
                        s + 1
                    };
                    assert(self.parent_raw(s) == old(self).parent_raw(before));
                    let t = old_ids.index_of(old(self).parent_raw(before));
                    assert(0 <= t < before && old_ids[t] == old(self).parent_raw(before));
                    assert(t != i);
                    if t < i {
                        assert(new_ids[t] == old_ids[t]);
                        assert(new_ids.index_of(new_ids[t]) == t);
                    } else {
                        assert(new_ids[t - 1] == old_ids[t]);
                        assert(new_ids.index_of(new_ids[t - 1]) == t - 1);
                    }
                }
            }
        }
    }
}

impl<T, E> TaskStore<T, E> {
    /// The identities whose position is marked.
    spec fn marked(&self, marks: Seq<bool>) -> Set<TaskId> {
        Set::new(
            |id: TaskId| self@.contains_key(id) && marks[set_items(self.ids).index_of(id.0)],
        )
    }

    /// The identities whose position is marked and not below `from`.
    spec fn marked_from(&self, marks: Seq<bool>, from: int) -> Set<TaskId> {
        Set::new(
            |id: TaskId|
                self@.contains_key(id) && set_items(self.ids).index_of(id.0) >= from
                    && marks[set_items(self.ids).index_of(id.0)],
        )
    }

    /// Whether a marked record has all its children marked.
    spec fn closed_under(&self, marks: Seq<bool>) -> bool {
        forall|i: int|
            1 <= i < self.tasks@.len() && marks[set_items(self.ids).index_of(
                #[trigger] self.parent_raw(i),
            )] ==> marks[i]
    }

    /// Takes every marked record out of the store, last position first, so
    /// that each record leaves after all its children.
    fn remove_marked(&mut self, marks: &Vec<bool>)
        requires
            old(self).wf(),
            marks@.len() == old(self).tasks@.len(),
            !marks@[0],
            old(self).closed_under(marks@),
        ensures
            final(self).wf(),
            final(self).rule() == old(self).rule(),
            final(self)@ == without(old(self)@, old(self).marked(marks@)),
    {
        let ghost old_ids = set_items(self.ids);
        let ghost m = self@;
        let mut i: usize = self.tasks.len();
        proof {
            let none = old(self).marked_from(marks@, i as int);
            assert forall|k: TaskId| m.contains_key(k) implies (TaskState {
                subtasks: keep(m[k].subtasks, none),
                ..m[k]
            }) == m[k] by {
                assert forall|c: int| 0 <= c < m[k].subtasks.len() implies !none.contains(
                    #[trigger] m[k].subtasks[c],
                ) by {
                    let id = m[k].subtasks[c];
                    if m.contains_key(id) {
                        old(self).lemma_slot(id);
                    }
                }
                lemma_keep_all(m[k].subtasks, none);
            }
            assert forall|k: TaskId| m.contains_key(k) implies !none.contains(k) by {
                old(self).lemma_slot(k);
            }
            assert(self@ =~= without(m, none));
        }
        while i > 1
            invariant
                1 <= i <= old_ids.len(),
                old_ids == set_items(old(self).ids),
                old_ids.len() == marks@.len(),
                m == old(self)@,
                old(self).wf(),
                !marks@[0],
                old(self).closed_under(marks@),
                self.wf(),
                self.retention == old(self).retention,
                self.tasks@.len() >= i,
                forall|k: int| 0 <= k < i ==> set_items(self.ids)[k] == old_ids[k],
                self@ == without(m, old(self).marked_from(marks@, i as int)),
            decreases i,
        {
            let ghost gone = old(self).marked_from(marks@, i as int);
            i -= 1;
            let ghost x = TaskId(old_ids[i as int]);
            proof {
                old(self).lemma_at(i as int);
                self.lemma_at(i as int);
            }
            if marks[i] {
                proof {
                    assert(x != TaskId::root());
                    assert(linked(m, x));
                    assert(children_ok(m, x));
                    let p = parent_of(m, x);
                    assert(p.0 == old(self).parent_raw(i as int));
                    old(self).lemma_slot(p);
                    assert(!gone.contains(x));
                    assert(!gone.contains(p));
                    // every child of the record is already gone
                    assert forall|c: int| 0 <= c < m[x].subtasks.len() implies gone.contains(
                        #[trigger] m[x].subtasks[c],
                    ) by {
                        let id = m[x].subtasks[c];
                        assert(m.contains_key(id) && id != TaskId::root() && parent_of(m, id) == x);
                        old(self).lemma_slot(id);
                        let s = old_ids.index_of(id.0);
                        assert(s != 0);
                        assert(old(self).parent_raw(s) == x.0);
                    }
                    lemma_keep_none(m[x].subtasks, gone);
                    lemma_without_step(m, gone, x);
                }
                self.drop_leaf(i);
            }
            proof {
                let next = old(self).marked_from(marks@, i as int);
                if marks@[i as int] {
                    assert(next =~= gone.insert(x)) by {
                        assert forall|k: TaskId| next.contains(k) == gone.insert(x).contains(
                            k,
                        ) by {
                            if m.contains_key(k) {
                                old(self).lemma_slot(k);
                            }
                        }
                    }
                } else {
                    assert(next =~= gone) by {
                        assert forall|k: TaskId| next.contains(k) == gone.contains(k) by {
                            if m.contains_key(k) {
                                old(self).lemma_slot(k);
                            }
                        }
                    }
                }
            }
        }
        proof {
            let all = old(self).marked(marks@);
            let from = old(self).marked_from(marks@, 1);
            assert(all =~= from) by {
                assert forall|k: TaskId| all.contains(k) == from.contains(k) by {
                    if m.contains_key(k) {
                        old(self).lemma_slot(k);
                    }
                }
            }
        }
    }

    /// The root's children that are completed or cancelled, where `done`
    /// asks for those, or the others, in the order of the child set.
    pub fn root_children(&self, done: bool) -> (r: Vec<TaskId>)
        requires
            self.wf(),
        ensures
            r@ == settled(self@, self@[TaskId::root()].subtasks, done),
    {
        let root = TaskId::root();
        proof {
            self.lemma_wf();
            assert(children_ok(self@, root));
        }
        let kids = self.task(&root);
        let count = kids.subtask_count();
        let mut out: Vec<TaskId> = Vec::new();
        let mut i: usize = 0;
        assert(self@[root].subtasks.take(0) =~= Seq::<TaskId>::empty());
        while i < count
            invariant
                self.wf(),
                root == TaskId::root(),
                kids.state() == self@[root],
                children_ok(self@, root),
                count == self@[root].subtasks.len(),
                i <= count,
                out@ == settled(self@, self@[root].subtasks.take(i as int), done),
            decreases count - i,
        {
            let id = kids.subtask(i);
            proof {
                assert(self@.contains_key(self@[root].subtasks[i as int]));
                assert(self@[root].subtasks.take(i + 1).drop_last() =~= self@[root].subtasks.take(
                    i as int,
                ));
                assert(self@[root].subtasks.take(i + 1).last() == id);
            }
            let task = self.task(&id);
            if (task.completed() || task.cancelled()) == done {
                out.push(id);
            }
            i += 1;
        }
        assert(self@[root].subtasks.take(count as int) =~= self@[root].subtasks);
        out
    }

    /// Empties the root's event buffer.
    pub fn clear_root_events(&mut self)
        requires
            old(self).wf(),
        ensures
            final(self).wf(),
            final(self).rule() == old(self).rule(),
            final(self)@ == flushed(old(self)@),
    {
        self.tasks[0].events.clear();
        proof {
            let goal = flushed(old(self)@);
            self.lemma_reordered(old(self));
            old(self).lemma_at(0);
            assert forall|k: TaskId| self@.contains_key(k) implies self@[k] == goal[k] by {
                old(self).lemma_slot(k);
            }
            assert(self@ =~= goal);
            lemma_same_shape(old(self)@, self@);
            assert forall|k: TaskId| #[trigger]
                self@.contains_key(k) && k != TaskId::root() implies self.retention.admits(
                self@[k].events.len(),
            ) by {
                assert(old(self)@.contains_key(k));
            }
        }
    }

    /// Removes every completed or cancelled child of the root together
    /// with all that stands below it.
    pub fn prune(&mut self)
        requires
            old(self).wf(),
        ensures
            final(self).wf(),
            final(self).rule() == old(self).rule(),
            final(self)@ == without(old(self)@, doomed_set(old(self)@)),
    {
        let count = self.tasks.len();
        let mut marks: Vec<bool> = Vec::new();
        marks.push(false);
        let mut i: usize = 1;
        let ghost ids = set_items(self.ids);
        while i < count
            invariant
                self.wf(),
                ids == set_items(self.ids),
                count == self.tasks@.len(),
                1 <= i <= count,
                marks@.len() == i,
                !marks@[0],
                forall|k: int| 1 <= k < i ==> marks@[k] == doomed(self@, TaskId(#[trigger] ids[k])),
                forall|k: int|
                    1 <= k < i && marks@[ids.index_of(#[trigger] self.parent_raw(k))]
                        ==> marks@[k],
            decreases count - i,
        {
            let ghost x = TaskId(ids[i as int]);
            proof {
                self.lemma_at(i as int);
                assert(self@.contains_key(x) && x != TaskId::root());
                assert(linked(self@, x));
                let p = parent_of(self@, x);
                assert(p.0 == self.parent_raw(i as int));
                let j = ids.index_of(self.parent_raw(i as int));
                assert(0 <= j < i && ids[j] == p.0);
                self.lemma_slot(p);
            }
            let mark = match self.tasks[i].parent {
                Some(p) => {
                    let slot = self.slot(p);
                    marks[slot.unwrap()]
                },
                None => self.tasks[i].completed || self.tasks[i].cancelled,
            };
            assert(mark == doomed(self@, x));
            marks.push(mark);
            i += 1;
        }
        proof {
            let all = self.marked(marks@);
            assert(all =~= doomed_set(self@)) by {
                assert forall|k: TaskId| all.contains(k) == doomed(self@, k) by {
                    if self@.contains_key(k) {
                        self.lemma_slot(k);
                    }
                }
            }
        }
        self.remove_marked(&marks);
    }

    /// Removes task `id` and all that stands below it from the store, and
    /// from the child set of its parent. An identity the store does not
    /// hold leaves it as it is.
    pub fn remove(&mut self, id: TaskId)
        requires
            old(self).wf(),
            id != TaskId::root(),
        ensures
            final(self).wf(),
            final(self).rule() == old(self).rule(),
            final(self)@ == without(old(self)@, subtree(old(self)@, id)),
    {
        let count = self.tasks.len();
        let mut marks: Vec<bool> = Vec::new();
        marks.push(false);
        let mut i: usize = 1;
        let ghost ids = set_items(self.ids);
        while i < count
            invariant
                self.wf(),
                id != TaskId::root(),
                ids == set_items(self.ids),
                count == self.tasks@.len(),
                1 <= i <= count,
                marks@.len() == i,
                !marks@[0],
                forall|k: int|
                    1 <= k < i ==> marks@[k] == below(self@, id, TaskId(#[trigger] ids[k])),
                forall|k: int|
                    1 <= k < i && marks@[ids.index_of(#[trigger] self.parent_raw(k))]
                        ==> marks@[k],
            decreases count - i,
        {
            let ghost x = TaskId(ids[i as int]);
            proof {
                self.lemma_at(i as int);
                assert(self@.contains_key(x) && x != TaskId::root());
                assert(linked(self@, x));
                let p = parent_of(self@, x);
                assert(p.0 == self.parent_raw(i as int));
                let j = ids.index_of(self.parent_raw(i as int));
                assert(0 <= j < i && ids[j] == p.0);
                self.lemma_slot(p);
            }
            let raw = match set_get_index(&self.ids, i) {
                Some(r) => r,
                None => 0,
            };
            let mark = if raw == id.0 {
                true
            } else {
                match self.tasks[i].parent {
                    Some(p) => {
                        let slot = self.slot(p);
                        marks[slot.unwrap()]
                    },
                    None => false,
                }
            };
            assert(mark == below(self@, id, x));
            marks.push(mark);
            i += 1;
        }
        proof {
            let all = self.marked(marks@);
            assert(all =~= subtree(self@, id)) by {
                assert forall|k: TaskId| all.contains(k) == below(self@, id, k) by {
                    if self@.contains_key(k) {
                        self.lemma_slot(k);
                    }
                }
            }
        }
        self.remove_marked(&marks);
    }
}

impl<T, E> TaskStore<T, E> {
    /// Applies one action to the tree.
    pub fn apply<R: Renderer<TaskData = T, EventData = E>>(&mut self, action: Action<R>)
        requires
            old(self).wf(),
            accepts(old(self)@, action),
        ensures
            final(self).wf(),
            final(self).rule() == old(self).rule(),
            final(self)@ == step(old(self)@, old(self).rule(), action),
    {
        match action {
            Action::Event { parent, data } => self.event(parent, data),
            Action::TaskStart { id, parent, data } => self.start(id, parent, data),
            Action::TaskEnd { id } => self.end(id),
            Action::CancelAll => self.cancel_all(),
        }
    }
}

impl<T: Clone, E: Clone> Clone for Task<T, E> {
    /// A record with the same place, flags, children and start time,
    /// and with clones of the payload and of each event.
    fn clone(&self) -> (r: Self)
        ensures
            self.state().resembles(r.state()),
            self.state().data.is_some() ==> cloned(
                self.state().data.unwrap(),
                r.state().data.unwrap(),
            ),
            forall|i: int|
                0 <= i < self.state().events.len() ==> cloned(
                    self.state().events[i],
                    #[trigger] r.state().events[i],
                ),
    {
        let r = Task {
            depth: self.depth,
            completed: self.completed,
            cancelled: self.cancelled,
            started_at: self.started_at,
            parent: self.parent,
            data: self.data.clone(),
            events: self.events.clone(),
            subtasks: set_clone(&self.subtasks),
        };
        assert(r.state().events.len() == self.state().events.len());
        r
    }
}

impl<T: Clone, E: Clone> Clone for TaskStore<T, E> {
    /// A store over the same identities under the same rule, whose every
    /// task resembles the one it was cloned from. The clone of a store
    /// that keeps its invariant keeps it too.
    fn clone(&self) -> (r: Self)
        ensures
            r.rule() == self.rule(),
            self.wf() ==> r.wf() && r@.dom() == self@.dom() && forall|id: TaskId|
                #[trigger] self@.contains_key(id) ==> self@[id].resembles(r@[id]),
    {
        let ids = set_clone(&self.ids);
        let mut tasks: Vec<Task<T, E>> = Vec::new();
        let mut i: usize = 0;
        while i < self.tasks.len()
            invariant
                i <= self.tasks@.len(),
                tasks@.len() == i,
                forall|k: int|
                    0 <= k < i ==> self.tasks@[k].state().resembles((#[trigger] tasks@[k]).state()),
            decreases self.tasks@.len() - i,
        {
            tasks.push(self.tasks[i].clone());
            i += 1;
        }
        let r = TaskStore { ids, tasks, retention: self.retention };
        proof {
            if self.wf() {
                assert forall|k: int| 0 <= k < r.tasks@.len() implies (#[trigger] r.tasks@[k]).parent
                    == self.tasks@[k].parent by {
                    assert(self.tasks@[k].state().resembles(r.tasks@[k].state()));
                }
                r.lemma_reordered(self);
                assert(r@.dom() =~= self@.dom());
                assert forall|id: TaskId| #[trigger] self@.contains_key(id) implies self@[id].resembles(
                    r@[id],
                ) by {
                    self.lemma_slot(id);
                    r.lemma_slot(id);
                }
                lemma_same_shape(self@, r@);
                assert forall|id: TaskId| #[trigger]
                    r@.contains_key(id) && id != TaskId::root() implies r.retention.admits(
                    r@[id].events.len(),
                ) by {
                    assert(self@.contains_key(id));
                }
            }
        }
        r
    }
}

} // verus!
