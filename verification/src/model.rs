//! The task tree as a mathematical object: a finite map from identities to
//! task states, and the transitions that actions and render passes perform
//! on it.
use crate::retention::Retention;
use crate::task::TaskId;
use vstd::prelude::*;

verus! {

/// What the tree records of one task.
pub struct TaskState<T, E> {
    /// Distance from the root; the root's children are at depth 1.
    pub depth: nat,
    pub completed: bool,
    pub cancelled: bool,
    /// The owning task; `None` for the root and for the root's children.
    pub parent: Option<TaskId>,
    /// The payload; `None` only for the root.
    pub data: Option<T>,
    /// Buffered events, oldest first.
    pub events: Seq<E>,
    /// Children in the order they were started.
    pub subtasks: Seq<TaskId>,
}

impl<T, E> TaskState<T, E> {
    /// Completed or cancelled.
    pub open spec fn done(self) -> bool {
        self.completed || self.cancelled
    }

    /// Whether `other` is this state with payload and events cloned: the
    /// same place in the tree, the same flags and children, a payload where
    /// this state has one, and as many events.
    pub open spec fn resembles(self, other: Self) -> bool {
        &&& other.depth == self.depth
        &&& other.completed == self.completed
        &&& other.cancelled == self.cancelled
        &&& other.parent == self.parent
        &&& other.subtasks == self.subtasks
        &&& other.data.is_some() == self.data.is_some()
        &&& other.events.len() == self.events.len()
    }

    /// The state of a task that was just started.
    pub open spec fn fresh(depth: nat, parent: Option<TaskId>, data: Option<T>) -> Self {
        TaskState {
            depth,
            completed: false,
            cancelled: false,
            parent,
            data,
            events: Seq::empty(),
            subtasks: Seq::empty(),
        }
    }
}

/// The tree that holds nothing but the root.
pub open spec fn initial<T, E>() -> Map<TaskId, TaskState<T, E>> {
    Map::empty().insert(TaskId::root(), TaskState::fresh(0, None, None))
}

/// The task that `parent` designates: the named task when the tree holds it,
/// the root otherwise.
pub open spec fn resolve<T, E>(m: Map<TaskId, TaskState<T, E>>, parent: Option<TaskId>) -> TaskId {
    match parent {
        Some(p) => if m.contains_key(p) {
            p
        } else {
            TaskId::root()
        },
        None => TaskId::root(),
    }
}

/// The task whose child set holds `id`: the recorded parent, or the root
/// where none is recorded.
pub open spec fn parent_of<T, E>(m: Map<TaskId, TaskState<T, E>>, id: TaskId) -> TaskId {
    match m[id].parent {
        Some(p) => p,
        None => TaskId::root(),
    }
}

/// The parent as a task records it: nothing for a child of the root.
pub open spec fn recorded_parent(p: TaskId) -> Option<TaskId> {
    if p == TaskId::root() {
        None
    } else {
        Some(p)
    }
}

/// The tree after a task `id` with payload `data` was started under `parent`.
pub open spec fn started<T, E>(
    m: Map<TaskId, TaskState<T, E>>,
    id: TaskId,
    parent: Option<TaskId>,
    data: T,
) -> Map<TaskId, TaskState<T, E>> {
    let p = resolve(m, parent);
    m.insert(p, TaskState { subtasks: m[p].subtasks.push(id), ..m[p] }).insert(
        id,
        TaskState::fresh(m[p].depth + 1, recorded_parent(p), Some(data)),
    )
}

/// The tree after an event arrived for `parent`. The root keeps every event
/// until the next render pass; any other task applies the retention rule.
pub open spec fn logged<T, E>(
    m: Map<TaskId, TaskState<T, E>>,
    rule: Retention,
    parent: Option<TaskId>,
    data: E,
) -> Map<TaskId, TaskState<T, E>> {
    let p = resolve(m, parent);
    let events = if p == TaskId::root() {
        m[p].events.push(data)
    } else {
        rule.retain(m[p].events, data)
    };
    m.insert(p, TaskState { events, ..m[p] })
}

/// The tree after task `id` ended: a task the tree holds is marked
/// completed; the root and unknown identities leave the tree as it is.
pub open spec fn ended<T, E>(m: Map<TaskId, TaskState<T, E>>, id: TaskId) -> Map<
    TaskId,
    TaskState<T, E>,
> {
    if m.contains_key(id) && id != TaskId::root() {
        m.insert(id, TaskState { completed: true, ..m[id] })
    } else {
        m
    }
}

/// The tree after every task but the root was marked cancelled.
pub open spec fn cancelled_all<T, E>(m: Map<TaskId, TaskState<T, E>>) -> Map<
    TaskId,
    TaskState<T, E>,
> {
    Map::new(
        |id: TaskId| m.contains_key(id),
        |id: TaskId|
            if id == TaskId::root() {
                m[id]
            } else {
                TaskState { cancelled: true, ..m[id] }
            },
    )
}

/// The identities whose cancelled flag is set.
pub open spec fn cancelled_set<T, E>(m: Map<TaskId, TaskState<T, E>>) -> Set<TaskId> {
    Set::new(|id: TaskId| m.contains_key(id) && m[id].cancelled)
}

/// What holds of a task other than the root: it carries a payload, its
/// parent is in the tree one level above it, and the parent lists it.
pub open spec fn linked<T, E>(m: Map<TaskId, TaskState<T, E>>, id: TaskId) -> bool {
    &&& m[id].data.is_some()
    &&& m[id].parent != Some(TaskId::root())
    &&& m.contains_key(parent_of(m, id))
    &&& m[id].depth == m[parent_of(m, id)].depth + 1
    &&& m[parent_of(m, id)].subtasks.contains(id)
}

/// What holds of a task's child set: no identity twice, and every listed
/// identity is a task of the tree that names that one as its parent.
pub open spec fn children_ok<T, E>(m: Map<TaskId, TaskState<T, E>>, p: TaskId) -> bool {
    &&& m[p].subtasks.no_duplicates()
    &&& forall|i: int|
        0 <= i < m[p].subtasks.len() ==> {
            let c = #[trigger] m[p].subtasks[i];
            m.contains_key(c) && c != TaskId::root() && parent_of(m, c) == p
        }
}

/// The invariants of the task tree.
pub open spec fn well_formed<T, E>(m: Map<TaskId, TaskState<T, E>>) -> bool {
    &&& m.dom().finite()
    &&& m.contains_key(TaskId::root())
    &&& m[TaskId::root()].depth == 0
    &&& m[TaskId::root()].parent.is_none()
    &&& m[TaskId::root()].data.is_none()
    &&& !m[TaskId::root()].completed
    &&& !m[TaskId::root()].cancelled
    &&& forall|id: TaskId| #[trigger] m.contains_key(id) && id != TaskId::root() ==> linked(m, id)
    &&& forall|p: TaskId| #[trigger] m.contains_key(p) ==> children_ok(m, p)
}

/// Whether every buffer below the root is within the retention rule's bound.
pub open spec fn within<T, E>(m: Map<TaskId, TaskState<T, E>>, rule: Retention) -> bool {
    forall|id: TaskId| #[trigger]
        m.contains_key(id) && id != TaskId::root() ==> rule.admits(m[id].events.len())
}

/// Starting a task whose identity is not in the tree keeps the tree's
/// invariants. The new task stands exactly once in the child set of the
/// task that `parent` designates, behind the children that were there, and
/// one level below it; every other task keeps its state.
pub proof fn lemma_started<T, E>(
    m: Map<TaskId, TaskState<T, E>>,
    id: TaskId,
    parent: Option<TaskId>,
    data: T,
)
    requires
        well_formed(m),
        !m.contains_key(id),
    ensures
        well_formed(started(m, id, parent, data)),
        started(m, id, parent, data).dom() == m.dom().insert(id),
        ({
            let n = started(m, id, parent, data);
            let p = resolve(m, parent);
            &&& parent_of(n, id) == p
            &&& n[id].depth == n[p].depth + 1
            &&& n[id].depth == m[p].depth + 1
            &&& n[p].subtasks == m[p].subtasks.push(id)
            &&& n[p].subtasks.no_duplicates()
            &&& n[p].subtasks.contains(id)
            &&& n[id].data == Some(data)
            &&& forall|q: TaskId|
                m.contains_key(q) && q != p ==> n[q] == m[q] && !n[q].subtasks.contains(id)
        }),
{
    let n = started(m, id, parent, data);
    let p = resolve(m, parent);
    assert(m.contains_key(p));
    assert(children_ok(m, p));
    assert(n.dom() =~= m.dom().insert(id));
    assert(n[p].subtasks.last() == id);
    // no task of the old tree lists the new identity
    assert forall|q: TaskId| m.contains_key(q) implies !m[q].subtasks.contains(id) by {
        assert(children_ok(m, q));
    }
    assert forall|q: TaskId| #[trigger] n.contains_key(q) && q != TaskId::root() implies linked(
        n,
        q,
    ) by {
        if q != id {
            assert(linked(m, q));
            let pq = parent_of(m, q);
            assert(parent_of(n, q) == pq);
            if pq == p {
                let k = choose|k: int| 0 <= k < m[p].subtasks.len() && m[p].subtasks[k] == q;
                assert(n[p].subtasks[k] == q);
            }
        }
    }
    assert forall|q: TaskId| #[trigger] n.contains_key(q) implies children_ok(n, q) by {
        if q == id {
        } else {
            assert(children_ok(m, q));
            if q == p {
                assert forall|i: int| 0 <= i < n[p].subtasks.len() implies {
                    let c = #[trigger] n[p].subtasks[i];
                    n.contains_key(c) && c != TaskId::root() && parent_of(n, c) == p
                } by {
                    if i < m[p].subtasks.len() {
                        assert(n[p].subtasks[i] == m[p].subtasks[i]);
                    }
                }
                assert(n[p].subtasks.no_duplicates());
            } else {
                assert forall|i: int| 0 <= i < n[q].subtasks.len() implies {
                    let c = #[trigger] n[q].subtasks[i];
                    n.contains_key(c) && c != TaskId::root() && parent_of(n, c) == q
                } by {
                    assert(n[q].subtasks[i] == m[q].subtasks[i]);
                }
            }
        }
    }
}

/// An event whose parent is absent or not in the tree lands in the root's
/// buffer, behind the events already there, and nowhere else.
pub proof fn lemma_logged_at_root<T, E>(
    m: Map<TaskId, TaskState<T, E>>,
    rule: Retention,
    parent: Option<TaskId>,
    data: E,
)
    requires
        m.contains_key(TaskId::root()),
        parent.is_none() || !m.contains_key(parent.unwrap()),
    ensures
        logged(m, rule, parent, data)[TaskId::root()].events == m[TaskId::root()].events.push(
            data,
        ),
        forall|q: TaskId|
            q != TaskId::root() ==> (logged(m, rule, parent, data).contains_key(q)
                == m.contains_key(q)) && logged(m, rule, parent, data)[q] == m[q],
{
}

/// An event keeps the tree's invariants and leaves every buffer below the
/// root within the retention rule's bound.
pub proof fn lemma_logged<T, E>(
    m: Map<TaskId, TaskState<T, E>>,
    rule: Retention,
    parent: Option<TaskId>,
    data: E,
)
    requires
        well_formed(m),
    ensures
        well_formed(logged(m, rule, parent, data)),
        logged(m, rule, parent, data).dom() == m.dom(),
        within(m, rule) ==> within(logged(m, rule, parent, data), rule),
{
    let n = logged(m, rule, parent, data);
    let p = resolve(m, parent);
    assert(n.dom() =~= m.dom());
    lemma_same_shape(m, n);
    if within(m, rule) {
        if p != TaskId::root() {
            rule.lemma_retain_bounded(m[p].events, data);
        }
        assert forall|id: TaskId| #[trigger]
            n.contains_key(id) && id != TaskId::root() implies rule.admits(
            n[id].events.len(),
        ) by {
            if id == p {
            } else {
                assert(m.contains_key(id));
            }
        }
    }
}

/// Two trees over the same identities whose states agree on depth, parent,
/// payload presence and child sets, and whose roots carry no flag, share the
/// tree's invariants.
pub proof fn lemma_same_shape<T, E>(
    m: Map<TaskId, TaskState<T, E>>,
    n: Map<TaskId, TaskState<T, E>>,
)
    requires
        well_formed(m),
        n.dom() == m.dom(),
        !n[TaskId::root()].completed,
        !n[TaskId::root()].cancelled,
        forall|id: TaskId| #[trigger]
            m.contains_key(id) ==> n[id].depth == m[id].depth && n[id].parent == m[id].parent
                && n[id].data.is_some() == m[id].data.is_some() && n[id].subtasks
                == m[id].subtasks,
    ensures
        well_formed(n),
{
    assert forall|q: TaskId| #[trigger] n.contains_key(q) && q != TaskId::root() implies linked(
        n,
        q,
    ) by {
        assert(m.contains_key(q));
        assert(linked(m, q));
        assert(m.contains_key(parent_of(m, q)));
    }
    assert forall|q: TaskId| #[trigger] n.contains_key(q) implies children_ok(n, q) by {
        assert(m.contains_key(q));
        assert(children_ok(m, q));
        assert forall|i: int| 0 <= i < n[q].subtasks.len() implies {
            let c = #[trigger] n[q].subtasks[i];
            n.contains_key(c) && c != TaskId::root() && parent_of(n, c) == q
        } by {
            let c = m[q].subtasks[i];
            assert(m.contains_key(c));
        }
    }
    assert(m.contains_key(TaskId::root()));
}

/// Ending a task keeps the tree's invariants and every buffer's bound.
pub proof fn lemma_ended<T, E>(m: Map<TaskId, TaskState<T, E>>, id: TaskId)
    requires
        well_formed(m),
    ensures
        well_formed(ended(m, id)),
        ended(m, id).dom() == m.dom(),
        forall|rule: Retention| within(m, rule) ==> within(ended(m, id), rule),
{
    let n = ended(m, id);
    assert(n.dom() =~= m.dom());
    lemma_same_shape(m, n);
    assert forall|rule: Retention| within(m, rule) implies within(n, rule) by {
        assert forall|q: TaskId| #[trigger]
            n.contains_key(q) && q != TaskId::root() implies rule.admits(n[q].events.len()) by {
            assert(m.contains_key(q));
        }
    }
}

/// Cancelling every task keeps the tree's invariants and every buffer's
/// bound, and marks exactly the tasks other than the root.
pub proof fn lemma_cancelled_all<T, E>(m: Map<TaskId, TaskState<T, E>>)
    requires
        well_formed(m),
    ensures
        well_formed(cancelled_all(m)),
        cancelled_all(m).dom() == m.dom(),
        cancelled_set(cancelled_all(m)) == m.dom().remove(TaskId::root()),
        forall|rule: Retention| within(m, rule) ==> within(cancelled_all(m), rule),
{
    let n = cancelled_all(m);
    assert(n.dom() =~= m.dom());
    lemma_same_shape(m, n);
    assert(cancelled_set(n) =~= m.dom().remove(TaskId::root()));
    assert forall|rule: Retention| within(m, rule) implies within(n, rule) by {
        assert forall|q: TaskId| #[trigger]
            n.contains_key(q) && q != TaskId::root() implies rule.admits(n[q].events.len()) by {
            assert(m.contains_key(q));
        }
    }
}

/// Cancelling every task a second time changes nothing: the tree, and with
/// it the set of cancelled tasks, is what the first pass left.
pub proof fn lemma_cancel_idempotent<T, E>(m: Map<TaskId, TaskState<T, E>>)
    ensures
        cancelled_all(cancelled_all(m)) == cancelled_all(m),
        cancelled_set(cancelled_all(cancelled_all(m))) == cancelled_set(cancelled_all(m)),
{
    assert(cancelled_all(cancelled_all(m)) =~= cancelled_all(m));
}

/// A task stands in the child set of one task only, and there only once.
pub proof fn lemma_one_parent<T, E>(
    m: Map<TaskId, TaskState<T, E>>,
    p: TaskId,
    q: TaskId,
    i: int,
    j: int,
)
    requires
        well_formed(m),
        m.contains_key(p),
        m.contains_key(q),
        0 <= i < m[p].subtasks.len(),
        0 <= j < m[q].subtasks.len(),
        m[p].subtasks[i] == m[q].subtasks[j],
    ensures
        p == q,
        i == j,
{
    assert(children_ok(m, p));
    assert(children_ok(m, q));
}

} // verus!
