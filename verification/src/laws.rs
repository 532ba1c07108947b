//! What holds of the task tree after any run of actions.
use crate::model::{
    children_ok, initial, lemma_cancelled_all, lemma_ended, lemma_logged, lemma_started, parent_of,
    resolve, well_formed, within, TaskState,
};
use crate::retention::Retention;
use crate::task::TaskId;
use crate::{accepts, step, Action, Renderer};
use vstd::prelude::*;

verus! {

/// The tree after the actions of `actions` were applied, first to last.
pub open spec fn run<R: Renderer>(
    m: Map<TaskId, TaskState<R::TaskData, R::EventData>>,
    rule: Retention,
    actions: Seq<Action<R>>,
) -> Map<TaskId, TaskState<R::TaskData, R::EventData>>
    decreases actions.len(),
{
    if actions.len() == 0 {
        m
    } else {
        step(run(m, rule, actions.drop_last()), rule, actions.last())
    }
}

/// Whether the tree can take the actions of `actions` one after the other:
/// no task is started under an identity that the tree holds at that point.
pub open spec fn runnable<R: Renderer>(
    m: Map<TaskId, TaskState<R::TaskData, R::EventData>>,
    rule: Retention,
    actions: Seq<Action<R>>,
) -> bool
    decreases actions.len(),
{
    actions.len() == 0 || (runnable(m, rule, actions.drop_last()) && accepts(
        run(m, rule, actions.drop_last()),
        actions.last(),
    ))
}

/// Whether `after` is what some run of actions that the tree can take
/// makes of `before`.
pub open spec fn reached<R: Renderer>(
    before: Map<TaskId, TaskState<R::TaskData, R::EventData>>,
    rule: Retention,
    after: Map<TaskId, TaskState<R::TaskData, R::EventData>>,
) -> bool {
    exists|actions: Seq<Action<R>>| #[trigger]
        runnable(before, rule, actions) && after == run(before, rule, actions)
}

/// One action keeps the tree's invariants and every buffer's bound.
pub proof fn lemma_step<R: Renderer>(
    m: Map<TaskId, TaskState<R::TaskData, R::EventData>>,
    rule: Retention,
    action: Action<R>,
)
    requires
        well_formed(m),
        within(m, rule),
        accepts(m, action),
    ensures
        well_formed(step(m, rule, action)),
        within(step(m, rule, action), rule),
{
    match action {
        Action::Event { parent, data } => {
            lemma_logged(m, rule, parent, data);
        },
        Action::TaskStart { id, parent, data } => {
            lemma_started(m, id, parent, data);
            let n = step(m, rule, action);
            assert forall|k: TaskId| #[trigger]
                n.contains_key(k) && k != TaskId::root() implies rule.admits(
                n[k].events.len(),
            ) by {
                if k != id {
                    assert(m.contains_key(k));
                }
            }
        },
        Action::TaskEnd { id } => {
            lemma_ended(m, id);
        },
        Action::CancelAll => {
            lemma_cancelled_all(m);
        },
    }
}

/// After any run of actions on a tree that held only the root, the tree
/// keeps its invariants: one root without payload or flags, every other
/// task one level below its parent and listed once by it and by no other
/// task, and every buffer below the root within the retention rule's bound.
pub proof fn lemma_run<R: Renderer>(rule: Retention, actions: Seq<Action<R>>)
    requires
        runnable(initial::<R::TaskData, R::EventData>(), rule, actions),
    ensures
        well_formed(run(initial::<R::TaskData, R::EventData>(), rule, actions)),
        within(run(initial::<R::TaskData, R::EventData>(), rule, actions), rule),
    decreases actions.len(),
{
    let start = initial::<R::TaskData, R::EventData>();
    if actions.len() == 0 {
        assert(children_ok(start, TaskId::root()));
        assert(start.dom() =~= set![TaskId::root()]);
    } else {
        lemma_run::<R>(rule, actions.drop_last());
        lemma_step(run(start, rule, actions.drop_last()), rule, actions.last());
    }
}

/// After any run of actions, starting a task under a parent that the tree
/// holds puts the task exactly once into that parent's child set, one level
/// below the parent.
pub proof fn lemma_start_after_run<R: Renderer>(
    rule: Retention,
    actions: Seq<Action<R>>,
    id: TaskId,
    parent: TaskId,
    data: R::TaskData,
)
    requires
        runnable(initial::<R::TaskData, R::EventData>(), rule, actions),
        run(initial::<R::TaskData, R::EventData>(), rule, actions).contains_key(parent),
        !run(initial::<R::TaskData, R::EventData>(), rule, actions).contains_key(id),
    ensures
        ({
            let before = run(initial::<R::TaskData, R::EventData>(), rule, actions);
            let after = step(before, rule, Action::<R>::TaskStart { id, parent: Some(parent), data });
            &&& after[parent].subtasks.contains(id)
            &&& after[parent].subtasks.no_duplicates()
            &&& after[id].depth == after[parent].depth + 1
            &&& parent_of(after, id) == parent
            &&& forall|q: TaskId|
                after.contains_key(q) && q != parent ==> !after[q].subtasks.contains(id)
        }),
{
    let before = run(initial::<R::TaskData, R::EventData>(), rule, actions);
    lemma_run::<R>(rule, actions);
    lemma_started(before, id, Some(parent), data);
    assert(resolve(before, Some(parent)) == parent);
}

/// After any run of actions, an event whose parent is absent or unknown is
/// attributed to the root: it stands last in the root's buffer, and no
/// other task's state changes.
pub proof fn lemma_event_after_run<R: Renderer>(
    rule: Retention,
    actions: Seq<Action<R>>,
    parent: Option<TaskId>,
    data: R::EventData,
)
    requires
        runnable(initial::<R::TaskData, R::EventData>(), rule, actions),
        parent.is_none() || !run(
            initial::<R::TaskData, R::EventData>(),
            rule,
            actions,
        ).contains_key(parent.unwrap()),
    ensures
        ({
            let before = run(initial::<R::TaskData, R::EventData>(), rule, actions);
            let after = step(before, rule, Action::<R>::Event { parent, data });
            &&& after[TaskId::root()].events == before[TaskId::root()].events.push(data)
            &&& after.dom() == before.dom()
            &&& forall|q: TaskId| q != TaskId::root() ==> after[q] == before[q]
        }),
{
    let before = run(initial::<R::TaskData, R::EventData>(), rule, actions);
    lemma_run::<R>(rule, actions);
    let after = step(before, rule, Action::<R>::Event { parent, data });
    assert(after.dom() =~= before.dom());
}

} // verus!
