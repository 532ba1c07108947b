//! The order in which the standard traversal visits a task and what
//! stands below it.
use crate::model::{children_ok, well_formed, TaskState};
use crate::task::TaskId;
use crate::view::TaskView;
use vstd::prelude::*;

verus! {

/// One stop of the traversal: a task's line, or one buffered event of a
/// task, by its position in the buffer.
#[derive(Debug, Clone, Copy, PartialEq, Eq, Structural)]
pub enum Visit {
    Task(TaskId),
    Event(TaskId, usize),
}

/// The events shown with a task's line.
pub open spec fn shown() -> nat {
    3
}

/// The position of the oldest event that is shown of a buffer of `count`
/// events: the newest three are shown, or all where there are fewer.
pub open spec fn first_shown(count: nat) -> nat {
    if count <= shown() {
        0
    } else {
        (count - shown()) as nat
    }
}

/// The visits that a task itself gets: its line, then, unless it is
/// completed, its newest three events, oldest of them first.
pub open spec fn own_visits<T, E>(m: Map<TaskId, TaskState<T, E>>, id: TaskId) -> Seq<Visit> {
    let count = m[id].events.len();
    let first = first_shown(count);
    if m[id].completed {
        seq![Visit::Task(id)]
    } else {
        seq![Visit::Task(id)] + Seq::new(
            (count - first) as nat,
            |i: int| Visit::Event(id, (first + i) as usize),
        )
    }
}

/// The visits of the standard traversal of task `id`: the task's own, then
/// those of each child with all that stands below it, child by child in
/// the order of the child set.
pub open spec fn visits<T, E>(m: Map<TaskId, TaskState<T, E>>, id: TaskId) -> Seq<Visit>
    decreases usize::MAX - m[id].depth, 1nat, 0nat,
{
    own_visits(m, id) + visits_of(m, m[id].subtasks, m[id].depth)
}

/// The visits of the tasks of `s`, one after the other, where `s` holds
/// children of a task at depth `depth`.
pub open spec fn visits_of<T, E>(
    m: Map<TaskId, TaskState<T, E>>,
    s: Seq<TaskId>,
    depth: nat,
) -> Seq<Visit>
    decreases usize::MAX - depth, 0nat, s.len(),
{
    if s.len() == 0 {
        Seq::empty()
    } else if depth < usize::MAX && m[s.last()].depth == depth + 1 {
        visits_of(m, s.drop_last(), depth) + visits(m, s.last())
    } else {
        visits_of(m, s.drop_last(), depth)
    }
}

/// Whether a visit names a task of the tree other than the root, or an
/// event that such a task buffers.
pub open spec fn visit_ok<T, E>(m: Map<TaskId, TaskState<T, E>>, visit: Visit) -> bool {
    match visit {
        Visit::Task(id) => m.contains_key(id) && id != TaskId::root(),
        Visit::Event(id, index) => m.contains_key(id) && id != TaskId::root() && index
            < m[id].events.len(),
    }
}

impl<'a, T, E> TaskView<'a, T, E> {
    /// The visits of the standard traversal of the task, in order.
    pub fn visits(&self) -> (r: Vec<Visit>)
        requires
            self.valid(),
            self.task_id() != TaskId::root(),
        ensures
            r@ == visits(self.tree(), self.task_id()),
            forall|i: int| 0 <= i < r@.len() ==> visit_ok(self.tree(), #[trigger] r@[i]),
    {
        let mut out: Vec<Visit> = Vec::new();
        self.collect(&mut out);
        assert(out@ =~= visits(self.tree(), self.task_id()));
        out
    }

    /// Appends the visits of the standard traversal of the task.
    fn collect(&self, out: &mut Vec<Visit>)
        requires
            self.valid(),
            self.task_id() != TaskId::root(),
        ensures
            final(out)@ == old(out)@ + visits(self.tree(), self.task_id()),
            forall|i: int|
                old(out)@.len() <= i < final(out)@.len() ==> visit_ok(
                    self.tree(),
                    #[trigger] final(out)@[i],
                ),
        decreases usize::MAX - self.state().depth,
    {
        let ghost tree = self.tree();
        let ghost before = out@;
        let id = self.id();
        let depth = self.depth();
        proof {
            self.lemma_valid();
        }
        out.push(Visit::Task(id));
        if !self.completed() {
            let count = self.event_count();
            let first: usize = if count <= 3 {
                0
            } else {
                count - 3
            };
            let mut i: usize = first;
            while i < count
                invariant
                    self.valid(),
                    tree == self.tree(),
                    id == self.task_id(),
                    id != TaskId::root(),
                    tree.contains_key(id),
                    count == self.state().events.len(),
                    first == first_shown(count as nat),
                    first <= i <= count,
                    out@ == before + seq![Visit::Task(id)] + Seq::new(
                        (i - first) as nat,
                        |k: int| Visit::Event(id, (first + k) as usize),
                    ),
                    forall|k: int|
                        before.len() <= k < out@.len() ==> visit_ok(tree, #[trigger] out@[k]),
                decreases count - i,
            {
                let ghost shown = out@;
                out.push(Visit::Event(id, i));
                proof {
                    assert(out@ =~= before + seq![Visit::Task(id)] + Seq::new(
                        (i + 1 - first) as nat,
                        |k: int| Visit::Event(id, (first + k) as usize),
                    ));
                    assert forall|k: int| before.len() <= k < out@.len() implies visit_ok(
                        tree,
                        #[trigger] out@[k],
                    ) by {
                        if k < shown.len() {
                            assert(out@[k] == shown[k]);
                        } else {
                            assert(out@[k] == Visit::Event(id, i));
                        }
                    }
                }
                i += 1;
            }
        } else {
            assert(out@ =~= before + seq![Visit::Task(id)]);
        }
        assert(out@ == before + own_visits(tree, id));
        let kids = self.subtasks();
        let mut k: usize = 0;
        proof {
            assert(children_ok(tree, id));
            assert(tree[id].subtasks.take(0) =~= Seq::<TaskId>::empty());
            assert(out@ =~= before + own_visits(tree, id) + visits_of(
                tree,
                tree[id].subtasks.take(0),
                tree[id].depth,
            ));
        }
        while k < kids.len()
            invariant
                self.valid(),
                tree == self.tree(),
                id == self.task_id(),
                tree.contains_key(id),
                depth == tree[id].depth,
                well_formed(tree),
                kids@.len() == tree[id].subtasks.len(),
                k <= kids@.len(),
                forall|i: int|
                    0 <= i < kids@.len() ==> (#[trigger] kids@[i]).valid() && kids@[i].tree()
                        == tree && kids@[i].task_id() == tree[id].subtasks[i]
                        && kids@[i].task_id() != TaskId::root() && kids@[i].state().depth
                        == tree[id].depth + 1,
                out@ == before + own_visits(tree, id) + visits_of(
                    tree,
                    tree[id].subtasks.take(k as int),
                    tree[id].depth,
                ),
                forall|i: int|
                    before.len() <= i < out@.len() ==> visit_ok(tree, #[trigger] out@[i]),
            decreases kids@.len() - k,
        {
            let ghost drawn = out@;
            // the child's depth fits a `usize`, which bounds the recursion
            let _ = kids[k].depth();
            kids[k].collect(out);
            proof {
                let part = tree[id].subtasks.take(k + 1);
                assert(part.drop_last() =~= tree[id].subtasks.take(k as int));
                assert(part.last() == kids@[k as int].task_id());
                assert(out@ =~= before + own_visits(tree, id) + visits_of(
                    tree,
                    part,
                    tree[id].depth,
                ));
                assert forall|i: int| before.len() <= i < out@.len() implies visit_ok(
                    tree,
                    #[trigger] out@[i],
                ) by {
                    if i < drawn.len() {
                        assert(out@[i] == drawn[i]);
                    }
                }
            }
            k += 1;
        }
        proof {
            assert(tree[id].subtasks.take(kids@.len() as int) =~= tree[id].subtasks);
        }
    }
}

} // verus!
