//! What a renderer is handed: a line-counting byte buffer to write to, and
//! read-only cursors over the task store.
use crate::ansi::{clear_sequence, count_newlines, lemma_count_bounded, push_clear_sequence};
use crate::model::{parent_of, TaskState};
use crate::task::{TaskId, TaskStore};
use std::time::Duration;
use vstd::string::StringSliceAdditionalSpecFns;
use vstd::prelude::*;

verus! {

/// `std::io::Error`, the failure a renderer callback may return. It is
/// carried to the caller of the render pass; nothing is read from it.
#[verifier::external_type_specification]
#[verifier::external_body]
pub struct ExIoError(std::io::Error);

/// Write target of one render pass.
///
/// The writer buffers what a renderer writes and counts the line breaks in
/// it. It also carries the number of lines that the previous frame left on
/// the terminal, until [`FrameWriter::clear_frame`] turns that number into
/// the bytes that erase them.
pub struct FrameWriter {
    buf: Vec<u8>,
    drawn: usize,
    frame_lines: usize,
}

impl FrameWriter {
    #[verifier::type_invariant]
    spec fn counted(self) -> bool {
        self.frame_lines == count_newlines(self.buf@)
    }

    /// The bytes written and not yet handed out.
    pub closed spec fn bytes(self) -> Seq<u8> {
        self.buf@
    }

    /// The lines of the previous frame that are still to be erased.
    pub closed spec fn pending(self) -> nat {
        self.drawn as nat
    }

    /// An empty writer for the frame that follows one of `frame_lines`
    /// lines.
    pub fn new(frame_lines: usize) -> (r: Self)
        ensures
            r.bytes() == Seq::<u8>::empty(),
            r.pending() == frame_lines,
    {
        FrameWriter { buf: Vec::new(), drawn: frame_lines, frame_lines: 0 }
    }

    /// Hands out what was written so far, followed by the bytes that erase
    /// the previous frame, and starts counting from zero. A previous frame
    /// without lines adds no bytes.
    pub fn clear_frame(&mut self) -> (out: Vec<u8>)
        ensures
            out@ == old(self).bytes() + clear_sequence(old(self).pending()),
            final(self).bytes() == Seq::<u8>::empty(),
            final(self).pending() == 0,
    {
        let mut taken = FrameWriter { buf: Vec::new(), drawn: 0, frame_lines: 0 };
        std::mem::swap(self, &mut taken);
        let FrameWriter { buf, drawn, frame_lines: _ } = taken;
        let mut out = buf;
        push_clear_sequence(&mut out, drawn);
        out
    }

    /// The number of line breaks written since the writer was made or last
    /// cleared.
    pub fn frame_lines(&self) -> (r: usize)
        ensures
            r == count_newlines(self.bytes()),
    {
        proof {
            use_type_invariant(self);
        }
        self.frame_lines
    }

    /// Appends `data` and counts its line breaks. Returns the number of
    /// bytes taken, which is all of them.
    pub fn write(&mut self, data: &[u8]) -> (n: usize)
        ensures
            n == data@.len(),
            final(self).bytes() == old(self).bytes() + data@,
            final(self).pending() == old(self).pending(),
    {
        let mut taken = FrameWriter { buf: Vec::new(), drawn: 0, frame_lines: 0 };
        std::mem::swap(self, &mut taken);
        proof {
            use_type_invariant(&taken);
        }
        let FrameWriter { buf, drawn, frame_lines } = taken;
        let mut buf = buf;
        let ghost before = buf@;
        let mut lines: usize = frame_lines;
        let mut i: usize = 0;
        while i < data.len()
            invariant
                i <= data@.len(),
                buf@ == before + data@.take(i as int),
                lines == count_newlines(buf@),
            decreases data@.len() - i,
        {
            let b = data[i];
            buf.push(b);
            proof {
                // no more line breaks than bytes, and the bytes fit a `usize`
                assert(buf.len() == buf@.len());
                assert(buf@.drop_last() =~= before + data@.take(i as int));
                assert(buf@ =~= before + data@.take(i + 1));
                lemma_count_bounded(buf@);
            }
            if b == 10u8 {
                lines = lines + 1;
            }
            i += 1;
        }
        assert(data@.take(data@.len() as int) =~= data@);
        *self = FrameWriter { buf, drawn, frame_lines: lines };
        data.len()
    }

    /// Appends the UTF-8 bytes of `s`.
    pub fn write_str(&mut self, s: &str)
        ensures
            final(self).bytes() == old(self).bytes() + s.spec_bytes(),
            final(self).pending() == old(self).pending(),
    {
        let _ = self.write(s.as_bytes());
    }

    /// The bytes written and not yet handed out.
    pub fn into_bytes(self) -> (out: Vec<u8>)
        ensures
            out@ == self.bytes(),
    {
        self.buf
    }
}

/// Read-only view of a task, passed to renderer callbacks.
#[derive(Clone, Copy)]
pub struct TaskView<'a, T, E> {
    id: TaskId,
    tasks: &'a TaskStore<T, E>,
}

impl<'a, T, E> TaskView<'a, T, E> {
    /// The identity the view looks at.
    pub closed spec fn task_id(&self) -> TaskId {
        self.id
    }

    /// The tree the view looks into.
    pub closed spec fn tree(&self) -> Map<TaskId, TaskState<T, E>> {
        self.tasks@
    }

    /// The state of the task the view looks at.
    pub open spec fn state(&self) -> TaskState<T, E> {
        self.tree()[self.task_id()]
    }

    /// Whether the view looks at a task of a store that keeps its
    /// invariant.
    pub closed spec fn valid(&self) -> bool {
        self.tasks.wf() && self.tasks@.contains_key(self.id)
    }

    /// What a valid view stands on.
    pub proof fn lemma_valid(&self)
        requires
            self.valid(),
        ensures
            crate::model::well_formed(self.tree()),
            self.tree().contains_key(self.task_id()),
    {
        self.tasks.lemma_wf();
    }

    /// Creates a view over the task with the given `id`.
    pub fn new(tasks: &'a TaskStore<T, E>, id: TaskId) -> (r: Self)
        ensures
            r.task_id() == id,
            r.tree() == tasks@,
            r.valid() == (tasks.wf() && tasks@.contains_key(id)),
    {
        Self { id, tasks }
    }

    /// Returns the identity of the task.
    pub fn id(&self) -> (r: TaskId)
        ensures
            r == self.task_id(),
    {
        self.id
    }

    /// Returns the user-defined data stored on the task.
    pub fn data(&self) -> (r: &T)
        requires
            self.valid(),
            self.task_id() != TaskId::root(),
        ensures
            Some(*r) == self.state().data,
    {
        proof {
            self.tasks.lemma_wf();
            assert(crate::model::linked(self.tasks@, self.id));
        }
        self.tasks.task(&self.id).data().unwrap()
    }

    /// Returns the nesting depth of the task (root children are depth 1).
    pub fn depth(&self) -> (r: usize)
        requires
            self.valid(),
        ensures
            r == self.state().depth,
    {
        self.tasks.task(&self.id).depth()
    }

    /// How long since the task started.
    pub fn elapsed(&self) -> Duration
        requires
            self.valid(),
    {
        self.tasks.task(&self.id).elapsed()
    }

    /// Returns `true` if the task is active (not completed or cancelled).
    pub fn active(&self) -> (r: bool)
        requires
            self.valid(),
        ensures
            r == !self.state().done(),
    {
        !self.completed() && !self.cancelled()
    }

    /// Returns `true` if the task has ended.
    pub fn completed(&self) -> (r: bool)
        requires
            self.valid(),
        ensures
            r == self.state().completed,
    {
        self.tasks.task(&self.id).completed()
    }

    /// Returns `true` if the task was marked cancelled.
    pub fn cancelled(&self) -> (r: bool)
        requires
            self.valid(),
        ensures
            r == self.state().cancelled,
    {
        self.tasks.task(&self.id).cancelled()
    }

    /// Returns the parent task, or `None` for root-level tasks and for the
    /// root.
    pub fn parent<'b>(&'b self) -> (r: Option<TaskView<'b, T, E>>)
        requires
            self.valid(),
        ensures
            r.is_some() == self.state().parent.is_some(),
            r.is_some() ==> r.unwrap().valid() && r.unwrap().tree() == self.tree() && Some(
                r.unwrap().task_id(),
            ) == self.state().parent,
    {
        proof {
            self.tasks.lemma_wf();
            if self.id != TaskId::root() {
                assert(crate::model::linked(self.tasks@, self.id));
            }
        }
        match self.tasks.task(&self.id).parent() {
            Some(p) => Some(TaskView::new(self.tasks, p)),
            None => None,
        }
    }

    /// Returns the task's buffered events, oldest first.
    pub fn events<'b>(&'b self) -> (r: Vec<EventView<'b, T, E>>)
        requires
            self.valid(),
        ensures
            r@.len() == self.state().events.len(),
            forall|i: int|
                0 <= i < r@.len() ==> (#[trigger] r@[i]).valid() && r@[i].tree() == self.tree()
                    && r@[i].owner() == self.task_id() && r@[i].position() == i,
    {
        let count = self.tasks.task(&self.id).events().len();
        self.recent_events(count)
    }

    /// Returns the newest `limit` buffered events, oldest of them first;
    /// all of them where the task has fewer.
    pub fn recent_events<'b>(&'b self, limit: usize) -> (r: Vec<EventView<'b, T, E>>)
        requires
            self.valid(),
        ensures
            r@.len() == if self.state().events.len() <= limit {
                self.state().events.len()
            } else {
                limit as nat
            },
            forall|i: int|
                0 <= i < r@.len() ==> (#[trigger] r@[i]).valid() && r@[i].tree() == self.tree()
                    && r@[i].owner() == self.task_id() && r@[i].position()
                    == self.state().events.len() - r@.len() + i,
    {
        let count = self.tasks.task(&self.id).events().len();
        let first = if count <= limit {
            0
        } else {
            count - limit
        };
        let mut out: Vec<EventView<'b, T, E>> = Vec::new();
        let mut i: usize = first;
        while i < count
            invariant
                self.valid(),
                count == self.state().events.len(),
                first <= i <= count,
                out@.len() == i - first,
                forall|k: int|
                    0 <= k < out@.len() ==> (#[trigger] out@[k]).valid() && out@[k].tree()
                        == self.tree() && out@[k].owner() == self.task_id() && out@[k].position()
                        == first + k,
            decreases count - i,
        {
            out.push(EventView::new(self.tasks, self.id, i));
            i += 1;
        }
        out
    }

    /// Returns the task's direct children, in the order they were started.
    pub fn subtasks<'b>(&'b self) -> (r: Vec<TaskView<'b, T, E>>)
        requires
            self.valid(),
        ensures
            r@.len() == self.state().subtasks.len(),
            forall|i: int|
                0 <= i < r@.len() ==> (#[trigger] r@[i]).valid() && r@[i].tree() == self.tree()
                    && r@[i].task_id() == self.state().subtasks[i] && r@[i].task_id()
                    != TaskId::root() && r@[i].state().depth == self.state().depth + 1,
    {
        let task = self.tasks.task(&self.id);
        let count = task.subtask_count();
        let mut out: Vec<TaskView<'b, T, E>> = Vec::new();
        let mut i: usize = 0;
        proof {
            self.tasks.lemma_wf();
            assert(crate::model::children_ok(self.tasks@, self.id));
        }
        while i < count
            invariant
                self.valid(),
                task.state() == self.state(),
                crate::model::children_ok(self.tree(), self.task_id()),
                count == self.state().subtasks.len(),
                i <= count,
                out@.len() == i,
                forall|k: int|
                    0 <= k < i ==> (#[trigger] out@[k]).valid() && out@[k].tree() == self.tree()
                        && out@[k].task_id() == self.state().subtasks[k] && out@[k].task_id()
                        != TaskId::root() && out@[k].state().depth == self.state().depth + 1,
            decreases count - i,
        {
            let child = task.subtask(i);
            proof {
                let c = self.state().subtasks[i as int];
                assert(self.tree().contains_key(c));
                self.tasks.lemma_wf();
                assert(crate::model::linked(self.tree(), c));
            }
            out.push(TaskView::new(self.tasks, child));
            i += 1;
        }
        out
    }

    /// Returns the number of the task's buffered events.
    pub fn event_count(&self) -> (r: usize)
        requires
            self.valid(),
        ensures
            r == self.state().events.len(),
    {
        self.tasks.task(&self.id).events().len()
    }

    /// Returns the buffered event at position `index`, counted from the
    /// oldest.
    pub fn event(&self, index: usize) -> (r: EventView<'a, T, E>)
        ensures
            r.owner() == self.task_id(),
            r.position() == index,
            r.place() == index,
            r.tree() == self.tree(),
            self.valid() && index < self.state().events.len() ==> r.valid(),
    {
        EventView::new(self.tasks, self.id, index)
    }

    /// Returns the number of the task's direct children.
    pub fn subtask_count(&self) -> (r: usize)
        requires
            self.valid(),
        ensures
            r == self.state().subtasks.len(),
    {
        self.tasks.task(&self.id).subtask_count()
    }

    /// Returns the position of the task among its parent's children.
    pub fn index(&self) -> (r: usize)
        requires
            self.valid(),
            self.task_id() != TaskId::root(),
        ensures
            r < self.tree()[parent_of(self.tree(), self.task_id())].subtasks.len(),
            self.tree()[parent_of(self.tree(), self.task_id())].subtasks[r as int]
                == self.task_id(),
    {
        proof {
            self.tasks.lemma_wf();
            assert(crate::model::linked(self.tasks@, self.id));
        }
        let parent = match self.tasks.task(&self.id).parent() {
            Some(p) => p,
            None => TaskId::root(),
        };
        let found = self.tasks.task(&parent).subtask_index(self.id);
        found.unwrap()
    }

    /// Create a view of another task in the same tree.
    pub fn view(&self, id: TaskId) -> (r: TaskView<'a, T, E>)
        ensures
            r.task_id() == id,
            r.tree() == self.tree(),
            self.valid() && self.tree().contains_key(id) ==> r.valid(),
    {
        TaskView::new(self.tasks, id)
    }
}

/// Read-only view of a buffered event, passed to renderer callbacks.
pub struct EventView<'a, T, E> {
    tasks: &'a TaskStore<T, E>,
    task: TaskId,
    index: usize,
}

impl<'a, T, E> EventView<'a, T, E> {
    /// The task that buffers the event.
    pub closed spec fn owner(&self) -> TaskId {
        self.task
    }

    /// The event's position in the buffer, counted from the oldest.
    pub closed spec fn position(&self) -> int {
        self.index as int
    }

    /// The event's position in the buffer, as a machine integer.
    pub closed spec fn place(&self) -> usize {
        self.index
    }

    /// The tree the view looks into.
    pub closed spec fn tree(&self) -> Map<TaskId, TaskState<T, E>> {
        self.tasks@
    }

    /// Whether the view looks at an event that a task of a store that
    /// keeps its invariant buffers.
    pub closed spec fn valid(&self) -> bool {
        &&& self.tasks.wf()
        &&& self.tasks@.contains_key(self.task)
        &&& self.index < self.tasks@[self.task].events.len()
    }

    /// Creates a view over the event at position `index` of the buffer of
    /// task `task`.
    pub fn new(tasks: &'a TaskStore<T, E>, task: TaskId, index: usize) -> (r: Self)
        ensures
            r.owner() == task,
            r.position() == index,
            r.place() == index,
            r.tree() == tasks@,
            r.valid() == (tasks.wf() && tasks@.contains_key(task) && index
                < tasks@[task].events.len()),
    {
        Self { tasks, task, index }
    }

    /// Returns `true` if this event belongs to the virtual root task.
    pub fn is_root(&self) -> (r: bool)
        ensures
            r == (self.owner() == TaskId::root()),
    {
        self.task.is_root()
    }

    /// Returns the user-defined data stored on this event.
    pub fn data(&self) -> (r: &E)
        requires
            self.valid(),
        ensures
            *r == self.tree()[self.owner()].events[self.position()],
    {
        &self.tasks.task(&self.task).events()[self.index]
    }

    /// Returns the nesting depth of the owning task.
    pub fn depth(&self) -> (r: usize)
        requires
            self.valid(),
        ensures
            r == self.tree()[self.owner()].depth,
    {
        self.tasks.task(&self.task).depth()
    }

    /// Returns the view of the owning task.
    pub fn task<'b>(&'b self) -> (r: TaskView<'b, T, E>)
        ensures
            r.task_id() == self.owner(),
            r.tree() == self.tree(),
            self.valid() ==> r.valid(),
    {
        TaskView::new(self.tasks, self.task)
    }
}

} // verus!
