//! A live, incrementally redrawn tree of tasks and their events for a
//! terminal.
//!
//! Actions build and change a tree of tasks; a render pass walks the tree,
//! hands each task to a [`Renderer`], and returns the bytes of one frame:
//! what erases the previous frame, what is printed for good, and what the
//! next frame will erase again.
use crate::draw::{gives, lemma_ok, lemma_walk_stops, nothing, walk, Drawn};
use crate::model::{cancelled_all, ended, logged, started, TaskState};
use crate::walk::{visit_ok, visits};
use vstd::prelude::*;

pub mod ansi;
pub mod clock;
pub mod draw;
pub mod generator;
pub mod laws;
pub mod model;
pub mod ordered;
pub mod prune;
pub mod retention;
pub mod runner;
pub mod task;
pub mod view;
pub mod walk;
pub mod widgets;
pub mod writer;

pub use crate::generator::IdGenerator;
pub use crate::retention::Retention;
pub use crate::runner::{ActionSource, Next, RenderLoop};
pub use crate::task::{Task, TaskId, TaskStore};
pub use crate::view::{EventView, FrameWriter, TaskView};
pub use crate::walk::Visit;
pub use crate::widgets::{ProgressBar, Spinner, TreeIndent};
pub use crate::writer::{Frame, TaskRenderer};

verus! {

/// Defines how tasks and events are rendered to the terminal.
///
/// Each frame, the task renderer calls the frame-start hook, hands every
/// root-level event to [`Renderer::render_event_line`] and every child of
/// the root to [`Renderer::render_task`], and calls the frame-end hook.
/// The standard traversal of `render_task` draws the task line, the newest
/// buffered events, and then the children; override it to change that.
///
/// What an implementation draws is named by its spec functions: `draws`
/// for a task line or an event line, `started` and `ended` for what the
/// hooks do to the renderer. Each method ensures that it does what those
/// functions say. The spec functions as they stand describe a renderer
/// that writes nothing, never fails and keeps no state.
pub trait Renderer: Sized {
    /// Data stored per event (e.g. a log message).
    type EventData: Send + 'static;

    /// Data stored per task (e.g. a task name).
    type TaskData: Send + 'static;

    /// The renderer as the frame-start hook leaves it.
    open spec fn started(&self) -> Self {
        *self
    }

    /// The renderer as the frame-end hook leaves it.
    open spec fn ended(&self) -> Self {
        *self
    }

    /// What this renderer draws at one visit of the tree `tree`: for a
    /// task, its line; for an event, the event's line.
    open spec fn draws(
        &self,
        tree: Map<TaskId, TaskState<Self::TaskData, Self::EventData>>,
        visit: Visit,
    ) -> Drawn<Self> {
        nothing(*self)
    }

    /// Whether the implementation keeps the standard [`Renderer::retention`],
    /// which names the newest three events.
    open spec fn standard_retention() -> bool {
        true
    }

    /// Whether the implementation keeps the standard traversal of
    /// [`Renderer::render_task`].
    open spec fn standard_traversal() -> bool {
        true
    }

    /// Called once at the start of each render frame, before any task is
    /// visited.
    fn on_render_start(&mut self)
        ensures
            *final(self) == old(self).started(),
    ;

    /// Called once at the end of each render frame, after all tasks have
    /// been visited.
    fn on_render_end(&mut self)
        ensures
            *final(self) == old(self).ended(),
    ;

    /// The retention rule for the event buffers of the tasks this renderer
    /// draws. The standard rule keeps the newest three events.
    fn retention(&self) -> (r: Retention)
        ensures
            Self::standard_retention() ==> r == Retention::Rolling(3),
    {
        Retention::standard()
    }

    /// Renders a complete task and its descendants.
    ///
    /// The standard traversal renders the task line, then the newest three
    /// buffered events, oldest of them first (none for a completed task),
    /// then each child in the order the children were started: the visits
    /// that [`TaskView::visits`] lists, in that order, up to the first that
    /// fails, whose failure is returned.
    fn render_task(
        &mut self,
        f: &mut FrameWriter,
        task: &TaskView<'_, Self::TaskData, Self::EventData>,
    ) -> (r: Result<(), std::io::Error>)
        requires
            task.valid(),
            task.task_id() != TaskId::root(),
        ensures
            Self::standard_traversal() ==> gives(
                *old(self),
                *old(f),
                *final(self),
                *final(f),
                r,
                walk(
                    |s: Self, v: Visit| s.draws(task.tree(), v),
                    *old(self),
                    visits(task.tree(), task.task_id()),
                ),
            ),
    {
        let steps = task.visits();
        let ghost tree = task.tree();
        let mut i: usize = 0;
        proof {
            task.lemma_valid();
            assert(steps@.take(0) =~= Seq::<Visit>::empty());
            assert(f.bytes() + Seq::<u8>::empty() =~= f.bytes());
        }
        while i < steps.len()
            invariant
                task.valid(),
                tree == task.tree(),
                steps@ == visits(tree, task.task_id()),
                i <= steps@.len(),
                forall|k: int| 0 <= k < steps@.len() ==> visit_ok(tree, #[trigger] steps@[k]),
                gives(
                    *old(self),
                    *old(f),
                    *self,
                    *f,
                    Ok(()),
                    walk(|s: Self, v: Visit| s.draws(tree, v), *old(self), steps@.take(i as int)),
                ),
            decreases steps@.len() - i,
        {
            let ghost so_far = walk(
                |s: Self, v: Visit| s.draws(tree, v),
                *old(self),
                steps@.take(i as int),
            );
            let done = match steps[i] {
                Visit::Task(id) => {
                    let at = task.view(id);
                    self.render_task_line(f, &at)
                },
                Visit::Event(id, index) => {
                    let at = task.view(id).event(index);
                    self.render_event_line(f, &at)
                },
            };
            proof {
                let next = steps@.take(i + 1);
                assert(next.drop_last() =~= steps@.take(i as int));
                assert(next.last() == steps@[i as int]);
                let one = so_far.next.draws(tree, steps@[i as int]);
                assert((old(f).bytes() + so_far.bytes) + one.bytes =~= old(f).bytes() + (
                so_far.bytes + one.bytes));
                if done.is_err() {
                    assert(next + steps@.skip(i + 1) =~= steps@);
                    lemma_walk_stops(
                        |s: Self, v: Visit| s.draws(tree, v),
                        *old(self),
                        next,
                        steps@.skip(i + 1),
                    );
                } else {
                    lemma_ok(done);
                }
            }
            match done {
                Ok(()) => {},
                Err(e) => {
                    return Err(e);
                },
            }
            i += 1;
        }
        proof {
            assert(steps@.take(steps@.len() as int) =~= steps@);
        }
        Ok(())
    }

    /// Renders the header line of a task.
    fn render_task_line(
        &mut self,
        f: &mut FrameWriter,
        task: &TaskView<'_, Self::TaskData, Self::EventData>,
    ) -> (r: Result<(), std::io::Error>)
        requires
            task.valid(),
            task.task_id() != TaskId::root(),
        ensures
            gives(
                *old(self),
                *old(f),
                *final(self),
                *final(f),
                r,
                old(self).draws(task.tree(), Visit::Task(task.task_id())),
            ),
    ;

    /// Renders a single buffered event.
    fn render_event_line(
        &mut self,
        f: &mut FrameWriter,
        event: &EventView<'_, Self::TaskData, Self::EventData>,
    ) -> (r: Result<(), std::io::Error>)
        requires
            event.valid(),
        ensures
            gives(
                *old(self),
                *old(f),
                *final(self),
                *final(f),
                r,
                old(self).draws(event.tree(), Visit::Event(event.owner(), event.place())),
            ),
    ;
}

/// A state change in the task tree.
#[allow(inconsistent_fields)]
#[derive(Debug, Clone)]
pub enum Action<R: Renderer> {
    /// A new event on an existing task (or the root if `parent` is `None`
    /// or refers to an unknown identity).
    Event { parent: Option<TaskId>, data: R::EventData },
    /// A new task has started.
    ///
    /// If `parent` is `None` or refers to an unknown identity, the task is
    /// attached to the virtual root.
    TaskStart { id: TaskId, parent: Option<TaskId>, data: R::TaskData },
    /// A task has completed.
    TaskEnd { id: TaskId },
    /// Mark all pending tasks as cancelled.
    CancelAll,
}

/// Whether the tree can take `action`: a task can only be started under an
/// identity that the tree does not hold.
pub open spec fn accepts<R: Renderer>(
    m: Map<TaskId, TaskState<R::TaskData, R::EventData>>,
    action: Action<R>,
) -> bool {
    match action {
        Action::TaskStart { id, parent, data } => !m.contains_key(id),
        _ => true,
    }
}

/// The tree after `action`, with `rule` as the retention rule.
pub open spec fn step<R: Renderer>(
    m: Map<TaskId, TaskState<R::TaskData, R::EventData>>,
    rule: Retention,
    action: Action<R>,
) -> Map<TaskId, TaskState<R::TaskData, R::EventData>> {
    match action {
        Action::Event { parent, data } => logged(m, rule, parent, data),
        Action::TaskStart { id, parent, data } => started(m, id, parent, data),
        Action::TaskEnd { id } => ended(m, id),
        Action::CancelAll => cancelled_all(m),
    }
}

} // verus!
