//! The task renderer: it owns the task store and a renderer, applies
//! actions, and produces one frame per render pass.
use crate::ansi::{clear_sequence, count_newlines};
use crate::model::{initial, TaskState};
use crate::prune::{
    doomed_set, flushed, lemma_doomed_flushed, lemma_pruned_root, lemma_settled,
    lemma_settled_flushed, pruned, settled,
};
use crate::retention::Retention;
use crate::task::{TaskId, TaskStore};
use crate::view::{EventView, FrameWriter, TaskView};
use crate::draw::{
    gives, joined, lemma_ok, lemma_walk_joined, lemma_walk_silent, lemma_walk_stops, nothing, walk,
    Drawn,
};
use crate::model::children_ok;
use crate::walk::{visits, Visit};
use crate::{accepts, step, Action, Renderer};
use vstd::prelude::*;

verus! {

/// The bytes of one render pass, in the order they go to the terminal.
pub struct Frame {
    /// Erases the live region that the previous pass drew.
    pub clear: Vec<u8>,
    /// Printed once and never erased: root-level events, and the root's
    /// children that were completed or cancelled.
    pub flushed: Vec<u8>,
    /// The live region: every task still open. The next pass erases it.
    pub active: Vec<u8>,
}

impl Frame {
    /// Whether the frame keeps the line accounts between a pass that found
    /// `before` lines in the live region and left `after`: it erases
    /// exactly `before` lines, and its live region has `after` line breaks.
    pub open spec fn accounts(self, before: nat, after: nat) -> bool {
        &&& self.clear@ == clear_sequence(before)
        &&& after == count_newlines(self.active@)
    }
}

/// Line accounting from one frame to the next: whatever the second pass
/// draws, it starts by erasing exactly as many lines as the live region of
/// the first pass holds line breaks, and by emitting nothing if that region
/// holds none.
pub proof fn lemma_frame_round_trip(first: Frame, second: Frame, before: nat, between: nat, after: nat)
    requires
        first.accounts(before, between),
        second.accounts(between, after),
    ensures
        second.clear@ == clear_sequence(count_newlines(first.active@)),
        count_newlines(first.active@) == 0 ==> second.clear@ == Seq::<u8>::empty(),
{
}

/// The step of a walk through the tree `tree`: what a renderer draws at
/// one visit.
pub open spec fn drawer<R: Renderer>(
    tree: Map<TaskId, TaskState<R::TaskData, R::EventData>>,
) -> spec_fn(R, Visit) -> Drawn<R> {
    |s: R, v: Visit| s.draws(tree, v)
}

/// The visits of the first `count` events of the root's buffer, oldest
/// first.
pub open spec fn root_events(count: nat) -> Seq<Visit> {
    Seq::new(count, |i: int| Visit::Event(TaskId::root(), i as usize))
}

/// The visits of the standard traversal of each task of `ids`, one task
/// after the other.
pub open spec fn visits_each<T, E>(m: Map<TaskId, TaskState<T, E>>, ids: Seq<TaskId>) -> Seq<Visit>
    decreases ids.len(),
{
    if ids.len() == 0 {
        Seq::empty()
    } else {
        visits_each(m, ids.drop_last()) + visits(m, ids.last())
    }
}

/// The visits of two runs of tasks are those of the one, then those of the
/// other.
pub proof fn lemma_visits_each<T, E>(m: Map<TaskId, TaskState<T, E>>, a: Seq<TaskId>, b: Seq<TaskId>)
    ensures
        visits_each(m, a + b) == visits_each(m, a) + visits_each(m, b),
    decreases b.len(),
{
    if b.len() == 0 {
        assert(a + b =~= a);
        assert(visits_each(m, a) + Seq::<Visit>::empty() =~= visits_each(m, a));
    } else {
        assert((a + b).drop_last() =~= a + b.drop_last());
        assert((a + b).last() == b.last());
        lemma_visits_each(m, a, b.drop_last());
        assert((visits_each(m, a) + visits_each(m, b.drop_last())) + visits(m, b.last())
            =~= visits_each(m, a) + (visits_each(m, b.drop_last()) + visits(m, b.last())));
    }
}

/// What renderer `r` draws for the root's events, in the order they
/// arrived.
pub open spec fn draw_root_events<R: Renderer>(
    r: R,
    tree: Map<TaskId, TaskState<R::TaskData, R::EventData>>,
) -> Drawn<R> {
    walk(drawer::<R>(tree), r, root_events(tree[TaskId::root()].events.len()))
}

/// What renderer `r` draws, by the standard traversal, for the tasks of
/// `ids` one after the other.
pub open spec fn draw_tasks<R: Renderer>(
    r: R,
    tree: Map<TaskId, TaskState<R::TaskData, R::EventData>>,
    ids: Seq<TaskId>,
) -> Drawn<R> {
    walk(drawer::<R>(tree), r, visits_each(tree, ids))
}

/// The result of a pass that hands back a value, without the value.
pub open spec fn settled_result<V>(out: Result<V, std::io::Error>) -> Result<(), std::io::Error> {
    match out {
        Ok(_) => Ok(()),
        Err(e) => Err(e),
    }
}

/// The outcome of the flush pass: what was drawn, and the tree it left.
pub struct Flush<R: Renderer> {
    pub drawn: Drawn<R>,
    pub tree: Map<TaskId, TaskState<R::TaskData, R::EventData>>,
}

/// The flush pass of a renderer that keeps the standard traversal.
///
/// The root's events are drawn in the order they arrived, and the root's
/// buffer is emptied. Then the root's completed or cancelled children are
/// drawn, in their order, each with all that stands below it, and the tree
/// is pruned. A failure ends the pass where it occurs: a failed event
/// leaves the tree as it was, a failed task leaves it without the root's
/// events.
pub open spec fn flush<R: Renderer>(
    r: R,
    tree: Map<TaskId, TaskState<R::TaskData, R::EventData>>,
) -> Flush<R> {
    let events = draw_root_events(r, tree);
    if events.result.is_err() {
        Flush { drawn: events, tree }
    } else {
        let emptied = flushed(tree);
        let done = draw_tasks(
            events.next,
            emptied,
            settled(emptied, emptied[TaskId::root()].subtasks, true),
        );
        Flush {
            drawn: joined(events, done),
            tree: if done.result.is_err() {
                emptied
            } else {
                pruned(tree)
            },
        }
    }
}

/// The outcome of one render pass: the three regions of the frame, the
/// renderer and the tree as they are left, the line count recorded for the
/// next pass, and the result.
pub struct Pass<R: Renderer> {
    pub clear: Seq<u8>,
    pub flushed: Seq<u8>,
    pub active: Seq<u8>,
    pub next: R,
    pub tree: Map<TaskId, TaskState<R::TaskData, R::EventData>>,
    pub drawn: nat,
    pub result: Result<(), std::io::Error>,
}

/// One render pass of a renderer `r` that keeps the standard traversal,
/// on a tree `tree` with `drawn` lines in the live region.
///
/// The frame-start hook runs first. The clear bytes erase `drawn` lines.
/// The flush pass fills the flushed region. The children that the pruned
/// root keeps are then drawn into the live region, in their order, each
/// with all that stands below it; the line breaks of that region are the
/// new line count, which the flushed region does not touch; and the
/// frame-end hook runs last. A failure ends the pass where it occurs,
/// before the frame-end hook, with the line count as it was.
pub open spec fn pass<R: Renderer>(
    r: R,
    tree: Map<TaskId, TaskState<R::TaskData, R::EventData>>,
    drawn: nat,
) -> Pass<R> {
    let fl = flush(r.started(), tree);
    if fl.drawn.result.is_err() {
        Pass {
            clear: clear_sequence(drawn),
            flushed: fl.drawn.bytes,
            active: Seq::empty(),
            next: fl.drawn.next,
            tree: fl.tree,
            drawn,
            result: fl.drawn.result,
        }
    } else {
        let live = draw_tasks(fl.drawn.next, fl.tree, fl.tree[TaskId::root()].subtasks);
        if live.result.is_err() {
            Pass {
                clear: clear_sequence(drawn),
                flushed: fl.drawn.bytes,
                active: live.bytes,
                next: live.next,
                tree: fl.tree,
                drawn,
                result: live.result,
            }
        } else {
            Pass {
                clear: clear_sequence(drawn),
                flushed: fl.drawn.bytes,
                active: live.bytes,
                next: live.next.ended(),
                tree: fl.tree,
                drawn: count_newlines(live.bytes),
                result: Ok(()),
            }
        }
    }
}

/// A renderer that draws nothing at any visit, and whose hooks leave it as
/// it is, makes every pass succeed with an empty flushed region and an
/// empty live region; the tree is pruned and no line is recorded.
pub proof fn lemma_pass_silent<R: Renderer>(
    r: R,
    tree: Map<TaskId, TaskState<R::TaskData, R::EventData>>,
    drawn: nat,
)
    requires
        forall|s: R, t: Map<TaskId, TaskState<R::TaskData, R::EventData>>, v: Visit| #[trigger]
            s.draws(t, v) == nothing(s),
        forall|s: R| #[trigger] s.started() == s,
        forall|s: R| #[trigger] s.ended() == s,
    ensures
        pass(r, tree, drawn) == (Pass {
            clear: clear_sequence(drawn),
            flushed: Seq::empty(),
            active: Seq::empty(),
            next: r,
            tree: pruned(tree),
            drawn: 0,
            result: Ok(()),
        }),
{
    let root = TaskId::root();
    assert(r.started() == r);
    lemma_walk_silent(drawer::<R>(tree), r, root_events(tree[root].events.len()));
    let emptied = flushed(tree);
    lemma_walk_silent(
        drawer::<R>(emptied),
        r,
        visits_each(emptied, settled(emptied, emptied[root].subtasks, true)),
    );
    let kept = pruned(tree);
    lemma_walk_silent(drawer::<R>(kept), r, visits_each(kept, kept[root].subtasks));
    assert(r.ended() == r);
    assert(Seq::<u8>::empty() + Seq::<u8>::empty() =~= Seq::<u8>::empty());
}

/// Receives [`Action`]s, manages the task tree, and drives rendering.
pub struct TaskRenderer<R: Renderer> {
    tasks: TaskStore<R::TaskData, R::EventData>,
    frame_lines: usize,
    r: R,
}

impl<R: Renderer + Clone> Clone for TaskRenderer<R> where
    R::TaskData: Clone,
    R::EventData: Clone,
 {
    /// A task renderer over a clone of the tree, with the same line count.
    fn clone(&self) -> (out: Self)
        ensures
            out.drawn() == self.drawn(),
            out.rule() == self.rule(),
            self.wf() ==> out.wf() && out.tree().dom() == self.tree().dom() && forall|id: TaskId|
                #[trigger] self.tree().contains_key(id) ==> self.tree()[id].resembles(
                    out.tree()[id],
                ),
    {
        Self { tasks: self.tasks.clone(), frame_lines: self.frame_lines, r: self.r.clone() }
    }
}

impl<R: Renderer + Default> Default for TaskRenderer<R> {
    fn default() -> (out: Self)
        ensures
            out.wf(),
            out.tree() == initial::<R::TaskData, R::EventData>(),
            out.drawn() == 0,
    {
        Self::new(R::default())
    }
}

impl<R: Renderer> TaskRenderer<R> {
    /// The task tree.
    pub closed spec fn tree(&self) -> Map<TaskId, TaskState<R::TaskData, R::EventData>> {
        self.tasks@
    }

    /// The number of lines that the last render pass left in the live
    /// region.
    pub closed spec fn drawn(&self) -> nat {
        self.frame_lines as nat
    }

    /// The retention rule applied to events.
    pub closed spec fn rule(&self) -> Retention {
        self.tasks.rule()
    }

    /// Whether the task store keeps its invariant.
    pub closed spec fn wf(&self) -> bool {
        self.tasks.wf()
    }

    /// The renderer that draws, as it stands.
    pub closed spec fn renderer(&self) -> R {
        self.r
    }

    /// Whether the task renderer in this state, `frame` and `result` are
    /// what one render pass may leave of a tree `tree` with `drawn` lines
    /// in the live region, whatever the renderer draws.
    ///
    /// The frame erases exactly `drawn` lines. After a pass that succeeds,
    /// as many lines are recorded for the next pass as the live region has
    /// line breaks, and the tree is pruned. A failed pass leaves the line
    /// count as it was and the tree as far as the pass came: as it was, or
    /// without the root's events, or pruned. A tree whose root has neither
    /// events nor children makes the pass succeed.
    pub open spec fn follows(
        self,
        tree: Map<TaskId, TaskState<R::TaskData, R::EventData>>,
        drawn: nat,
        frame: Frame,
        result: Result<(), std::io::Error>,
    ) -> bool {
        &&& frame.clear@ == clear_sequence(drawn)
        &&& match result {
            Ok(_) => self.drawn() == count_newlines(frame.active@) && self.tree() == pruned(tree),
            Err(_) => self.drawn() == drawn && (self.tree() == tree || self.tree() == flushed(tree)
                || self.tree() == pruned(tree)),
        }
        &&& tree[TaskId::root()].events.len() == 0 && tree[TaskId::root()].subtasks.len() == 0
            ==> result.is_ok()
    }

    /// Whether the task renderer in this state, `frame` and `result` are
    /// the outcome `pass` of a render pass.
    pub open spec fn passed(self, pass: Pass<R>, frame: Frame, result: Result<(), std::io::Error>) -> bool {
        &&& frame.clear@ == pass.clear
        &&& frame.flushed@ == pass.flushed
        &&& frame.active@ == pass.active
        &&& self.renderer() == pass.next
        &&& self.tree() == pass.tree
        &&& self.drawn() == pass.drawn
        &&& result == pass.result
    }

    /// What the invariant says of the tree.
    pub proof fn lemma_wf(&self)
        requires
            self.wf(),
        ensures
            crate::model::well_formed(self.tree()),
            crate::model::within(self.tree(), self.rule()),
    {
        self.tasks.lemma_wf();
    }

    /// Creates a new [`TaskRenderer`] with the given [`Renderer`]
    /// implementation. The tree holds only the root, and events are kept
    /// under the rule that the renderer's `retention` names.
    pub fn new(renderer: R) -> (out: Self)
        ensures
            out.wf(),
            out.tree() == initial::<R::TaskData, R::EventData>(),
            out.drawn() == 0,
            out.renderer() == renderer,
            R::standard_retention() ==> out.rule() == Retention::Rolling(3),
    {
        let rule = renderer.retention();
        Self::with_retention(renderer, rule)
    }

    /// Creates a new [`TaskRenderer`] that keeps events under `rule`,
    /// whatever rule the renderer names. The tree holds only the root.
    pub fn with_retention(renderer: R, rule: Retention) -> (out: Self)
        ensures
            out.wf(),
            out.tree() == initial::<R::TaskData, R::EventData>(),
            out.drawn() == 0,
            out.rule() == rule,
            out.renderer() == renderer,
    {
        Self { tasks: TaskStore::with_retention(rule), frame_lines: 0, r: renderer }
    }

    /// The task store, for reading.
    pub fn tasks(&self) -> (out: &TaskStore<R::TaskData, R::EventData>)
        ensures
            out@ == self.tree(),
            out.wf() == self.wf(),
            out.rule() == self.rule(),
    {
        &self.tasks
    }

    /// The number of lines that the last render pass left in the live
    /// region.
    pub fn frame_lines(&self) -> (out: usize)
        ensures
            out == self.drawn(),
    {
        self.frame_lines
    }

    /// Applies a single [`Action`] to the task tree.
    pub fn update(&mut self, action: Action<R>)
        requires
            old(self).wf(),
            accepts(old(self).tree(), action),
        ensures
            final(self).wf(),
            final(self).rule() == old(self).rule(),
            final(self).drawn() == old(self).drawn(),
            final(self).renderer() == old(self).renderer(),
            final(self).tree() == step(old(self).tree(), old(self).rule(), action),
    {
        self.tasks.apply(action);
    }

    /// Renders the current task tree into one frame.
    ///
    /// The pass calls the frame-start hook and erases the live region of
    /// the previous pass. Root-level events, then the root's completed or
    /// cancelled children, are rendered into the flushed region and leave
    /// the tree. The other children of the root are then rendered into the
    /// live region, whose line count is recorded for the next pass, and the
    /// frame-end hook is called.
    ///
    /// The first failure of the renderer ends the pass. The frame then
    /// holds what was rendered up to and including the call that failed;
    /// the failure is returned beside it; the line count is as it was; and
    /// the tree is as far as the pass came.
    ///
    /// For a renderer that keeps the standard traversal, frame, renderer,
    /// tree, line count and result are exactly those of [`pass`].
    pub fn render(&mut self) -> (out: (Frame, Result<(), std::io::Error>))
        requires
            old(self).wf(),
        ensures
            final(self).wf(),
            final(self).rule() == old(self).rule(),
            final(self).follows(old(self).tree(), old(self).drawn(), out.0, out.1),
            R::standard_traversal() ==> final(self).passed(
                pass(old(self).renderer(), old(self).tree(), old(self).drawn()),
                out.0,
                out.1,
            ),
    {
        let ghost before = old(self).tree();
        self.r.on_render_start();
        let ghost started = self.r;

        // Erase the live region of the previous pass
        let mut t = FrameWriter::new(self.frame_lines);
        let clear = t.clear_frame();
        let ghost empty = t;
        proof {
            assert(clear@ =~= clear_sequence(old(self).drawn()));
        }

        // Flush the root
        let flushing = self.flush_root(&mut t);
        let flushed = t.into_bytes();
        let ghost fl = flush(started, before);
        proof {
            assert(R::standard_traversal() ==> flushed@ =~= fl.drawn.bytes);
        }
        let queue = match flushing {
            Ok(queue) => queue,
            Err(e) => {
                return (Frame { clear, flushed, active: Vec::new() }, Err(e));
            },
        };
        proof {
            self.tasks.lemma_wf();
            assert(children_ok(self.tasks@, TaskId::root()));
            if R::standard_traversal() {
                lemma_ok(fl.drawn.result);
            }
        }

        // Draw the live region
        let mut t = FrameWriter::new(0);
        let ghost blank = t;
        let ghost flushed_by = self.r;
        let live = self.draw_each(&mut t, &queue);
        let lines = t.frame_lines();
        let active = t.into_bytes();
        let ghost lv = draw_tasks(flushed_by, self.tasks@, queue@);
        proof {
            assert(R::standard_traversal() ==> active@ =~= lv.bytes);
        }
        match live {
            Ok(()) => {},
            Err(e) => {
                return (Frame { clear, flushed, active }, Err(e));
            },
        }

        // Record the number of lines drawn in the live region
        self.frame_lines = lines;

        self.r.on_render_end();
        proof {
            if R::standard_traversal() {
                lemma_ok(lv.result);
            }
        }
        (Frame { clear, flushed, active }, Ok(()))
    }

    /// Renders the tasks of `ids` one after the other, each with all that
    /// stands below it, up to the first failure.
    fn draw_each(&mut self, target: &mut FrameWriter, ids: &Vec<TaskId>) -> (out: Result<
        (),
        std::io::Error,
    >)
        requires
            old(self).wf(),
            forall|i: int|
                0 <= i < ids@.len() ==> old(self).tree().contains_key(#[trigger] ids@[i])
                    && ids@[i] != TaskId::root(),
        ensures
            final(self).tasks == old(self).tasks,
            final(self).frame_lines == old(self).frame_lines,
            ids@.len() == 0 ==> out.is_ok(),
            R::standard_traversal() ==> gives(
                old(self).renderer(),
                *old(target),
                final(self).renderer(),
                *final(target),
                out,
                draw_tasks(old(self).renderer(), old(self).tree(), ids@),
            ),
    {
        let ghost tree = self.tasks@;
        let ghost first = self.r;
        let mut i: usize = 0;
        proof {
            assert(ids@.take(0) =~= Seq::<TaskId>::empty());
            assert(target.bytes() + Seq::<u8>::empty() =~= target.bytes());
        }
        while i < ids.len()
            invariant
                self.tasks == old(self).tasks,
                self.frame_lines == old(self).frame_lines,
                self.tasks.wf(),
                tree == self.tasks@,
                first == old(self).r,
                i <= ids@.len(),
                forall|k: int|
                    0 <= k < ids@.len() ==> tree.contains_key(#[trigger] ids@[k]) && ids@[k]
                        != TaskId::root(),
                R::standard_traversal() ==> gives(
                    first,
                    *old(target),
                    self.r,
                    *target,
                    Ok(()),
                    draw_tasks(first, tree, ids@.take(i as int)),
                ),
            decreases ids@.len() - i,
        {
            let id = ids[i];
            let ghost so_far = draw_tasks(first, tree, ids@.take(i as int));
            let view = TaskView::new(&self.tasks, id);
            let done = self.r.render_task(target, &view);
            proof {
                if R::standard_traversal() {
                    let next = ids@.take(i + 1);
                    assert(next.drop_last() =~= ids@.take(i as int));
                    assert(next.last() == id);
                    let head = visits_each(tree, ids@.take(i as int));
                    lemma_walk_joined(drawer::<R>(tree), first, head, visits(tree, id));
                    let one = walk(drawer::<R>(tree), so_far.next, visits(tree, id));
                    assert((old(target).bytes() + so_far.bytes) + one.bytes =~= old(
                        target,
                    ).bytes() + (so_far.bytes + one.bytes));
                    if done.is_err() {
                        assert(next + ids@.skip(i + 1) =~= ids@);
                        lemma_visits_each(tree, next, ids@.skip(i + 1));
                        lemma_walk_stops(
                            drawer::<R>(tree),
                            first,
                            visits_each(tree, next),
                            visits_each(tree, ids@.skip(i + 1)),
                        );
                    } else {
                        lemma_ok(done);
                    }
                }
            }
            match done {
                Ok(()) => {},
                Err(e) => {
                    return Err(e);
                },
            }
            i += 1;
        }
        proof {
            assert(ids@.take(ids@.len() as int) =~= ids@);
        }
        Ok(())
    }

    /// Renders what leaves the tree in this pass: the root's events, then
    /// the root's completed or cancelled children. Returns the other
    /// children of the root, in their order.
    fn flush_root(&mut self, target: &mut FrameWriter) -> (out: Result<Vec<TaskId>, std::io::Error>)
        requires
            old(self).wf(),
        ensures
            final(self).wf(),
            final(self).rule() == old(self).rule(),
            final(self).drawn() == old(self).drawn(),
            match out {
                Ok(queue) => {
                    &&& final(self).tree() == pruned(old(self).tree())
                    &&& queue@ == final(self).tree()[TaskId::root()].subtasks
                },
                Err(_) => final(self).tree() == old(self).tree() || final(self).tree() == flushed(
                    old(self).tree(),
                ),
            },
            old(self).tree()[TaskId::root()].events.len() == 0 && old(
                self,
            ).tree()[TaskId::root()].subtasks.len() == 0 ==> out.is_ok(),
            R::standard_traversal() ==> {
                let fl = flush(old(self).renderer(), old(self).tree());
                &&& gives(
                    old(self).renderer(),
                    *old(target),
                    final(self).renderer(),
                    *final(target),
                    settled_result(out),
                    fl.drawn,
                )
                &&& final(self).tree() == fl.tree
            },
    {
        let root = TaskId::root();
        let ghost tree = self.tasks@;
        let ghost first = self.r;
        proof {
            self.tasks.lemma_wf();
        }

        let count = self.tasks.task(&root).events().len();
        let mut i: usize = 0;
        proof {
            assert(root_events(count as nat).take(0) =~= Seq::<Visit>::empty());
            assert(target.bytes() + Seq::<u8>::empty() =~= target.bytes());
        }
        while i < count
            invariant
                self.tasks == old(self).tasks,
                self.frame_lines == old(self).frame_lines,
                self.tasks.wf(),
                tree == self.tasks@,
                first == old(self).r,
                self.tasks@.contains_key(root),
                root == TaskId::root(),
                count == self.tasks@[root].events.len(),
                i <= count,
                gives(
                    first,
                    *old(target),
                    self.r,
                    *target,
                    Ok(()),
                    walk(drawer::<R>(tree), first, root_events(count as nat).take(i as int)),
                ),
            decreases count - i,
        {
            let ghost so_far = walk(
                drawer::<R>(tree),
                first,
                root_events(count as nat).take(i as int),
            );
            let view = EventView::new(&self.tasks, root, i);
            let done = self.r.render_event_line(target, &view);
            proof {
                let all = root_events(count as nat);
                let next = all.take(i + 1);
                assert(next.drop_last() =~= all.take(i as int));
                assert(next.last() == Visit::Event(root, i));
                let one = so_far.next.draws(tree, Visit::Event(root, i));
                assert((old(target).bytes() + so_far.bytes) + one.bytes =~= old(target).bytes()
                    + (so_far.bytes + one.bytes));
                if done.is_err() {
                    assert(next + all.skip(i + 1) =~= all);
                    lemma_walk_stops(drawer::<R>(tree), first, next, all.skip(i + 1));
                } else {
                    lemma_ok(done);
                }
            }
            match done {
                Ok(()) => {},
                Err(e) => {
                    return Err(e);
                },
            }
            i += 1;
        }
        let ghost ev = draw_root_events(first, tree);
        proof {
            assert(root_events(count as nat).take(count as int) =~= root_events(count as nat));
        }
        self.tasks.clear_root_events();
        proof {
            self.tasks.lemma_wf();
            crate::prune::lemma_same_shape_flushed(tree);
        }

        let done = self.tasks.root_children(true);
        let active = self.tasks.root_children(false);
        let ghost between = self.r;
        let ghost written = *target;
        proof {
            assert(children_ok(self.tasks@, root));
            assert forall|k: int| 0 <= k < done@.len() implies self.tasks@.contains_key(
                #[trigger] done@[k],
            ) && done@[k] != TaskId::root() by {
                lemma_settled(self.tasks@, self.tasks@[root].subtasks, true, k);
                let c = done@[k];
                let j = choose|j: int|
                    0 <= j < self.tasks@[root].subtasks.len() && self.tasks@[root].subtasks[j]
                        == c;
                assert(self.tasks@.contains_key(self.tasks@[root].subtasks[j]));
            }
        }
        let drawing = self.draw_each(target, &done);
        proof {
            if R::standard_traversal() {
                let dn = draw_tasks(between, flushed(tree), done@);
                assert((old(target).bytes() + ev.bytes) + dn.bytes =~= old(target).bytes() + (
                ev.bytes + dn.bytes));
                lemma_ok(ev.result);
            }
        }
        match drawing {
            Ok(()) => {},
            Err(e) => {
                return Err(e);
            },
        }

        self.tasks.prune();
        proof {
            let m = tree;
            lemma_pruned_root(m);
            assert(settled(flushed(m), flushed(m)[root].subtasks, false) == settled(
                m,
                m[root].subtasks,
                false,
            )) by {
                lemma_settled_flushed(m, m[root].subtasks, false);
            }
            assert(doomed_set(flushed(m)) =~= doomed_set(m)) by {
                assert forall|id: TaskId|
                    doomed_set(flushed(m)).contains(id) == doomed_set(m).contains(id) by {
                    lemma_doomed_flushed(m, id);
                }
            }
            if R::standard_traversal() {
                lemma_ok(draw_tasks(between, flushed(tree), done@).result);
            }
        }
        Ok(active)
    }
}

} // verus!
