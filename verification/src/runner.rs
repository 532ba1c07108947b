//! The decisions of a render loop: drain, render, wait or finish.
//!
//! The loop itself is run by the caller, who owns the output and the
//! clock: it writes each frame out and waits when told to.
use crate::clock::{duration_from_millis, millis_span};
use crate::laws::reached;
use crate::model::{cancelled_all, TaskState};
use crate::prune::lemma_cancel_then_prune;
use crate::task::TaskId;
use crate::writer::{pass, Frame, TaskRenderer};
use crate::{Action, Renderer};
use std::time::Duration;
use vstd::prelude::*;

verus! {

/// Drain available actions from a channel or queue into a
/// [`TaskRenderer`].
///
/// Implement this for a channel backend. An implementation applies the
/// actions that are at hand, in the order they came, and nothing else: it
/// starts no task under an identity that the tree holds, and it renders
/// nothing.
pub trait ActionSource<R: Renderer> {
    /// Drain all immediately-available actions into `renderer`.
    ///
    /// Must not block: return as soon as the channel is empty. Returns
    /// `false` when the source is permanently closed.
    fn drain_into(&mut self, renderer: &mut TaskRenderer<R>) -> (alive: bool)
        requires
            old(renderer).wf(),
        ensures
            final(renderer).wf(),
            final(renderer).rule() == old(renderer).rule(),
            final(renderer).drawn() == old(renderer).drawn(),
            final(renderer).renderer() == old(renderer).renderer(),
            reached::<R>(old(renderer).tree(), old(renderer).rule(), final(renderer).tree()),
    ;
}

/// What the loop does after a cycle of draining and rendering.
pub enum Next {
    /// Wait for the given time, or for a stop signal, then run another
    /// cycle.
    Wait(Duration),
    /// Leave the loop and call [`RenderLoop::finish`].
    Finish,
}

/// The state of a render loop: a task renderer, the time between two
/// frames, and whether open tasks are shown as cancelled when the loop
/// ends.
pub struct RenderLoop<R: Renderer> {
    renderer: TaskRenderer<R>,
    interval: Duration,
    cancel_on_close: bool,
}

impl<R: Renderer> RenderLoop<R> {
    /// Whether the task renderer keeps its invariant.
    pub closed spec fn wf(&self) -> bool {
        self.renderer.wf()
    }

    /// The task renderer.
    pub closed spec fn inner(&self) -> TaskRenderer<R> {
        self.renderer
    }

    /// The time between two frames.
    pub closed spec fn pause(&self) -> Duration {
        self.interval
    }

    /// Whether open tasks are cancelled when the loop ends.
    pub closed spec fn cancels(&self) -> bool {
        self.cancel_on_close
    }

    /// Create a loop with sensible defaults (100 ms interval, cancel on
    /// close).
    pub fn new(r: R) -> (out: Self)
        ensures
            out.wf(),
            out.pause() == millis_span(100),
            out.cancels(),
            out.inner().drawn() == 0,
    {
        Self {
            renderer: TaskRenderer::new(r),
            interval: duration_from_millis(100),
            cancel_on_close: true,
        }
    }

    /// Set the repaint interval.
    pub fn interval(self, d: Duration) -> (out: Self)
        ensures
            out.pause() == d,
            out.cancels() == self.cancels(),
            out.inner() == self.inner(),
            out.wf() == self.wf(),
    {
        let mut next = self;
        next.interval = d;
        next
    }

    /// Whether to apply [`Action::CancelAll`] when the loop ends. Enabled
    /// by default: the closing frame then shows every open task as
    /// cancelled.
    pub fn cancel_on_close(self, yes: bool) -> (out: Self)
        ensures
            out.cancels() == yes,
            out.pause() == self.pause(),
            out.inner() == self.inner(),
            out.wf() == self.wf(),
    {
        let mut next = self;
        next.cancel_on_close = yes;
        next
    }

    /// Borrow the inner [`TaskRenderer`] (e.g. to look at its state).
    pub fn renderer(&self) -> (out: &TaskRenderer<R>)
        ensures
            *out == self.inner(),
    {
        &self.renderer
    }

    /// Run a single tick: drain, then render. Returns whether the source
    /// is still alive, the frame of the pass, and the pass's result; a
    /// closed source is still rendered once.
    ///
    /// The pass renders the tree that the drained actions made, as
    /// [`TaskRenderer::render`] does.
    pub fn tick<S: ActionSource<R>>(&mut self, source: &mut S) -> (out: (
        bool,
        Frame,
        Result<(), std::io::Error>,
    ))
        requires
            old(self).wf(),
        ensures
            final(self).wf(),
            final(self).pause() == old(self).pause(),
            final(self).cancels() == old(self).cancels(),
            final(self).inner().rule() == old(self).inner().rule(),
            exists|drained: Map<TaskId, TaskState<R::TaskData, R::EventData>>|
                {
                    &&& #[trigger] reached::<R>(
                        old(self).inner().tree(),
                        old(self).inner().rule(),
                        drained,
                    )
                    &&& final(self).inner().follows(
                        drained,
                        old(self).inner().drawn(),
                        out.1,
                        out.2,
                    )
                    &&& R::standard_traversal() ==> final(self).inner().passed(
                        pass(old(self).inner().renderer(), drained, old(self).inner().drawn()),
                        out.1,
                        out.2,
                    )
                },
    {
        let alive = source.drain_into(&mut self.renderer);
        let ghost drained = self.renderer.tree();
        let (frame, result) = self.renderer.render();
        proof {
            assert(reached::<R>(old(self).inner().tree(), old(self).inner().rule(), drained));
        }
        (alive, frame, result)
    }

    /// What follows a tick: the loop goes on after the interval while the
    /// source is alive and no stop was asked for, and ends otherwise.
    pub fn after_tick(&self, alive: bool, stop: bool) -> (out: Next)
        ensures
            out == (if alive && !stop {
                Next::Wait(self.pause())
            } else {
                Next::Finish
            }),
    {
        if alive && !stop {
            Next::Wait(self.interval)
        } else {
            Next::Finish
        }
    }

    /// What follows a wait: the loop goes on where the wait ran its time,
    /// and ends where it was cut short.
    pub fn after_wait(&self, in_time: bool) -> (out: Next)
        ensures
            out == (if in_time {
                Next::Wait(self.pause())
            } else {
                Next::Finish
            }),
    {
        if in_time {
            Next::Wait(self.interval)
        } else {
            Next::Finish
        }
    }

    /// Ends the loop. Where open tasks are to be cancelled, every task is
    /// marked cancelled and one closing frame is rendered, as
    /// [`TaskRenderer::render`] does; a closing pass that succeeds leaves
    /// only the root. Otherwise nothing happens.
    pub fn finish(&mut self) -> (out: Option<(Frame, Result<(), std::io::Error>)>)
        requires
            old(self).wf(),
        ensures
            final(self).wf(),
            final(self).pause() == old(self).pause(),
            final(self).cancels() == old(self).cancels(),
            out.is_some() == old(self).cancels(),
            !old(self).cancels() ==> *final(self) == *old(self),
            old(self).cancels() ==> {
                let tree = cancelled_all(old(self).inner().tree());
                &&& final(self).inner().follows(
                    tree,
                    old(self).inner().drawn(),
                    out.unwrap().0,
                    out.unwrap().1,
                )
                &&& R::standard_traversal() ==> final(self).inner().passed(
                    pass(old(self).inner().renderer(), tree, old(self).inner().drawn()),
                    out.unwrap().0,
                    out.unwrap().1,
                )
                &&& out.unwrap().1.is_ok() ==> final(self).inner().tree().dom() == set![
                    TaskId::root(),
                ]
            },
    {
        if self.cancel_on_close {
            proof {
                self.renderer.lemma_wf();
                lemma_cancel_then_prune(self.renderer.tree());
            }
            self.renderer.update(Action::CancelAll);
            Some(self.renderer.render())
        } else {
            None
        }
    }

    /// A loop that keeps its invariant holds a task renderer that keeps
    /// its own, and with it a well-formed tree.
    pub proof fn lemma_wf(&self)
        requires
            self.wf(),
        ensures
            self.inner().wf(),
            crate::model::well_formed(self.inner().tree()),
    {
        self.renderer.lemma_wf();
    }
}

} // verus!
