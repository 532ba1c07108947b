//! How many buffered events a task keeps.
use std::collections::VecDeque;
use vstd::prelude::*;

verus! {

/// The rule applied to a task's event buffer whenever an event arrives.
#[derive(Debug, Clone, Copy, PartialEq, Eq, Structural)]
pub enum Retention {
    /// Keep the newest `n` events.
    Rolling(usize),
    /// Keep only the newest event.
    KeepLast,
    /// Keep every event.
    KeepAll,
    /// Keep no event.
    Discard,
}

impl Retention {
    /// The buffer that results from handing `event` to a buffer holding `buf`.
    pub open spec fn retain<E>(self, buf: Seq<E>, event: E) -> Seq<E> {
        match self {
            Retention::Rolling(n) => {
                let all = buf.push(event);
                if all.len() > n {
                    all.skip(all.len() - n)
                } else {
                    all
                }
            },
            Retention::KeepLast => seq![event],
            Retention::KeepAll => buf.push(event),
            Retention::Discard => buf,
        }
    }

    /// The buffer that results from handing the events of `events`, first to
    /// last, to a buffer holding `buf`.
    pub open spec fn retain_all<E>(self, buf: Seq<E>, events: Seq<E>) -> Seq<E>
        decreases events.len(),
    {
        if events.len() == 0 {
            buf
        } else {
            self.retain(self.retain_all(buf, events.drop_last()), events.last())
        }
    }

    /// Whether a buffer of `len` events is within what the rule lets stand.
    pub open spec fn admits(self, len: nat) -> bool {
        match self {
            Retention::Rolling(n) => len <= n,
            Retention::KeepLast => len <= 1,
            Retention::KeepAll => true,
            Retention::Discard => len == 0,
        }
    }

    /// The length of a buffer that started empty and was handed `pushes`
    /// events.
    pub open spec fn len_after(self, pushes: nat) -> nat {
        match self {
            Retention::Rolling(n) => if pushes <= n { pushes } else { n as nat },
            Retention::KeepLast => if pushes == 0 { 0 } else { 1 },
            Retention::KeepAll => pushes,
            Retention::Discard => 0,
        }
    }

    /// The rule in force when none is chosen: the newest three events.
    pub fn standard() -> (r: Retention)
        ensures
            r == Retention::Rolling(3),
    {
        Retention::Rolling(3)
    }

    /// Hands `event` to `buf` under this rule.
    pub fn push<E>(&self, buf: &mut VecDeque<E>, event: E)
        ensures
            final(buf)@ == self.retain(old(buf)@, event),
    {
        match *self {
            Retention::Rolling(n) => {
                buf.push_back(event);
                let ghost all = buf@;
                assert(buf@ =~= all.skip(0));
                while buf.len() > n
                    invariant
                        all == old(buf)@.push(event),
                        buf@.len() <= all.len(),
                        buf@.len() >= n || buf@.len() == all.len(),
                        buf@ == all.skip(all.len() - buf@.len()),
                    decreases buf@.len(),
                {
                    let _ = buf.pop_front();
                    assert(buf@ =~= all.skip(all.len() - buf@.len()));
                }
            },
            Retention::KeepLast => {
                buf.clear();
                buf.push_back(event);
                assert(buf@ =~= seq![event]);
            },
            Retention::KeepAll => {
                buf.push_back(event);
            },
            Retention::Discard => {},
        }
    }

    /// A buffer within the rule's bound is still within it after one more
    /// event.
    pub proof fn lemma_retain_bounded<E>(self, buf: Seq<E>, event: E)
        requires
            self.admits(buf.len()),
        ensures
            self.admits(self.retain(buf, event).len()),
    {
    }

    /// After any number of events handed to an empty buffer, the buffer's
    /// length is the smaller of that number and the rule's bound: at most `n`
    /// under `Rolling(n)`, at most one under `KeepLast`, the number itself
    /// under `KeepAll`, and zero under `Discard`.
    pub proof fn lemma_len_after<E>(self, events: Seq<E>)
        ensures
            self.retain_all(Seq::<E>::empty(), events).len() == self.len_after(events.len()),
            self.admits(self.retain_all(Seq::<E>::empty(), events).len()),
        decreases events.len(),
    {
        if events.len() > 0 {
            self.lemma_len_after(events.drop_last());
        }
    }
}

} // verus!
