//! When the tasks of a batch may start.
//!
//! Moments are counted from the start of the batch. A task whose turn has come asks
//! a [`Pacer`], waits as long as it is told to, and asks again.
use vstd::prelude::*;

#[allow(unused_imports)]
use crate::interval::MAX_NANOS;
use crate::interval::Interval;

verus! {

/// What a task does when its turn has come.
#[derive(Debug, Clone, Copy, PartialEq, Eq)]
pub enum Turn {
    /// The batch was cancelled: the task ends without a check.
    Skip,
    /// It is too early: the task waits until this moment, then asks again.
    Wait(Interval),
    /// The check starts now.
    Start,
}

/// The earliest moment, in nanoseconds, at which a check may start after those that
/// started at the moments `starts`: `delay` after the last of them.
pub open spec fn earliest(delay: nat, starts: Seq<nat>) -> nat {
    if starts.len() == 0 {
        0
    } else {
        starts.last() + delay
    }
}

/// Whether any two of the moments `starts` lie at least `delay` apart, in order.
pub open spec fn spaced(delay: nat, starts: Seq<nat>) -> bool {
    forall|i: int, j: int|
        0 <= i < j < starts.len() ==> #[trigger] starts[i] + delay <= #[trigger] starts[j]
}

/// Spaces the starts of a batch by a minimum delay.
pub struct Pacer {
    delay: Interval,
    last: Option<Interval>,
    starts: Ghost<Seq<nat>>,
}

impl View for Pacer {
    type V = Seq<nat>;

    /// The moments at which checks have started, in nanoseconds.
    closed spec fn view(&self) -> Seq<nat> {
        self.starts@
    }
}

impl Pacer {
    /// The starts lie apart, and the last of them is remembered.
    #[verifier::type_invariant]
    spec fn paced(self) -> bool {
        &&& spaced(self.delay@, self.starts@)
        &&& match self.last {
            Some(last) => self.starts@.len() > 0 && self.starts@.last() == last@,
            None => self.starts@.len() == 0,
        }
    }

    /// The least time between two starts, in nanoseconds.
    pub closed spec fn delay(&self) -> nat {
        self.delay@
    }

    /// A batch in which no check has started.
    pub fn new(delay: Interval) -> (pacer: Self)
        ensures
            pacer.delay() == delay@,
            pacer@ == Seq::<nat>::empty(),
    {
        Pacer { delay, last: None, starts: Ghost(Seq::empty()) }
    }

    /// The least moment from `now` on at which a check may start, or the longest
    /// interval if that is longer.
    pub fn next_start(&self, now: Interval) -> (start: Interval)
        ensures
            start@ == {
                let least = if earliest(self.delay(), self@) > now@ {
                    earliest(self.delay(), self@)
                } else {
                    now@
                };
                if least <= MAX_NANOS {
                    least
                } else {
                    MAX_NANOS as nat
                }
            },
    {
        proof {
            use_type_invariant(self);
        }
        let nanos: u128 = now.as_nanos();
        match &self.last {
            Some(last) => {
                let free: u128 = last.as_nanos() + self.delay.as_nanos();
                if free > nanos {
                    Interval::from_nanos(free)
                } else {
                    now
                }
            },
            None => now,
        }
    }

    /// Decides what a task does at the moment `now`. A cancelled batch starts
    /// nothing more, and any two starts of a batch lie at least the delay apart.
    pub fn on_turn(&mut self, cancelled: bool, now: Interval) -> (turn: Turn)
        ensures
            final(self).delay() == old(self).delay(),
            turn is Skip <==> cancelled,
            turn is Start <==> !cancelled && earliest(old(self).delay(), old(self)@) <= now@,
            turn matches Turn::Wait(until) ==> until@ == {
                let free = earliest(old(self).delay(), old(self)@);
                if free <= MAX_NANOS {
                    free
                } else {
                    MAX_NANOS as nat
                }
            },
            final(self)@ == if turn is Start {
                old(self)@.push(now@)
            } else {
                old(self)@
            },
            spaced(final(self).delay(), final(self)@),
    {
        proof {
            use_type_invariant(&*self);
        }
        if cancelled {
            return Turn::Skip;
        }
        let free: bool = match &self.last {
            Some(last) => last.as_nanos() + self.delay.as_nanos() <= now.as_nanos(),
            None => true,
        };
        if !free {
            return Turn::Wait(self.next_start(now));
        }
        let ghost starts = self.starts@.push(now@);
        *self = Pacer { delay: self.delay, last: Some(now), starts: Ghost(starts) };
        Turn::Start
    }
}

/// The delay lies between any two starts of a batch, whichever comes first, where
/// each came when it was free to, after those before it.
pub proof fn law_starts_lie_apart(delay: nat, starts: Seq<nat>)
    requires
        forall|k: int|
            0 <= k < starts.len() ==> earliest(delay, #[trigger] starts.take(k)) <= starts[k],
    ensures
        spaced(delay, starts),
    decreases starts.len(),
{
    if starts.len() > 0 {
        let before = starts.drop_last();
        assert forall|k: int| 0 <= k < before.len() implies earliest(
            delay,
            #[trigger] before.take(k),
        ) <= before[k] by {
            assert(before.take(k) =~= starts.take(k));
        }
        law_starts_lie_apart(delay, before);
        let last = starts.len() - 1;
        assert(starts.take(last) =~= before);
        assert forall|i: int, j: int| 0 <= i < j < starts.len() implies #[trigger] starts[i]
            + delay <= #[trigger] starts[j] by {
            assert(starts[i] == before[i]);
            if j < last {
                assert(starts[j] == before[j]);
            } else if i < last - 1 {
                assert(before[i] + delay <= before[last - 1]);
            }
        }
    }
}

/// No check waits needlessly: the first may start at once, and one after others from
/// the delay after the last of them on.
pub proof fn law_no_needless_wait(delay: nat, starts: Seq<nat>, now: nat)
    ensures
        starts.len() == 0 ==> earliest(delay, starts) <= now,
        starts.len() > 0 ==> (earliest(delay, starts) <= now <==> starts[starts.len() - 1] + delay
            <= now),
{
}

} // verus!
