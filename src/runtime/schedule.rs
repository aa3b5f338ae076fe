//! The tick schedule: when each module is next due, and which modules a
//! wake-up ticks.

use vstd::prelude::*;

use crate::time::Duration;

verus! {

/// The time at which each module, by position, is next due for a tick, in
/// milliseconds on the runtime's clock.
pub struct TickSchedule {
    due: Vec<u64>,
}

impl View for TickSchedule {
    type V = Seq<u64>;

    closed spec fn view(&self) -> Seq<u64> {
        self.due@
    }
}

/// The smallest of the times, which must not be empty.
pub open spec fn earliest(s: Seq<u64>) -> u64
    recommends
        s.len() > 0,
    decreases s.len(),
{
    if s.len() <= 1 {
        s[0]
    } else if s.last() < earliest(s.drop_last()) {
        s.last()
    } else {
        earliest(s.drop_last())
    }
}

proof fn lemma_earliest(s: Seq<u64>)
    requires
        s.len() > 0,
    ensures
        forall|i: int| 0 <= i < s.len() ==> earliest(s) <= #[trigger] s[i],
        exists|i: int| 0 <= i < s.len() && earliest(s) == #[trigger] s[i],
    decreases s.len(),
{
    if s.len() > 1 {
        let init = s.drop_last();
        lemma_earliest(init);
        assert forall|i: int| 0 <= i < s.len() implies earliest(s) <= #[trigger] s[i] by {
            if i < s.len() - 1 {
                assert(init[i] == s[i]);
            }
        }
        if s.last() < earliest(init) {
            assert(earliest(s) == s[s.len() - 1]);
        } else {
            let j = choose|j: int| 0 <= j < init.len() && earliest(init) == #[trigger] init[j];
            assert(earliest(s) == s[j]);
        }
    } else {
        assert(earliest(s) == s[0]);
    }
}

impl TickSchedule {
    /// A schedule for `modules` modules, every one due at `now`.
    pub fn new(modules: usize, now: u64) -> (r: Self)
        ensures
            r@ == Seq::new(modules as nat, |i: int| now),
    {
        let mut due: Vec<u64> = Vec::new();
        let mut i: usize = 0;
        while i < modules
            invariant
                i <= modules,
                due@ == Seq::new(i as nat, |j: int| now),
            decreases modules - i,
        {
            due.push(now);
            i = i + 1;
            assert(due@ =~= Seq::new(i as nat, |j: int| now));
        }
        TickSchedule { due }
    }

    /// The earliest time at which some module is due; `None` for a schedule
    /// of no modules.
    pub fn next_deadline(&self) -> (r: Option<u64>)
        ensures
            self@.len() == 0 ==> r is None,
            self@.len() > 0 ==> r == Some(earliest(self@)),
    {
        if self.due.len() == 0 {
            return None;
        }
        let mut best = self.due[0];
        let mut i: usize = 1;
        assert(self.due@.take(1) =~= seq![self.due@[0]]);
        while i < self.due.len()
            invariant
                1 <= i <= self.due@.len(),
                best == earliest(self.due@.take(i as int)),
            decreases self.due@.len() - i,
        {
            let t = self.due[i];
            assert(self.due@.take(i + 1).drop_last() =~= self.due@.take(i as int));
            if t < best {
                best = t;
            }
            i = i + 1;
        }
        assert(self.due@.take(i as int) =~= self.due@);
        Some(best)
    }

    /// Which modules a wake-up at `now` ticks: every module when an incoming
    /// message asked for an immediate publish, else those that are due.
    pub fn due_at(&self, now: u64, immediate: bool) -> (r: Vec<bool>)
        ensures
            r@.len() == self@.len(),
            forall|i: int| 0 <= i < r@.len() ==> #[trigger] r@[i] == (immediate || self@[i] <= now),
    {
        let mut out: Vec<bool> = Vec::new();
        let mut i: usize = 0;
        while i < self.due.len()
            invariant
                i <= self.due@.len(),
                out@.len() == i,
                forall|j: int| 0 <= j < i ==> #[trigger] out@[j] == (immediate || self.due@[j] <= now),
            decreases self.due@.len() - i,
        {
            out.push(immediate || self.due[i] <= now);
            i = i + 1;
        }
        out
    }

    /// Records that module `i` ticked at `now` and asked to be ticked again
    /// after `interval`.
    pub fn record_tick(&mut self, i: usize, now: u64, interval: Duration)
        requires
            i < old(self)@.len(),
            now + interval.as_millis_spec() <= u64::MAX,
        ensures
            final(self)@ == old(self)@.update(i as int, (now + interval.as_millis_spec()) as u64),
    {
        let next = now + interval.as_millis();
        self.due.set(i, next);
    }

    /// The number of modules.
    pub fn len(&self) -> (r: usize)
        ensures
            r == self@.len(),
    {
        self.due.len()
    }
}

/// The earliest time is one of the times and no later than any of them.
pub proof fn lemma_next_deadline_is_minimum(s: TickSchedule)
    requires
        s@.len() > 0,
    ensures
        forall|i: int| 0 <= i < s@.len() ==> earliest(s@) <= #[trigger] s@[i],
        exists|i: int| 0 <= i < s@.len() && earliest(s@) == #[trigger] s@[i],
{
    lemma_earliest(s@);
}

} // verus!
