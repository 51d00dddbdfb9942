//! Autostart stopwatch with named checkpoints, and the tick / measure
//! helpers recipes use for "snapshot now, do work, read the delta".

use std::time::Instant;

use vstd::prelude::*;

use crate::harness::{duration_nanos_u64, elapsed_ns_since, instant_now, instant_since};
use crate::render::{concat, push_utf8};
use crate::text::{pad_left, pad_right, push_char, push_pad_left, push_pad_right, push_str};
use crate::units::{format_ns, format_ns_text};

verus! {

/// Opaque starting tick; the only useful operation is
/// [`SubMsTick::elapsed_ns`] later.
#[derive(Copy, Clone, Debug)]
pub struct SubMsTick(Instant);

impl SubMsTick {
    /// Nanoseconds since this tick was taken, as the monotonic clock reads.
    pub fn elapsed_ns(self) -> u64 {
        elapsed_ns_since(&self.0)
    }
}

/// A named milestone captured by `mark` / `lap` / `stop`.
#[derive(Clone, Debug, PartialEq, Eq)]
pub struct SubMsTimerCheckpoint {
    /// Label passed to `mark` / `lap` / `stop`.
    pub label: String,
    /// Nanoseconds since the previous checkpoint (or the start).
    pub since_last_ns: u64,
    /// Nanoseconds since the start.
    pub since_start_ns: u64,
    /// `true` if this checkpoint stopped the timer.
    pub is_stop: bool,
}

/// Autostart stopwatch with named checkpoints.
pub struct SubMsTimer {
    name: String,
    started_at: Instant,
    /// Nanoseconds from the start to the stop, once stopped.
    stopped_ns: Option<u64>,
    /// The monotonic clock's reading of the time since the start, as the
    /// last checkpoint took it (0 before any since the start).
    clock_ns: u64,
    checkpoints: Vec<SubMsTimerCheckpoint>,
}

/// The since-start time of the last checkpoint, 0 when there is none.
pub open spec fn last_since_start(cps: Seq<SubMsTimerCheckpoint>) -> u64 {
    if cps.len() == 0 {
        0
    } else {
        cps.last().since_start_ns
    }
}

/// The checkpoints' since-start times never go backwards.
pub open spec fn in_time_order(cps: Seq<SubMsTimerCheckpoint>) -> bool {
    forall|i: int, j: int|
        0 <= i <= j < cps.len() ==> (#[trigger] cps[i]).since_start_ns <= (#[trigger] cps[j]).since_start_ns
}

/// A snapshot of the monotonic clock.
pub fn tick() -> SubMsTick {
    SubMsTick(instant_now())
}

impl SubMsTimer {
    #[verifier::type_invariant]
    spec fn timeline_wf(self) -> bool {
        in_time_order(self.checkpoints@)
    }

    /// The display name.
    pub closed spec fn name_view(&self) -> Seq<char> {
        self.name@
    }

    /// The checkpoints, in order.
    pub closed spec fn checkpoints_view(&self) -> Seq<SubMsTimerCheckpoint> {
        self.checkpoints@
    }

    /// The monotonic clock's reading of the time since the start, as the
    /// last checkpoint took it.
    pub closed spec fn clock_reading_view(&self) -> u64 {
        self.clock_ns
    }

    /// Whether `stop` has been called since the last (re)start.
    pub closed spec fn stopped_view(&self) -> bool {
        self.stopped_ns is Some
    }

    /// The elapsed time the stop froze, once stopped.
    pub closed spec fn frozen_view(&self) -> Option<u64> {
        self.stopped_ns
    }

    /// Snapshot the monotonic clock.
    pub fn tick() -> SubMsTick {
        tick()
    }

    /// Run `f` once; return its result and the nanoseconds it took.
    pub fn measure_ns<F: FnOnce() -> T, T>(f: F) -> (r: (T, u64))
        requires
            f.requires(()),
        ensures
            f.ensures((), r.0),
    {
        let t0 = instant_now();
        let r = f();
        let elapsed = elapsed_ns_since(&t0);
        (r, elapsed)
    }

    /// An autostarted timer with an empty name.
    pub fn unnamed() -> (t: Self)
        ensures
            t.name_view() == Seq::<char>::empty(),
            t.checkpoints_view() == Seq::<SubMsTimerCheckpoint>::empty(),
            !t.stopped_view(),
            t.frozen_view() is None,
    {
        proof {
            reveal_strlit("");
        }
        Self::new("")
    }

    /// An autostarted timer with a display name.
    pub fn new(name: &str) -> (t: Self)
        ensures
            t.name_view() == name@,
            t.checkpoints_view() == Seq::<SubMsTimerCheckpoint>::empty(),
            !t.stopped_view(),
            t.frozen_view() is None,
    {
        let now = instant_now();
        SubMsTimer {
            name: name.to_string(),
            started_at: now,
            stopped_ns: None,
            clock_ns: 0,
            checkpoints: Vec::new(),
        }
    }

    /// Restart at t = 0 and clear every checkpoint.
    pub fn start(&mut self) -> (r: &mut Self)
        ensures
            r.name_view() == old(self).name_view(),
            r.checkpoints_view() == Seq::<SubMsTimerCheckpoint>::empty(),
            !r.stopped_view(),
            *final(self) == *final(r),
    {
        proof {
            use_type_invariant(&*self);
        }
        let now = instant_now();
        self.started_at = now;
        self.stopped_ns = None;
        self.clock_ns = 0;
        self.checkpoints = Vec::new();
        self
    }

    /// Alias of [`Self::start`].
    pub fn reset(&mut self) -> (r: &mut Self)
        ensures
            r.name_view() == old(self).name_view(),
            r.checkpoints_view() == Seq::<SubMsTimerCheckpoint>::empty(),
            !r.stopped_view(),
            *final(self) == *final(r),
    {
        self.start()
    }

    /// The monotonic clock never reads earlier than it did before (std
    /// documents `Instant` so), so the reading is held at the last
    /// checkpoint's time at the least; the time since the previous
    /// checkpoint is the difference of the two since-start times.
    fn checkpoint(&mut self, label: &str, is_stop: bool) -> (r: u64)
        ensures
            final(self).name_view() == old(self).name_view(),
            final(self).checkpoints_view().len() == old(self).checkpoints_view().len() + 1,
            final(self).checkpoints_view().drop_last() == old(self).checkpoints_view(),
            final(self).checkpoints_view().last().label@ == label@,
            final(self).checkpoints_view().last().is_stop == is_stop,
            final(self).checkpoints_view().last().since_start_ns == r,
            r == if final(self).clock_reading_view() < last_since_start(old(self).checkpoints_view()) {
                last_since_start(old(self).checkpoints_view())
            } else {
                final(self).clock_reading_view()
            },
            r >= final(self).clock_reading_view(),
            last_since_start(old(self).checkpoints_view()) <= r,
            final(self).checkpoints_view().last().since_last_ns == r - last_since_start(
                old(self).checkpoints_view(),
            ),
            in_time_order(final(self).checkpoints_view()),
            final(self).frozen_view() == if is_stop {
                Some(r)
            } else {
                old(self).frozen_view()
            },
    {
        proof {
            use_type_invariant(&*self);
        }
        let now = instant_now();
        let reading = duration_nanos_u64(&instant_since(&now, &self.started_at));
        self.clock_ns = reading;
        let mut cps: Vec<SubMsTimerCheckpoint> = Vec::new();
        std::mem::swap(&mut cps, &mut self.checkpoints);
        let before: u64 = if cps.len() == 0 {
            0
        } else {
            cps[cps.len() - 1].since_start_ns
        };
        let since_start = if reading < before {
            before
        } else {
            reading
        };
        if is_stop {
            self.stopped_ns = Some(since_start);
        }
        cps.push(
            SubMsTimerCheckpoint {
                label: label.to_string(),
                since_last_ns: since_start - before,
                since_start_ns: since_start,
                is_stop,
            },
        );
        assert(cps@.drop_last() =~= old(self).checkpoints@);
        assert(in_time_order(cps@));
        std::mem::swap(&mut cps, &mut self.checkpoints);
        proof {
            use_type_invariant(&*self);
        }
        since_start
    }

    /// Record a checkpoint labelled `label`; returns its nanoseconds since
    /// the start.
    pub fn mark(&mut self, label: &str) -> (r: u64)
        ensures
            final(self).name_view() == old(self).name_view(),
            final(self).checkpoints_view().len() == old(self).checkpoints_view().len() + 1,
            final(self).checkpoints_view().drop_last() == old(self).checkpoints_view(),
            final(self).checkpoints_view().last().label@ == label@,
            !final(self).checkpoints_view().last().is_stop,
            final(self).checkpoints_view().last().since_start_ns == r,
            r == if final(self).clock_reading_view() < last_since_start(old(self).checkpoints_view()) {
                last_since_start(old(self).checkpoints_view())
            } else {
                final(self).clock_reading_view()
            },
            r >= final(self).clock_reading_view(),
            last_since_start(old(self).checkpoints_view()) <= r,
            final(self).checkpoints_view().last().since_last_ns == r - last_since_start(
                old(self).checkpoints_view(),
            ),
            in_time_order(final(self).checkpoints_view()),
            final(self).frozen_view() == old(self).frozen_view(),
            final(self).stopped_view() == old(self).stopped_view(),
    {
        self.checkpoint(label, false)
    }

    /// Alias of [`Self::mark`].
    pub fn lap(&mut self, label: &str) -> (r: u64)
        ensures
            final(self).name_view() == old(self).name_view(),
            final(self).checkpoints_view().len() == old(self).checkpoints_view().len() + 1,
            final(self).checkpoints_view().drop_last() == old(self).checkpoints_view(),
            final(self).checkpoints_view().last().label@ == label@,
            !final(self).checkpoints_view().last().is_stop,
            final(self).checkpoints_view().last().since_start_ns == r,
            r == if final(self).clock_reading_view() < last_since_start(old(self).checkpoints_view()) {
                last_since_start(old(self).checkpoints_view())
            } else {
                final(self).clock_reading_view()
            },
            r >= final(self).clock_reading_view(),
            last_since_start(old(self).checkpoints_view()) <= r,
            final(self).checkpoints_view().last().since_last_ns == r - last_since_start(
                old(self).checkpoints_view(),
            ),
            in_time_order(final(self).checkpoints_view()),
            final(self).frozen_view() == old(self).frozen_view(),
            final(self).stopped_view() == old(self).stopped_view(),
    {
        self.mark(label)
    }

    /// The final checkpoint: the timer stops, and its elapsed time freezes.
    pub fn stop(&mut self, label: &str) -> (r: u64)
        ensures
            final(self).name_view() == old(self).name_view(),
            final(self).checkpoints_view().len() == old(self).checkpoints_view().len() + 1,
            final(self).checkpoints_view().drop_last() == old(self).checkpoints_view(),
            final(self).checkpoints_view().last().label@ == label@,
            final(self).checkpoints_view().last().is_stop,
            final(self).checkpoints_view().last().since_start_ns == r,
            r == if final(self).clock_reading_view() < last_since_start(old(self).checkpoints_view()) {
                last_since_start(old(self).checkpoints_view())
            } else {
                final(self).clock_reading_view()
            },
            r >= final(self).clock_reading_view(),
            last_since_start(old(self).checkpoints_view()) <= r,
            final(self).checkpoints_view().last().since_last_ns == r - last_since_start(
                old(self).checkpoints_view(),
            ),
            in_time_order(final(self).checkpoints_view()),
            final(self).frozen_view() == Some(r),
            final(self).stopped_view(),
    {
        self.checkpoint(label, true)
    }

    /// Whether the timer has been stopped.
    pub fn is_stopped(&self) -> (r: bool)
        ensures
            r == self.stopped_view(),
    {
        self.stopped_ns.is_some()
    }

    /// Nanoseconds since the start, frozen at the stop if stopped.
    pub fn elapsed_ns(&self) -> (r: u64)
        ensures
            self.frozen_view() matches Some(ns) ==> r == ns,
    {
        match self.stopped_ns {
            Some(ns) => ns,
            None => elapsed_ns_since(&self.started_at),
        }
    }

    /// The display name.
    pub fn name(&self) -> (r: &str)
        ensures
            r@ == self.name_view(),
    {
        self.name.as_str()
    }

    /// The checkpoints, in order.
    pub fn checkpoints(&self) -> (r: &[SubMsTimerCheckpoint])
        ensures
            r@ == self.checkpoints_view(),
    {
        self.checkpoints.as_slice()
    }

    /// Write the timeline: a header with the total, then one line per
    /// checkpoint (`*` after a stop's label) with the time since the previous
    /// checkpoint and since the start.
    #[verifier::rlimit(40)]
    #[verifier::spinoff_prover]
    pub fn print(&self, out: &mut Vec<u8>) -> (r: Result<(), std::io::Error>)
        ensures
            r is Ok,
            exists|total: u64|
                (self.frozen_view() matches Some(ns) ==> total == ns) && final(out)@ == old(out)@
                    + vstd::utf8::encode_utf8(
                    #[trigger] timer_text(self.name_view(), total, self.checkpoints_view()),
                ),
    {
        let total = self.elapsed_ns();
        let mut buf = String::new();
        push_str(&mut buf, "timer \"");
        push_str(&mut buf, self.name.as_str());
        push_str(&mut buf, "\"  total=");
        push_str(&mut buf, format_ns(total).as_str());
        push_char(&mut buf, '\n');
        let ghost head = buf@;
        assert(head =~= timer_header(self.name_view(), total));
        let ghost cps = self.checkpoints@;
        let ghost rows = Seq::new(cps.len(), |i: int| timer_row(cps[i]));
        let mut i: usize = 0;
        while i < self.checkpoints.len()
            invariant
                cps == self.checkpoints@,
                rows == Seq::new(cps.len(), |i: int| timer_row(cps[i])),
                i <= cps.len(),
                buf@ == head + concat(rows.take(i as int)),
            decreases cps.len() - i,
        {
            assert(rows.take(i as int + 1).drop_last() == rows.take(i as int));
            let cp = &self.checkpoints[i];
            push_str(&mut buf, "  ");
            if cp.is_stop {
                let mut label = cp.label.clone();
                push_str(&mut label, " *");
                push_pad_right(&mut buf, label.as_str(), 18);
            } else {
                push_pad_right(&mut buf, cp.label.as_str(), 18);
            }
            push_str(&mut buf, "  +");
            push_pad_left(&mut buf, format_ns(cp.since_last_ns).as_str(), 8);
            push_str(&mut buf, "   ");
            push_pad_left(&mut buf, format_ns(cp.since_start_ns).as_str(), 8);
            push_char(&mut buf, '\n');
            assert(buf@ =~= head + concat(rows.take(i as int + 1)));
            i += 1;
        }
        assert(rows.take(cps.len() as int) == rows);
        assert(buf@ =~= timer_text(self.name_view(), total, self.checkpoints_view()));
        push_utf8(out, buf.as_str());
        Ok(())
    }
}

/// `timer "<name>"  total=<total>` and a line break.
pub open spec fn timer_header(name: Seq<char>, total: u64) -> Seq<char> {
    "timer \""@ + name + "\"  total="@ + format_ns_text(total as nat) + seq!['\n']
}

/// One checkpoint's line: label (with ` *` after a stop) left-aligned in 18,
/// then `+<since last>` and `<since start>`, each right-aligned in 8.
pub open spec fn timer_row(cp: SubMsTimerCheckpoint) -> Seq<char> {
    "  "@ + pad_right(
        if cp.is_stop {
            cp.label@ + " *"@
        } else {
            cp.label@
        },
        18,
    ) + "  +"@ + pad_left(format_ns_text(cp.since_last_ns as nat), 8) + "   "@ + pad_left(
        format_ns_text(cp.since_start_ns as nat),
        8,
    ) + seq!['\n']
}

/// The timeline a timer prints when its total reads `total`.
pub open spec fn timer_text(name: Seq<char>, total: u64, cps: Seq<SubMsTimerCheckpoint>) -> Seq<
    char,
> {
    timer_header(name, total) + concat(Seq::new(cps.len(), |i: int| timer_row(cps[i])))
}

} // verus!
