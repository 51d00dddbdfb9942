//! The harness: named stages that record nanosecond samples, the observer
//! hook, the coordinated-omission pacing state, and the run's identity
//! (workload, language, inputs, meta).

use std::sync::Arc;
use std::time::{Duration, Instant, SystemTime};

use vstd::prelude::*;

use crate::strmap::StrMap;
use crate::summary::SubMsBenchSummary;
use crate::text::{dec, push_char, push_dec, push_str};

verus! {

// ---------------------------------------------------------------------
// Clock
// ---------------------------------------------------------------------

#[verifier::external_type_specification]
#[verifier::external_body]
pub struct ExInstant(Instant);

/// `Instant::now`: the current reading of the monotonic clock. Nothing is
/// claimed of the value.
#[verifier::external_body]
pub(crate) fn instant_now() -> Instant {
    Instant::now()
}

/// `Instant::elapsed`: time passed since `t`. Nothing is claimed of the
/// value.
#[verifier::external_body]
pub(crate) fn instant_elapsed(t: &Instant) -> Duration {
    t.elapsed()
}

/// `Instant::duration_since` (saturating at zero when `earlier` is later).
/// Nothing is claimed of the value.
#[verifier::external_body]
pub(crate) fn instant_since(later: &Instant, earlier: &Instant) -> Duration {
    later.duration_since(*earlier)
}

/// `Duration::as_nanos`, narrowed to `u64` the way `as u64` does (keeping the
/// low 64 bits). Nothing is claimed of the value.
#[verifier::external_body]
pub(crate) fn duration_nanos_u64(d: &Duration) -> u64 {
    d.as_nanos() as u64
}

#[verifier::external_type_specification]
#[verifier::external_body]
pub struct ExSystemTime(SystemTime);

/// `SystemTime::now`: the current reading of the system clock. Nothing is
/// claimed of the value.
#[verifier::external_body]
pub(crate) fn system_now() -> SystemTime {
    SystemTime::now()
}

/// `SystemTime::duration_since(UNIX_EPOCH)`: the time since the Unix epoch,
/// `None` when the clock reads before it. Nothing is claimed of the value.
#[verifier::external_body]
pub(crate) fn since_unix_epoch(t: &SystemTime) -> Option<Duration> {
    match t.duration_since(std::time::UNIX_EPOCH) {
        Ok(d) => Some(d),
        Err(_) => None,
    }
}

/// `Duration::as_secs`: whole seconds. Nothing is claimed of the value.
#[verifier::external_body]
pub(crate) fn duration_secs(d: &Duration) -> u64 {
    d.as_secs()
}

/// Whole seconds since the Unix epoch on the system clock, `0` if the clock
/// reads before the epoch.
pub(crate) fn unix_time_secs() -> u64 {
    match since_unix_epoch(&system_now()) {
        Some(d) => duration_secs(&d),
        None => 0,
    }
}

/// Nanoseconds since `t` on the monotonic clock.
pub(crate) fn elapsed_ns_since(t: &Instant) -> u64 {
    let d = instant_elapsed(t);
    duration_nanos_u64(&d)
}

// ---------------------------------------------------------------------
// Observer
// ---------------------------------------------------------------------

/// What kind of operation a stage records. Observers use it to choose
/// histogram bucket boundaries that fit the measurement scale.
#[derive(Copy, Clone, Debug, Default, Eq, PartialEq, Structural)]
#[non_exhaustive]
pub enum SubMsStageKind {
    /// Per-request operations under a sub-ms p99 budget.
    HotPath,
    /// Whole-structure / O(n) operations that run rarely.
    BatchOp,
    /// Setup / teardown timings recorded once or a handful of times.
    OneShot,
    /// The default when a stage doesn't declare its kind.
    #[default]
    Unspecified,
}

impl SubMsStageKind {
    /// The snake_case identifier sibling adapters use as an attribute.
    pub open spec fn spec_str(self) -> Seq<char> {
        match self {
            SubMsStageKind::HotPath => "hot_path"@,
            SubMsStageKind::BatchOp => "batch_op"@,
            SubMsStageKind::OneShot => "one_shot"@,
            SubMsStageKind::Unspecified => "unspecified"@,
        }
    }

    /// Lowercase snake_case identifier (`hot_path`, `batch_op`, `one_shot`,
    /// `unspecified`).
    pub fn as_str(&self) -> (r: &'static str)
        ensures
            r@ == self.spec_str(),
    {
        match self {
            SubMsStageKind::HotPath => "hot_path",
            SubMsStageKind::BatchOp => "batch_op",
            SubMsStageKind::OneShot => "one_shot",
            SubMsStageKind::Unspecified => "unspecified",
        }
    }
}

/// Context passed to [`SubMsObserver::on_record`] for each recorded sample.
pub struct ObservationCtx<'a> {
    pub workload: &'a str,
    pub lang: &'a str,
    pub stage: &'a str,
    pub stage_kind: SubMsStageKind,
}

/// A hook registered against a harness to receive every recorded sample and
/// the post-bench summary. Both methods default to doing nothing.
pub trait SubMsObserver: Send + Sync {
    /// Called for each recorded sample.
    fn on_record(&self, ctx: &ObservationCtx, ns: u64) {
    }

    /// Called once when [`crate::summarize`] is invoked on the harness.
    fn on_summarize(&self, summary: &SubMsBenchSummary) {
    }
}

// ---------------------------------------------------------------------
// Stage
// ---------------------------------------------------------------------

/// Per-stage sample buffer and recorder.
pub struct SubMsStage {
    name: String,
    samples: Vec<u64>,
    kind: SubMsStageKind,
    workload: String,
    lang: String,
    observer: Option<Arc<dyn SubMsObserver>>,
}

impl SubMsStage {
    /// The stage's name.
    pub closed spec fn name_view(&self) -> Seq<char> {
        self.name@
    }

    /// The recorded samples, in recording order.
    pub closed spec fn samples_view(&self) -> Seq<u64> {
        self.samples@
    }

    /// The declared kind.
    pub closed spec fn kind_view(&self) -> SubMsStageKind {
        self.kind
    }

    /// The registered observer.
    pub closed spec fn observer_view(&self) -> Option<Arc<dyn SubMsObserver>> {
        self.observer
    }

    fn new(
        name: &str,
        workload: &str,
        lang: &str,
        observer: Option<Arc<dyn SubMsObserver>>,
    ) -> (s: Self)
        ensures
            s.name_view() == name@,
            s.samples_view() == Seq::<u64>::empty(),
            s.kind_view() == SubMsStageKind::Unspecified,
            s.observer_view() == observer,
    {
        SubMsStage {
            name: name.to_string(),
            samples: Vec::new(),
            kind: SubMsStageKind::Unspecified,
            workload: workload.to_string(),
            lang: lang.to_string(),
            observer,
        }
    }

    /// Annotate this stage's kind. Chainable.
    pub fn with_kind(&mut self, kind: SubMsStageKind) -> (r: &mut Self)
        ensures
            r.kind_view() == kind,
            r.name_view() == old(self).name_view(),
            r.samples_view() == old(self).samples_view(),
            r.observer_view() == old(self).observer_view(),
            *final(self) == *final(r),
    {
        self.kind = kind;
        self
    }

    /// Record an explicit duration in nanoseconds; also fires the registered
    /// observer, if any.
    pub fn record(&mut self, ns: u64)
        ensures
            final(self).samples_view() == old(self).samples_view().push(ns),
            final(self).name_view() == old(self).name_view(),
            final(self).kind_view() == old(self).kind_view(),
            final(self).observer_view() == old(self).observer_view(),
    {
        self.samples.push(ns);
        match &self.observer {
            Some(obs) => {
                let ctx = ObservationCtx {
                    workload: self.workload.as_str(),
                    lang: self.lang.as_str(),
                    stage: self.name.as_str(),
                    stage_kind: self.kind,
                };
                obs.on_record(&ctx, ns);
            },
            None => {},
        }
    }

    /// Time a closure and record its duration. The recorded value is whatever
    /// the clock reads; exactly one sample is appended.
    pub fn time<F: FnOnce() -> R, R>(&mut self, f: F) -> (r: R)
        requires
            f.requires(()),
        ensures
            f.ensures((), r),
            final(self).samples_view().len() == old(self).samples_view().len() + 1,
            final(self).samples_view().take(old(self).samples_view().len() as int) == old(
                self,
            ).samples_view(),
            final(self).name_view() == old(self).name_view(),
            final(self).kind_view() == old(self).kind_view(),
            final(self).observer_view() == old(self).observer_view(),
    {
        let t0 = instant_now();
        let r = f();
        let ns = elapsed_ns_since(&t0);
        self.record(ns);
        assert(self.samples_view().take(old(self).samples_view().len() as int) =~= old(
            self,
        ).samples_view());
        r
    }

    /// Run `op` for `warmup` untimed iterations (indices `0..warmup`), then
    /// time `measured` more (indices `0..measured`), recording one sample per
    /// measured call and none for the warmup.
    pub fn warm_then_time<F: FnMut(usize)>(&mut self, warmup: usize, measured: usize, mut op: F)
        requires
            forall|i: usize| op.requires((i,)),
        ensures
            final(self).samples_view().len() == old(self).samples_view().len() + measured,
            final(self).samples_view().take(old(self).samples_view().len() as int) == old(
                self,
            ).samples_view(),
            final(self).name_view() == old(self).name_view(),
            final(self).kind_view() == old(self).kind_view(),
            final(self).observer_view() == old(self).observer_view(),
    {
        let mut i: usize = 0;
        while i < warmup
            invariant
                forall|i: usize| op.requires((i,)),
            decreases warmup - i,
        {
            op(i);
            i += 1;
        }
        let ghost start = self.samples_view();
        let mut j: usize = 0;
        while j < measured
            invariant
                forall|i: usize| op.requires((i,)),
                j <= measured,
                self.samples_view().len() == start.len() + j,
                self.samples_view().take(start.len() as int) == start,
                start == old(self).samples_view(),
                self.name_view() == old(self).name_view(),
                self.kind_view() == old(self).kind_view(),
                self.observer_view() == old(self).observer_view(),
            decreases measured - j,
        {
            let t0 = instant_now();
            op(j);
            let ns = elapsed_ns_since(&t0);
            let ghost before = self.samples_view();
            self.record(ns);
            assert(self.samples_view().take(start.len() as int) =~= before.take(
                start.len() as int,
            ));
            j += 1;
        }
    }

    /// The stage's name.
    pub fn name(&self) -> (r: &str)
        ensures
            r@ == self.name_view(),
    {
        self.name.as_str()
    }

    /// The recorded samples.
    pub fn samples(&self) -> (r: &[u64])
        ensures
            r@ == self.samples_view(),
    {
        self.samples.as_slice()
    }

    fn set_observer(&mut self, observer: Option<Arc<dyn SubMsObserver>>)
        ensures
            final(self).observer_view() == observer,
            final(self).samples_view() == old(self).samples_view(),
            final(self).name_view() == old(self).name_view(),
            final(self).kind_view() == old(self).kind_view(),
    {
        self.observer = observer;
    }
}

// ---------------------------------------------------------------------
// Paced (coordinated-omission corrected) recording
// ---------------------------------------------------------------------

/// Coordinated-omission-corrected stage wrapper: operation `k` is due at
/// `k * interval_ns` after the start, and its latency is measured from that
/// intended start, so queue delay counts against the operation.
pub struct SubMsPacedStage<'a> {
    stage: &'a mut SubMsStage,
    interval_ns: u64,
    started_at: Instant,
    op_index: u64,
}

impl<'a> SubMsPacedStage<'a> {
    /// The operations timed so far.
    pub closed spec fn op_index_view(&self) -> u64 {
        self.op_index
    }

    /// The slot width.
    pub closed spec fn interval_view(&self) -> u64 {
        self.interval_ns
    }

    /// The samples of the wrapped stage.
    pub closed spec fn samples_view(&self) -> Seq<u64> {
        self.stage.samples_view()
    }

    /// Wrap `stage` with slots `interval_ns` apart (at least 1 ns), starting
    /// now.
    pub fn with_interval(stage: &'a mut SubMsStage, interval_ns: u64) -> (p: Self)
        ensures
            p.interval_view() == if interval_ns == 0 {
                1
            } else {
                interval_ns
            },
            p.op_index_view() == 0,
            p.samples_view() == old(stage).samples_view(),
    {
        let iv = if interval_ns == 0 {
            1
        } else {
            interval_ns
        };
        SubMsPacedStage { stage, interval_ns: iv, started_at: instant_now(), op_index: 0 }
    }

    /// Offset of the next operation's intended start from the start of the
    /// run: `op_index * interval_ns`, or `None` if that overflows `u64`.
    pub fn intended_offset_ns(&self) -> (r: Option<u64>)
        ensures
            match r {
                Some(v) => v == self.op_index_view() * self.interval_view(),
                None => self.op_index_view() * self.interval_view() > u64::MAX,
            },
    {
        self.op_index.checked_mul(self.interval_ns)
    }

    /// Nanoseconds since the paced run started.
    pub fn since_start_ns(&self) -> u64 {
        elapsed_ns_since(&self.started_at)
    }

    /// Record the operation that finished `end_offset_ns` after the start:
    /// the latency counted is the time since its intended start (zero if it
    /// finished before it), and the next operation's slot follows.
    pub fn complete(&mut self, end_offset_ns: u64)
        requires
            old(self).op_index_view() * old(self).interval_view() <= u64::MAX,
            old(self).op_index_view() < u64::MAX,
        ensures
            final(self).samples_view() == old(self).samples_view().push(
                if end_offset_ns >= old(self).op_index_view() * old(self).interval_view() {
                    (end_offset_ns - old(self).op_index_view() * old(self).interval_view()) as u64
                } else {
                    0u64
                },
            ),
            final(self).op_index_view() == old(self).op_index_view() + 1,
            final(self).interval_view() == old(self).interval_view(),
    {
        let intended = self.op_index * self.interval_ns;
        let latency = if end_offset_ns >= intended {
            end_offset_ns - intended
        } else {
            0
        };
        self.stage.record(latency);
        self.op_index = self.op_index + 1;
    }

    /// The operations timed so far.
    pub fn op_index(&self) -> (r: u64)
        ensures
            r == self.op_index_view(),
    {
        self.op_index
    }

    /// The slot width in nanoseconds.
    pub fn interval_ns(&self) -> (r: u64)
        ensures
            r == self.interval_view(),
    {
        self.interval_ns
    }
}

// ---------------------------------------------------------------------
// Harness
// ---------------------------------------------------------------------

/// The version stamped into every capture's `meta` as `harness_version`.
pub const HARNESS_VERSION: &'static str = "0.9.3";

/// A workload run: raw samples per stage plus the run's metadata.
pub struct SubMsPerfHarness {
    workload: String,
    lang: String,
    inputs: StrMap,
    meta: StrMap,
    stages: Vec<SubMsStage>,
    observer: Option<Arc<dyn SubMsObserver>>,
    sample_cap: usize,
}

/// Index of the first stage named `name`, if any.
pub open spec fn first_stage_named(stages: Seq<SubMsStage>, name: Seq<char>) -> Option<int> {
    if exists|i: int| 0 <= i < stages.len() && #[trigger] stages[i].name_view() == name {
        Some(
            choose|i: int|
                0 <= i < stages.len() && #[trigger] stages[i].name_view() == name && forall|
                    j: int,
                | 0 <= j < i ==> #[trigger] stages[j].name_view() != name,
        )
    } else {
        None
    }
}

impl SubMsPerfHarness {
    pub closed spec fn workload_view(&self) -> Seq<char> {
        self.workload@
    }

    pub closed spec fn lang_view(&self) -> Seq<char> {
        self.lang@
    }

    pub open spec fn inputs_view(&self) -> Map<Seq<char>, Seq<char>> {
        crate::strmap::entries_map(self.inputs_entries())
    }

    pub closed spec fn inputs_entries(&self) -> Seq<(Seq<char>, Seq<char>)> {
        self.inputs.entries_view()
    }

    pub open spec fn meta_view(&self) -> Map<Seq<char>, Seq<char>> {
        crate::strmap::entries_map(self.meta_entries())
    }

    pub closed spec fn meta_entries(&self) -> Seq<(Seq<char>, Seq<char>)> {
        self.meta.entries_view()
    }

    pub closed spec fn stages_view(&self) -> Seq<SubMsStage> {
        self.stages@
    }

    pub closed spec fn observer_view(&self) -> Option<Arc<dyn SubMsObserver>> {
        self.observer
    }

    pub closed spec fn sample_cap_view(&self) -> usize {
        self.sample_cap
    }

    /// A harness for `workload` in `lang`, with no stages, no inputs, a
    /// sample cap of 500 and `meta` holding the harness version.
    pub fn new(workload: &str, lang: &str) -> (h: Self)
        ensures
            h.workload_view() == workload@,
            h.lang_view() == lang@,
            h.inputs_view() == Map::<Seq<char>, Seq<char>>::empty(),
            h.meta_view() == Map::<Seq<char>, Seq<char>>::empty().insert(
                "harness_version"@,
                HARNESS_VERSION@,
            ),
            h.stages_view() == Seq::<SubMsStage>::empty(),
            h.observer_view() is None,
            h.sample_cap_view() == 500,
    {
        let inputs = StrMap::new();
        let mut meta = StrMap::new();
        assert(inputs.map_view() =~= Map::<Seq<char>, Seq<char>>::empty());
        assert(meta.map_view() =~= Map::<Seq<char>, Seq<char>>::empty());
        meta.insert("harness_version", HARNESS_VERSION);
        SubMsPerfHarness {
            workload: workload.to_string(),
            lang: lang.to_string(),
            inputs,
            meta,
            stages: Vec::new(),
            observer: None,
            sample_cap: 500,
        }
    }

    /// Max points kept in each stage's emitted `samples_ns` timeline, at
    /// least 1.
    pub fn set_sample_cap(&mut self, cap: usize) -> (r: &mut Self)
        ensures
            r.sample_cap_view() == if cap == 0 {
                1
            } else {
                cap
            },
            r.workload_view() == old(self).workload_view(),
            r.lang_view() == old(self).lang_view(),
            r.inputs_entries() == old(self).inputs_entries(),
            r.meta_entries() == old(self).meta_entries(),
            r.stages_view() == old(self).stages_view(),
            r.observer_view() == old(self).observer_view(),
            *final(self) == *final(r),
    {
        self.sample_cap = if cap == 0 {
            1
        } else {
            cap
        };
        self
    }

    /// The configured downsample cap.
    pub fn sample_cap(&self) -> (r: usize)
        ensures
            r == self.sample_cap_view(),
    {
        self.sample_cap
    }

    /// Set an input (replacing any earlier value under `key`).
    pub fn input(&mut self, key: &str, value: &str) -> (r: &mut Self)
        ensures
            r.inputs_view() == old(self).inputs_view().insert(key@, value@),
            r.workload_view() == old(self).workload_view(),
            r.lang_view() == old(self).lang_view(),
            r.meta_entries() == old(self).meta_entries(),
            r.stages_view() == old(self).stages_view(),
            r.observer_view() == old(self).observer_view(),
            r.sample_cap_view() == old(self).sample_cap_view(),
            *final(self) == *final(r),
    {
        self.inputs.insert(key, value);
        self
    }

    /// Set a meta field (replacing any earlier value under `key`).
    pub fn add_meta(&mut self, key: &str, value: &str) -> (r: &mut Self)
        ensures
            r.meta_view() == old(self).meta_view().insert(key@, value@),
            r.workload_view() == old(self).workload_view(),
            r.lang_view() == old(self).lang_view(),
            r.inputs_entries() == old(self).inputs_entries(),
            r.stages_view() == old(self).stages_view(),
            r.observer_view() == old(self).observer_view(),
            r.sample_cap_view() == old(self).sample_cap_view(),
            *final(self) == *final(r),
    {
        self.meta.insert(key, value);
        self
    }

    /// Create a stage named `name` (with no samples, kind `Unspecified`, the
    /// harness's observer) at the end of the stage list, and hand it back.
    /// `capacity` is a hint for the sample buffer.
    pub fn stage(&mut self, name: &str, capacity: usize) -> (r: &mut SubMsStage)
        ensures
            r.name_view() == name@,
            r.samples_view() == Seq::<u64>::empty(),
            r.kind_view() == SubMsStageKind::Unspecified,
            r.observer_view() == old(self).observer_view(),
            final(self).stages_view() == old(self).stages_view().push(*final(r)),
            final(self).workload_view() == old(self).workload_view(),
            final(self).lang_view() == old(self).lang_view(),
            final(self).inputs_entries() == old(self).inputs_entries(),
            final(self).meta_entries() == old(self).meta_entries(),
            final(self).observer_view() == old(self).observer_view(),
            final(self).sample_cap_view() == old(self).sample_cap_view(),
    {
        let obs = match &self.observer {
            Some(o) => Some(Arc::clone(o)),
            None => None,
        };
        let st = SubMsStage::new(name, self.workload.as_str(), self.lang.as_str(), obs);
        self.stages.push(st);
        let n = self.stages.len();
        &mut self.stages[n - 1]
    }

    /// Register (or, with `None`, clear) the observer. Already-created stages
    /// fire the new observer too.
    pub fn set_observer(&mut self, observer: Option<Arc<dyn SubMsObserver>>) -> (r: &mut Self)
        ensures
            r.observer_view() == observer,
            r.stages_view().len() == old(self).stages_view().len(),
            forall|i: int|
                0 <= i < r.stages_view().len() ==> {
                    &&& (#[trigger] r.stages_view()[i]).observer_view() == observer
                    &&& r.stages_view()[i].samples_view() == old(
                        self,
                    ).stages_view()[i].samples_view()
                    &&& r.stages_view()[i].name_view() == old(self).stages_view()[i].name_view()
                    &&& r.stages_view()[i].kind_view() == old(self).stages_view()[i].kind_view()
                },
            r.workload_view() == old(self).workload_view(),
            r.lang_view() == old(self).lang_view(),
            r.inputs_entries() == old(self).inputs_entries(),
            r.meta_entries() == old(self).meta_entries(),
            r.sample_cap_view() == old(self).sample_cap_view(),
            *final(self) == *final(r),
    {
        let n = self.stages.len();
        let mut i: usize = 0;
        while i < n
            invariant
                i <= n == self.stages@.len() == old(self).stages@.len(),
                forall|j: int|
                    0 <= j < n ==> {
                        &&& (#[trigger] self.stages@[j]).samples_view() == old(
                            self,
                        ).stages@[j].samples_view()
                        &&& self.stages@[j].name_view() == old(self).stages@[j].name_view()
                        &&& self.stages@[j].kind_view() == old(self).stages@[j].kind_view()
                        &&& j < i ==> self.stages@[j].observer_view() == observer
                    },
                self.workload == old(self).workload,
                self.lang == old(self).lang,
                self.inputs == old(self).inputs,
                self.meta == old(self).meta,
                self.sample_cap == old(self).sample_cap,
            decreases n - i,
        {
            let o = match &observer {
                Some(x) => Some(Arc::clone(x)),
                None => None,
            };
            self.stages[i].set_observer(o);
            i += 1;
        }
        self.observer = observer;
        self
    }

    /// Builder form of [`Self::set_observer`].
    pub fn with_observer(self, observer: Arc<dyn SubMsObserver>) -> (h: Self)
        ensures
            h.observer_view() == Some(observer),
            h.stages_view().len() == self.stages_view().len(),
            forall|i: int|
                0 <= i < h.stages_view().len() ==> {
                    &&& (#[trigger] h.stages_view()[i]).observer_view() == Some(observer)
                    &&& h.stages_view()[i].samples_view() == self.stages_view()[i].samples_view()
                    &&& h.stages_view()[i].name_view() == self.stages_view()[i].name_view()
                },
            h.workload_view() == self.workload_view(),
            h.lang_view() == self.lang_view(),
            h.inputs_entries() == self.inputs_entries(),
            h.meta_entries() == self.meta_entries(),
            h.sample_cap_view() == self.sample_cap_view(),
    {
        let mut h = self;
        let o = Some(observer);
        h.set_observer(o);
        h
    }

    /// The registered observer, if any.
    pub fn observer(&self) -> (r: Option<&Arc<dyn SubMsObserver>>)
        ensures
            r == match self.observer_view() {
                Some(o) => Some(&o),
                None => None,
            },
    {
        match &self.observer {
            Some(o) => Some(o),
            None => None,
        }
    }

    fn find_stage(&self, name: &str) -> (r: Option<usize>)
        ensures
            match r {
                Some(i) => i < self.stages_view().len() && first_stage_named(
                    self.stages_view(),
                    name@,
                ) == Some(i as int),
                None => first_stage_named(self.stages_view(), name@) is None,
            },
    {
        let mut i: usize = 0;
        while i < self.stages.len()
            invariant
                i <= self.stages@.len(),
                forall|j: int| 0 <= j < i ==> #[trigger] self.stages@[j].name_view() != name@,
            decreases self.stages@.len() - i,
        {
            if crate::text::str_eq(self.stages[i].name.as_str(), name) {
                proof {
                    let s = self.stages@;
                    let k = choose|k: int|
                        0 <= k < s.len() && #[trigger] s[k].name_view() == name@ && forall|
                            j: int,
                        | 0 <= j < k ==> #[trigger] s[j].name_view() != name@;
                    assert(s[i as int].name_view() == name@);
                    if k < i {
                        assert(s[k].name_view() != name@);
                    }
                    if k > i {
                        assert(s[i as int].name_view() != name@);
                    }
                }
                return Some(i);
            }
            i += 1;
        }
        None
    }

    /// The first stage named `name`, for recording into.
    pub fn stage_mut(&mut self, name: &str) -> (r: Option<&mut SubMsStage>)
        ensures
            match first_stage_named(old(self).stages_view(), name@) {
                Some(i) => r is Some && *r->0 == old(self).stages_view()[i]
                    && final(self).stages_view() == old(self).stages_view().update(
                    i,
                    *final(r->0),
                ),
                None => r is None && *final(self) == *old(self),
            },
            final(self).workload_view() == old(self).workload_view(),
            final(self).lang_view() == old(self).lang_view(),
            final(self).inputs_entries() == old(self).inputs_entries(),
            final(self).meta_entries() == old(self).meta_entries(),
            final(self).observer_view() == old(self).observer_view(),
            final(self).sample_cap_view() == old(self).sample_cap_view(),
    {
        match self.find_stage(name) {
            Some(i) => Some(&mut self.stages[i]),
            None => None,
        }
    }

    /// The first stage named `name`.
    pub fn stage_by_name(&self, name: &str) -> (r: Option<&SubMsStage>)
        ensures
            match first_stage_named(self.stages_view(), name@) {
                Some(i) => r == Some(&self.stages_view()[i]),
                None => r is None,
            },
    {
        match self.find_stage(name) {
            Some(i) => Some(&self.stages[i]),
            None => None,
        }
    }

    /// The stages, in registration order.
    pub fn stages(&self) -> (r: &[SubMsStage])
        ensures
            r@ == self.stages_view(),
    {
        self.stages.as_slice()
    }

    pub fn workload(&self) -> (r: &str)
        ensures
            r@ == self.workload_view(),
    {
        self.workload.as_str()
    }

    pub fn lang(&self) -> (r: &str)
        ensures
            r@ == self.lang_view(),
    {
        self.lang.as_str()
    }

    pub fn inputs(&self) -> (r: &StrMap)
        ensures
            r.map_view() == self.inputs_view(),
            r.entries_view() == self.inputs_entries(),
    {
        &self.inputs
    }

    pub fn meta(&self) -> (r: &StrMap)
        ensures
            r.map_view() == self.meta_view(),
            r.entries_view() == self.meta_entries(),
    {
        &self.meta
    }

    /// ISO-8601 seconds-precision UTC timestamp of the system clock at the
    /// time of the call.
    pub fn timestamp(&self) -> (r: String)
        ensures
            exists|secs: u64| r@ == iso8601(secs as nat),
    {
        iso8601_from_secs(unix_time_secs())
    }

    /// Drop every stage named `name`; the others keep their order.
    pub fn discard_stage(&mut self, name: &str)
        ensures
            final(self).stages_view() == old(self).stages_view().filter(
                |s: SubMsStage| s.name_view() != name@,
            ),
            final(self).workload_view() == old(self).workload_view(),
            final(self).lang_view() == old(self).lang_view(),
            final(self).inputs_entries() == old(self).inputs_entries(),
            final(self).meta_entries() == old(self).meta_entries(),
            final(self).observer_view() == old(self).observer_view(),
            final(self).sample_cap_view() == old(self).sample_cap_view(),
    {
        let mut old_stages: Vec<SubMsStage> = Vec::new();
        std::mem::swap(&mut old_stages, &mut self.stages);
        let ghost all = old_stages@;
        let ghost keep = |s: SubMsStage| s.name_view() != name@;
        let mut kept: Vec<SubMsStage> = Vec::new();
        let total = old_stages.len();
        let mut rest = old_stages;
        let mut taken: usize = 0;
        while rest.len() > 0
            invariant
                total == all.len(),
                keep == (|s: SubMsStage| s.name_view() != name@),
                taken + rest@.len() == all.len(),
                rest@ == all.subrange(taken as int, all.len() as int),
                kept@ == all.take(taken as int).filter(keep),
            decreases rest@.len(),
        {
            let s = rest.remove(0);
            assert(s == all[taken as int]);
            assert(rest@ =~= all.subrange(taken as int + 1, all.len() as int));
            let ghost t = all.take(taken as int + 1);
            assert(t.drop_last() =~= all.take(taken as int));
            assert(t.last() == s);
            let same = crate::text::str_eq(s.name.as_str(), name);
            assert(s.name@ == s.name_view());
            assert(keep(s) == (s.name_view() != name@));
            assert(same == !keep(s));
            assert(t.filter(keep) == if keep(s) {
                all.take(taken as int).filter(keep).push(s)
            } else {
                all.take(taken as int).filter(keep)
            }) by {
                reveal(Seq::filter);
            }
            if !same {
                kept.push(s);
            }
            taken += 1;
        }
        assert(all.take(all.len() as int) == all);
        self.stages = kept;
    }
}

// ---------------------------------------------------------------------
// Calendar
// ---------------------------------------------------------------------

pub open spec fn is_leap(y: nat) -> bool {
    (y % 4 == 0 && y % 100 != 0) || y % 400 == 0
}

pub open spec fn year_len(y: nat) -> nat {
    if is_leap(y) {
        366
    } else {
        365
    }
}

pub open spec fn month_len(y: nat, m: nat) -> nat {
    if m == 1 || m == 3 || m == 5 || m == 7 || m == 8 || m == 10 || m == 12 {
        31
    } else if m == 4 || m == 6 || m == 9 || m == 11 {
        30
    } else if m == 2 {
        if is_leap(y) {
            29
        } else {
            28
        }
    } else {
        0
    }
}

/// Walks whole years from `y`: the year `days` lands in and the day offset
/// within it.
pub open spec fn year_split(days: nat, y: nat) -> (nat, nat)
    decreases days,
{
    if days >= year_len(y) {
        year_split((days - year_len(y)) as nat, y + 1)
    } else {
        (y, days)
    }
}

/// Walks the months of year `y` from month `m`: the month a day offset lands
/// in and the day offset within it (month 1 if it runs past December).
pub open spec fn month_split(days: nat, y: nat, m: nat) -> (nat, nat)
    decreases 13 - m,
{
    if m > 12 {
        (1, days)
    } else if days < month_len(y, m) {
        (m, days)
    } else {
        month_split((days - month_len(y, m)) as nat, y, m + 1)
    }
}

/// `s` padded with leading zeros to `w` characters.
pub open spec fn zero_pad(s: Seq<char>, w: nat) -> Seq<char> {
    if s.len() >= w {
        s
    } else {
        Seq::new((w - s.len()) as nat, |i: int| '0') + s
    }
}

/// `YYYY-MM-DDTHH:MM:SSZ` for `secs` seconds after the Unix epoch (UTC).
pub open spec fn iso8601(secs: nat) -> Seq<char> {
    let days = secs / 86400;
    let rem = secs % 86400;
    let (year, in_year) = year_split(days, 1970);
    let (month, in_month) = month_split(in_year, year, 1);
    zero_pad(dec(year), 4) + seq!['-'] + zero_pad(dec(month), 2) + seq!['-'] + zero_pad(
        dec(in_month + 1),
        2,
    ) + seq!['T'] + zero_pad(dec(rem / 3600), 2) + seq![':'] + zero_pad(dec((rem % 3600) / 60), 2)
        + seq![':'] + zero_pad(dec(rem % 60), 2) + seq!['Z']
}

fn year_len_exec(y: u64) -> (r: u64)
    ensures
        r == year_len(y as nat),
{
    if (y % 4 == 0 && y % 100 != 0) || y % 400 == 0 {
        366
    } else {
        365
    }
}

fn month_len_exec(y: u64, m: u64) -> (r: u64)
    ensures
        r == month_len(y as nat, m as nat),
{
    if m == 1 || m == 3 || m == 5 || m == 7 || m == 8 || m == 10 || m == 12 {
        31
    } else if m == 4 || m == 6 || m == 9 || m == 11 {
        30
    } else if m == 2 {
        if (y % 4 == 0 && y % 100 != 0) || y % 400 == 0 {
            29
        } else {
            28
        }
    } else {
        0
    }
}

/// Appends `n` in decimal, padded with leading zeros to `w` characters.
pub fn push_zero_padded(out: &mut String, n: u64, w: usize)
    ensures
        final(out)@ == old(out)@ + zero_pad(dec(n as nat), w as nat),
{
    let s = crate::text::dec_string(n);
    let len = s.unicode_len();
    let mut i: usize = len;
    let ghost start = out@;
    while i < w
        invariant
            len == dec(n as nat).len(),
            len <= i,
            i <= w || len > w,
            len >= w ==> i == len,
            out@ == start + Seq::new((i - len) as nat, |k: int| '0'),
        decreases w - i,
    {
        push_char(out, '0');
        assert(start + Seq::new((i + 1 - len) as nat, |k: int| '0') =~= (start + Seq::new(
            (i - len) as nat,
            |k: int| '0',
        )).push('0'));
        i += 1;
    }
    push_str(out, s.as_str());
    if len >= w {
        assert(Seq::new((i - len) as nat, |k: int| '0') =~= Seq::<char>::empty());
        assert(out@ =~= old(out)@ + zero_pad(dec(n as nat), w as nat));
    } else {
        assert(out@ =~= old(out)@ + zero_pad(dec(n as nat), w as nat));
    }
}

proof fn lemma_year_split_bound(days: nat, y: nat)
    ensures
        year_split(days, y).0 <= y + days,
        year_split(days, y).0 >= y,
        year_split(days, y).1 <= days,
    decreases days,
{
    if days >= year_len(y) {
        lemma_year_split_bound((days - year_len(y)) as nat, y + 1);
    }
}

/// The ISO-8601 UTC rendering of `secs` seconds after the Unix epoch.
pub fn iso8601_from_secs(secs: u64) -> (r: String)
    ensures
        r@ == iso8601(secs as nat),
{
    let days0 = secs / 86400;
    let rem = secs % 86400;
    let mut days = days0;
    let mut year: u64 = 1970;
    proof {
        lemma_year_split_bound(days0 as nat, 1970);
    }
    while days >= year_len_exec(year)
        invariant
            year_split(days0 as nat, 1970) == year_split(days as nat, year as nat),
            year + days <= 1970 + days0,
            days0 <= u64::MAX / 86400,
        decreases days,
    {
        days = days - year_len_exec(year);
        year = year + 1;
    }
    let mut m: u64 = 1;
    let ghost in_year = days;
    while m <= 12 && days >= month_len_exec(year, m)
        invariant
            1 <= m <= 13,
            month_split(in_year as nat, year as nat, 1) == month_split(days as nat, year as nat, m as nat),
            days <= in_year,
        decreases 13 - m,
    {
        days = days - month_len_exec(year, m);
        m = m + 1;
    }
    let month: u64 = if m > 12 {
        1
    } else {
        m
    };
    assert(month_split(in_year as nat, year as nat, 1) == (month as nat, days as nat));
    let mut out = String::new();
    push_zero_padded(&mut out, year, 4);
    push_char(&mut out, '-');
    push_zero_padded(&mut out, month, 2);
    push_char(&mut out, '-');
    push_zero_padded(&mut out, days + 1, 2);
    push_char(&mut out, 'T');
    push_zero_padded(&mut out, rem / 3600, 2);
    push_char(&mut out, ':');
    push_zero_padded(&mut out, (rem % 3600) / 60, 2);
    push_char(&mut out, ':');
    push_zero_padded(&mut out, rem % 60, 2);
    push_char(&mut out, 'Z');
    assert(out@ =~= iso8601(secs as nat));
    out
}

// ---------------------------------------------------------------------
// key=value input
// ---------------------------------------------------------------------

/// The `key=value` pairs of `text`, one per line: blank lines and lines that
/// start with `#` (after trimming) are skipped, as are lines with no `=`;
/// key and value are trimmed; a later line wins for a repeated key.
pub fn parse_kv_lines(text: &str) -> (m: StrMap)
    ensures
        m.map_view() == kv_lines_map(text@),
{
    let v = crate::text::to_chars(text);
    let mut m = StrMap::new();
    assert(m.map_view() =~= Map::<Seq<char>, Seq<char>>::empty());
    let mut start: usize = 0;
    let mut i: usize = 0;
    assert(kv_fold(v@, 0) == kv_lines_map(text@)) by {
        assert(v@ == text@);
    }
    let ghost acc0 = Map::<Seq<char>, Seq<char>>::empty();
    while i <= v.len()
        invariant
            start <= i <= v@.len(),
            v@ == text@,
            kv_fold_from(v@, start as nat, m.map_view()) == kv_lines_map(text@),
            forall|k: int| start <= k < i ==> v@[k] != '\n',
        decreases v@.len() + 1 - i,
    {
        if i == v.len() || v[i] == '\n' {
            let line = crate::text::string_from_chars(&v, start, i);
            let ghost before = m.map_view();
            apply_kv_line(&mut m, line.as_str());
            proof {
                lemma_kv_fold_step(v@, start as nat, i as nat, before);
            }
            if i == v.len() {
                return m;
            }
            start = i + 1;
        }
        i += 1;
    }
    m
}

/// The map built from one line onward.
pub open spec fn kv_apply(acc: Map<Seq<char>, Seq<char>>, line: Seq<char>) -> Map<
    Seq<char>,
    Seq<char>,
> {
    let t = crate::text::trim(line);
    if t.len() == 0 || t[0] == '#' {
        acc
    } else {
        match first_index_of(t, '=') {
            Some(p) => acc.insert(
                crate::text::trim(t.take(p)),
                crate::text::trim(t.skip(p + 1)),
            ),
            None => acc,
        }
    }
}

/// The first position of `c` in `s`.
pub open spec fn first_index_of(s: Seq<char>, c: char) -> Option<int> {
    if exists|i: int| 0 <= i < s.len() && s[i] == c {
        Some(choose|i: int| 0 <= i < s.len() && s[i] == c && forall|j: int| 0 <= j < i ==> s[j] != c)
    } else {
        None
    }
}

/// The position of the first line break at or after `from`, or the end.
pub open spec fn line_end(s: Seq<char>, from: nat) -> nat
    decreases s.len() - from,
{
    if from >= s.len() || s[from as int] == '\n' {
        from
    } else {
        line_end(s, from + 1)
    }
}

/// Folds the lines of `s` starting at `from` into `acc`.
pub open spec fn kv_fold_from(s: Seq<char>, from: nat, acc: Map<Seq<char>, Seq<char>>) -> Map<
    Seq<char>,
    Seq<char>,
>
    decreases s.len() + 1 - from,
{
    if from > s.len() {
        acc
    } else {
        let e = line_end(s, from);
        proof {
            lemma_line_end_bounds(s, from);
        }
        let acc2 = kv_apply(acc, s.subrange(from as int, e as int));
        if e >= s.len() {
            acc2
        } else {
            kv_fold_from(s, e + 1, acc2)
        }
    }
}

pub open spec fn kv_fold(s: Seq<char>, from: nat) -> Map<Seq<char>, Seq<char>> {
    kv_fold_from(s, from, Map::empty())
}

/// The key/value map of a whole text (see [`parse_kv_lines`]).
pub open spec fn kv_lines_map(s: Seq<char>) -> Map<Seq<char>, Seq<char>> {
    kv_fold(s, 0)
}

/// Where a line that starts at `from` ends.
pub proof fn lemma_line_end_bounds(s: Seq<char>, from: nat)
    ensures
        from <= line_end(s, from),
        from <= s.len() ==> line_end(s, from) <= s.len(),
    decreases s.len() - from,
{
    if from < s.len() && s[from as int] != '\n' {
        lemma_line_end_bounds(s, from + 1);
    }
}

proof fn lemma_line_end(s: Seq<char>, from: nat, i: nat)
    requires
        from <= i <= s.len(),
        forall|k: int| from <= k < i ==> s[k] != '\n',
        i == s.len() || s[i as int] == '\n',
    ensures
        line_end(s, from) == i,
    decreases i - from,
{
    if from < i {
        lemma_line_end(s, from + 1, i);
    }
}

proof fn lemma_kv_fold_step(s: Seq<char>, from: nat, i: nat, acc: Map<Seq<char>, Seq<char>>)
    requires
        from <= i <= s.len(),
        forall|k: int| from <= k < i ==> s[k] != '\n',
        i == s.len() || s[i as int] == '\n',
    ensures
        i < s.len() ==> kv_fold_from(s, from, acc) == kv_fold_from(
            s,
            i + 1,
            kv_apply(acc, s.subrange(from as int, i as int)),
        ),
        i == s.len() ==> kv_fold_from(s, from, acc) == kv_apply(
            acc,
            s.subrange(from as int, i as int),
        ),
{
    lemma_line_end(s, from, i);
}

pub(crate) fn find_char(v: &Vec<char>, from: usize, to: usize, c: char) -> (r: Option<usize>)
    requires
        from <= to <= v@.len(),
    ensures
        match r {
            Some(p) => from <= p < to && v@[p as int] == c && forall|j: int|
                from <= j < p ==> v@[j] != c,
            None => forall|j: int| from <= j < to ==> v@[j] != c,
        },
{
    let mut i = from;
    while i < to
        invariant
            from <= i <= to <= v@.len(),
            forall|j: int| from <= j < i ==> v@[j] != c,
        decreases to - i,
    {
        if v[i] == c {
            return Some(i);
        }
        i += 1;
    }
    None
}

pub(crate) fn trimmed_string(v: &Vec<char>, from: usize, to: usize) -> (s: String)
    requires
        from <= to <= v@.len(),
    ensures
        s@ == crate::text::trim(v@.subrange(from as int, to as int)),
{
    let sub = crate::text::string_from_chars(v, from, to);
    let sv = crate::text::to_chars(sub.as_str());
    let (a, b) = crate::text::trim_bounds(&sv);
    crate::text::string_from_chars(&sv, a, b)
}

fn apply_kv_line(m: &mut StrMap, line: &str)
    ensures
        final(m).map_view() == kv_apply(old(m).map_view(), line@),
{
    let lv = crate::text::to_chars(line);
    let (a, b) = crate::text::trim_bounds(&lv);
    let ghost t = crate::text::trim(line@);
    assert(t == lv@.subrange(a as int, b as int));
    if a == b || lv[a] == '#' {
        return;
    }
    match find_char(&lv, a, b, '=') {
        Some(p) => {
            proof {
                let q = (p - a) as int;
                assert(t[q] == '=');
                assert forall|j: int| 0 <= j < q implies t[j] != '=' by {
                    assert(t[j] == lv@[a + j]);
                }
                assert(exists|i: int| 0 <= i < t.len() && t[i] == '=');
                let c = choose|i: int|
                    0 <= i < t.len() && t[i] == '=' && forall|j: int| 0 <= j < i ==> t[j] != '=';
                if c < q {
                    assert(t[c] == lv@[a + c]);
                }
                if c > q {
                    assert(t[q] != '=');
                }
                assert(first_index_of(t, '=') == Some(q));
                assert(t.take(q) == lv@.subrange(a as int, p as int));
                assert(t.skip(q + 1) == lv@.subrange(p + 1, b as int));
            }
            let k = trimmed_string(&lv, a, p);
            let v = trimmed_string(&lv, p + 1, b);
            m.insert(k.as_str(), v.as_str());
        },
        None => {
            proof {
                assert forall|i: int| 0 <= i < t.len() implies t[i] != '=' by {
                    assert(t[i] == lv@[a + i]);
                }
            }
        },
    }
}

} // verus!
