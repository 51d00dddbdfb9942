//! Recipes: the workloads a harness runs, and the parameters they share.

use vstd::prelude::*;

use crate::bench::sums_fit;
use crate::harness::{SubMsPerfHarness, SubMsStageKind, HARNESS_VERSION};
use crate::text::{dec, dec_string};

verus! {

/// Workload parameters. Each recipe reads `entries` in its own units.
#[derive(Debug, Clone)]
pub struct SubMsBenchParams {
    /// Work items per stage.
    pub entries: usize,
    /// Pre-timed warm-up iterations.
    pub warmup: usize,
    /// Deterministic RNG seed.
    pub seed: u64,
    /// Max points kept in each stage's emitted `samples_ns` timeline.
    pub sample_cap: usize,
}

impl SubMsBenchParams {
    /// The defaults: 50 000 entries, 5 000 warmup, seed 0, a cap of 500.
    pub open spec fn spec_default() -> SubMsBenchParams {
        SubMsBenchParams { entries: 50000, warmup: 5000, seed: 0, sample_cap: 500 }
    }
}

impl Default for SubMsBenchParams {
    fn default() -> (p: Self)
        ensures
            p == SubMsBenchParams::spec_default(),
    {
        SubMsBenchParams { entries: 50000, warmup: 5000, seed: 0, sample_cap: 500 }
    }
}

/// A workload. `run` records into the harness it is handed; the samples of
/// each stage it leaves must add up within `u64` (what the summary's mean
/// needs).
pub trait SubMsRecipe {
    /// What a run of this recipe does: handed `before` with `params`, it
    /// leaves `after`. An implementation that states nothing of its run
    /// keeps the default, which holds of every run; to a caller generic in
    /// the recipe it stays the recipe's own relation.
    open spec fn ran(&self, before: SubMsPerfHarness, params: SubMsBenchParams, after: SubMsPerfHarness) -> bool {
        true
    }

    /// Whether `name` is a name this recipe goes by. An implementation
    /// that states nothing of its name keeps the default, which holds of
    /// every name; to a caller generic in the recipe it stays the recipe's
    /// own relation.
    open spec fn named(&self, name: Seq<char>) -> bool {
        true
    }

    /// The recipe's name: the workload of the harness it is run in.
    fn name(&self) -> (r: &str)
        ensures
            self.named(r@),
    ;

    fn run(&self, h: &mut SubMsPerfHarness, params: &SubMsBenchParams)
        ensures
            sums_fit(*final(h)),
            self.ran(*old(h), *params, *final(h)),
    ;
}

/// The harness a recipe named `name` is run in: workload `name`, language
/// `rust`, inputs `entries`, `warmup` and `seed` in decimal, and the
/// parameters' sample cap (at least 1).
pub open spec fn prepared_for(h: SubMsPerfHarness, name: Seq<char>, p: SubMsBenchParams) -> bool {
    &&& h.workload_view() == name
    &&& h.lang_view() == "rust"@
    &&& h.inputs_view() == Map::<Seq<char>, Seq<char>>::empty().insert(
        "entries"@,
        dec(p.entries as nat),
    ).insert("warmup"@, dec(p.warmup as nat)).insert("seed"@, dec(p.seed as nat))
    &&& h.meta_view() == Map::<Seq<char>, Seq<char>>::empty().insert(
        "harness_version"@,
        HARNESS_VERSION@,
    )
    &&& h.stages_view() == Seq::<crate::harness::SubMsStage>::empty()
    &&& h.observer_view() is None
    &&& h.sample_cap_view() == if p.sample_cap == 0 {
        1
    } else {
        p.sample_cap
    }
}

/// A fresh harness for a recipe named `name`, set up from the parameters.
pub fn harness_for(name: &str, params: &SubMsBenchParams) -> (h: SubMsPerfHarness)
    ensures
        prepared_for(h, name@, *params),
{
    let mut h = SubMsPerfHarness::new(name, "rust");
    h.input("entries", dec_string(params.entries as u64).as_str());
    h.input("warmup", dec_string(params.warmup as u64).as_str());
    h.input("seed", dec_string(params.seed).as_str());
    h.set_sample_cap(params.sample_cap);
    h
}

/// `name` is a name of `recipe`, and `h` is what a run of `recipe` with
/// `params` leaves in the harness [`harness_for`] sets up for workload `name`.
pub open spec fn benchmarked<R: SubMsRecipe + ?Sized>(
    recipe: &R,
    name: Seq<char>,
    params: SubMsBenchParams,
    h: SubMsPerfHarness,
) -> bool {
    &&& recipe.named(name)
    &&& exists|h0: SubMsPerfHarness| prepared_for(h0, name, params) && recipe.ran(h0, params, h)
}

/// Run `recipe` in the harness [`harness_for`] sets up for the name the
/// recipe reports, and hand it back.
pub fn benchmark<R: SubMsRecipe + ?Sized>(recipe: &R, params: &SubMsBenchParams) -> (h:
    SubMsPerfHarness)
    ensures
        sums_fit(h),
        exists|name: Seq<char>| benchmarked(recipe, name, *params, h),
{
    let name = recipe.name();
    let mut h = harness_for(name, params);
    let ghost h0 = h;
    recipe.run(&mut h, params);
    assert(benchmarked(recipe, name@, *params, h));
    h
}

} // verus!
