//! Per-feature latency classification: a feature's category is decided from
//! a size sweep of its p99, and a feature's stages roll up to the most
//! restrictive one.

use vstd::prelude::*;

use crate::json::{
    lemma_obj_remove_keys, lemma_obj_set_keys, member_keys, other_than,
    find_member, json_view, lemma_members_view, lemma_obj_remove_get, lemma_obj_set_get,
    members_view, obj_get, obj_remove, obj_set, parse_json, remove_member, set_member, Json, JsonV,
};
use crate::json_round_trip::{
    lemma_dec_num_token, lemma_obj_remove_ok, lemma_obj_set_ok, lemma_obj_well_formed,
    lemma_parsed_well_formed, lemma_pretty_object_trims, lemma_pretty_parses_back, members_ok,
    well_formed,
};
use crate::keymap::KeyMap;
use crate::text::{dec, push_dec, push_dec_wide, push_str, str_eq, trimmed};
use crate::units::{
    f64_minus_one, f64_minus_one_exec, f64_of_int, f64_of_int_exec, f64_quotient_scaled,
    f64_quotient_scaled_exec, lemma_f64_of_int_mono, round_half_even,
};

verus! {

/// How a feature relates to the latency claim.
#[derive(Debug, Clone, Copy, PartialEq, Eq, Structural)]
pub enum SubMsFeatureCategory {
    /// Per-op, size-independent latency: a measured p99 claim.
    HotPath,
    /// O(n) whole-structure op: excluded from the per-op claim.
    Structure,
    /// No hot-path workload, or a measured non-effect: a capability.
    Auxiliary,
    /// Flat and per-op, but above the sub-ms claim line: reported, not
    /// claimed.
    Reported,
    /// Too close to a guard to call either way.
    Indeterminate,
}

impl SubMsFeatureCategory {
    /// The wire value.
    pub open spec fn spec_str(self) -> Seq<char> {
        match self {
            SubMsFeatureCategory::HotPath => "hot-path"@,
            SubMsFeatureCategory::Structure => "structural"@,
            SubMsFeatureCategory::Auxiliary => "auxiliary"@,
            SubMsFeatureCategory::Reported => "reported"@,
            SubMsFeatureCategory::Indeterminate => "indeterminate"@,
        }
    }

    /// `hot-path` / `structural` / `auxiliary` / `reported` /
    /// `indeterminate`.
    pub fn as_str(self) -> (r: &'static str)
        ensures
            r@ == self.spec_str(),
    {
        match self {
            SubMsFeatureCategory::HotPath => "hot-path",
            SubMsFeatureCategory::Structure => "structural",
            SubMsFeatureCategory::Auxiliary => "auxiliary",
            SubMsFeatureCategory::Reported => "reported",
            SubMsFeatureCategory::Indeterminate => "indeterminate",
        }
    }

    /// The category a wire value names, if any.
    pub open spec fn from_wire_spec(s: Seq<char>) -> Option<SubMsFeatureCategory> {
        if s == "hot-path"@ {
            Some(SubMsFeatureCategory::HotPath)
        } else if s == "structural"@ {
            Some(SubMsFeatureCategory::Structure)
        } else if s == "auxiliary"@ {
            Some(SubMsFeatureCategory::Auxiliary)
        } else if s == "reported"@ {
            Some(SubMsFeatureCategory::Reported)
        } else if s == "indeterminate"@ {
            Some(SubMsFeatureCategory::Indeterminate)
        } else {
            None
        }
    }

    /// Parse a wire value (exact match).
    pub fn from_wire(s: &str) -> (r: Option<SubMsFeatureCategory>)
        ensures
            r == Self::from_wire_spec(s@),
    {
        if str_eq(s, "hot-path") {
            Some(SubMsFeatureCategory::HotPath)
        } else if str_eq(s, "structural") {
            Some(SubMsFeatureCategory::Structure)
        } else if str_eq(s, "auxiliary") {
            Some(SubMsFeatureCategory::Auxiliary)
        } else if str_eq(s, "reported") {
            Some(SubMsFeatureCategory::Reported)
        } else if str_eq(s, "indeterminate") {
            Some(SubMsFeatureCategory::Indeterminate)
        } else {
            None
        }
    }

    /// How much a category restricts what the feature may claim.
    pub open spec fn restriction_spec(self) -> nat {
        match self {
            SubMsFeatureCategory::Auxiliary => 0,
            SubMsFeatureCategory::HotPath => 1,
            SubMsFeatureCategory::Structure => 2,
            SubMsFeatureCategory::Reported => 3,
            SubMsFeatureCategory::Indeterminate => 4,
        }
    }

    fn restriction(self) -> (r: u8)
        ensures
            r == self.restriction_spec(),
    {
        match self {
            SubMsFeatureCategory::Auxiliary => 0,
            SubMsFeatureCategory::HotPath => 1,
            SubMsFeatureCategory::Structure => 2,
            SubMsFeatureCategory::Reported => 3,
            SubMsFeatureCategory::Indeterminate => 4,
        }
    }
}

/// One stage of a feature, classified on its own measurements.
#[derive(Debug, Clone, PartialEq, Eq)]
pub struct SubMsStageClass {
    pub p99_ns: u64,
    pub category: SubMsFeatureCategory,
    pub reason: String,
}

/// The most restrictive of the categories (`Auxiliary` for none).
pub open spec fn rollup(cats: Seq<SubMsFeatureCategory>) -> SubMsFeatureCategory
    decreases cats.len(),
{
    if cats.len() == 0 {
        SubMsFeatureCategory::Auxiliary
    } else {
        let r = rollup(cats.drop_last());
        if cats.last().restriction_spec() >= r.restriction_spec() {
            cats.last()
        } else {
            r
        }
    }
}

/// The categories of the stages, in key order.
pub open spec fn stage_categories(e: Seq<(Seq<char>, SubMsStageClass)>) -> Seq<SubMsFeatureCategory> {
    e.map_values(|p: (Seq<char>, SubMsStageClass)| p.1.category)
}

/// Roll per-stage categories into the one a feature publishes: the most
/// restrictive stage wins; no stages read as `Auxiliary`.
pub fn roll_up_stages(stages: &KeyMap<SubMsStageClass>) -> (r: SubMsFeatureCategory)
    ensures
        r == rollup(stage_categories(stages.entries_view())),
{
    let ghost cats = stage_categories(stages.entries_view());
    let mut best = SubMsFeatureCategory::Auxiliary;
    let mut i: usize = 0;
    let n = stages.len();
    while i < n
        invariant
            n == stages.entries_view().len(),
            cats == stage_categories(stages.entries_view()),
            i <= n,
            best == rollup(cats.take(i as int)),
        decreases n - i,
    {
        let (_, st) = stages.entry(i);
        assert(cats.take(i as int + 1).drop_last() == cats.take(i as int));
        assert(cats[i as int] == st.category);
        if st.category.restriction() >= best.restriction() {
            best = st.category;
        }
        i += 1;
    }
    assert(cats.take(n as int) == cats);
    best
}

// ---------------------------------------------------------------------
// Classification
// ---------------------------------------------------------------------

/// Index of the first point with the smallest size.
pub open spec fn first_min(s: Seq<(usize, u64)>) -> int
    decreases s.len(),
{
    if s.len() <= 1 {
        0
    } else {
        let m = first_min(s.drop_last());
        if s.last().0 < s[m].0 {
            s.len() - 1
        } else {
            m
        }
    }
}

/// Index of the last point with the largest size.
pub open spec fn last_max(s: Seq<(usize, u64)>) -> int
    decreases s.len(),
{
    if s.len() <= 1 {
        0
    } else {
        let m = last_max(s.drop_last());
        if s.last().0 >= s[m].0 {
            s.len() - 1
        } else {
            m
        }
    }
}

/// `x` tenths written with one decimal.
pub open spec fn tenths_text(x: nat) -> Seq<char> {
    dec(x / 10) + seq!['.'] + dec(x % 10)
}

/// The tenths `{:.1}` prints of `n as f64 / d as f64` (`n >= d >= 1`).
pub open spec fn ratio_tenths(n: nat, d: nat) -> nat {
    f64_quotient_scaled(f64_of_int(n), f64_of_int(d), 10)
}

/// What `{:.0}` prints of `n as f64 / d as f64` (`n >= d >= 1`).
pub open spec fn ratio_units(n: nat, d: nat) -> nat {
    f64_quotient_scaled(f64_of_int(n), f64_of_int(d), 1)
}

/// The tenths `{:.1}` prints of `0.5 * (r - 1.0) + 1.0`, for the size
/// ratio `r = a as f64 / b as f64` (`a >= b >= 1`): the halving is exact,
/// the sum is rounded.
pub open spec fn needed_tenths(a: nat, b: nat) -> nat {
    let x = f64_minus_one(f64_of_int(a), f64_of_int(b));
    f64_quotient_scaled(x.0 + 2 * x.1, 2 * x.1, 10)
}

/// What `{:.0}` prints of `(f as f64 / b as f64 - 1.0) * 100.0`
/// (`f >= b >= 1`). Below 1 the rounded product lies on the same side of
/// one half as the exact one (the difference is a multiple of `2^-52`), so
/// the exact product is rounded there.
pub open spec fn excess_percent(f: nat, b: nat) -> nat {
    let x = f64_minus_one(f64_of_int(f), f64_of_int(b));
    if 100 * x.0 >= x.1 {
        f64_quotient_scaled(100 * x.0, x.1, 1)
    } else {
        round_half_even(100 * x.0, x.1)
    }
}

/// The category and reason for a sweep whose smallest size `b` measured
/// `q` and largest size `a` measured `p`, against an optional base op.
pub open spec fn classify_spec(
    sweep: Seq<(usize, u64)>,
    base: Option<u64>,
    ovr: Option<SubMsFeatureCategory>,
) -> (SubMsFeatureCategory, Seq<char>) {
    if ovr is Some {
        (ovr->0, "override: pinned "@ + ovr->0.spec_str())
    } else if sweep.len() == 0 {
        (SubMsFeatureCategory::Auxiliary, "no hot-path workload registered"@)
    } else {
        let b = sweep[first_min(sweep)].0 as int;
        let q = sweep[first_min(sweep)].1 as int;
        let a = sweep[last_max(sweep)].0 as int;
        let p = sweep[last_max(sweep)].1 as int;
        let sloped = a > b && q > 0;
        // margin = growth / needed = 2b(p - q) / (q(a - b))
        let x = q * (a - b);
        let y = b * (p - q);
        let ratio_text = tenths_text(ratio_tenths(p as nat, q as nat));
        let size_text = dec(ratio_units(a as nat, b as nat));
        if sloped && 3 * x <= 8 * y && 8 * y <= 5 * x {
            (
                SubMsFeatureCategory::Indeterminate,
                "p99 grew "@ + ratio_text + "x over "@ + size_text + "x N, against "@ + tenths_text(
                    needed_tenths(a as nat, b as nat),
                ) + "x needed for structural - too close to call"@,
            )
        } else if sloped && 2 * y >= x {
            (
                SubMsFeatureCategory::Structure,
                "p99 scales with size ("@ + ratio_text + "x over "@ + size_text
                    + "x N) - O(n)+, excluded from per-op claim"@,
            )
        } else {
            let f = if p >= q {
                p
            } else {
                q
            };
            if f > 1000000 {
                (
                    SubMsFeatureCategory::Reported,
                    "flat per-op p99 "@ + dec(f as nat)
                        + "ns, above the 1ms claim line - reported, not claimed"@,
                )
            } else if base matches Some(bs) && bs > 0 {
                let bs = base->0 as int;
                if 105 * bs <= 100 * f && 100 * f <= 115 * bs {
                    (
                        SubMsFeatureCategory::Indeterminate,
                        "flat p99 "@ + dec(f as nat) + "ns is "@ + dec(
                            excess_percent(f as nat, bs as nat),
                        ) + "% over base "@ + dec(bs as nat)
                            + "ns, against a 10% hot-path guard - too close to call"@,
                    )
                } else if 10 * f > 11 * bs {
                    (
                        SubMsFeatureCategory::HotPath,
                        "flat per-op p99 "@ + dec(f as nat) + "ns, above base "@ + dec(bs as nat)
                            + "ns"@,
                    )
                } else if f < bs {
                    (
                        SubMsFeatureCategory::Auxiliary,
                        "flat p99 "@ + dec(f as nat) + "ns, at or below base "@ + dec(bs as nat)
                            + "ns - no hot-path cost"@,
                    )
                } else {
                    (
                        SubMsFeatureCategory::Auxiliary,
                        "flat p99 "@ + dec(f as nat) + "ns within 10% of base "@ + dec(bs as nat)
                            + "ns - measured non-effect"@,
                    )
                }
            } else {
                (SubMsFeatureCategory::HotPath, "flat per-op p99 "@ + dec(f as nat) + "ns"@)
            }
        }
    }
}

/// `c * x` as two 64-bit limbs `(hi, lo)`.
fn scaled(c: u128, x: u128) -> (r: (u128, u128))
    requires
        c <= 16,
    ensures
        c * x == r.0 * 0x1_0000_0000_0000_0000 + r.1,
        r.1 < 0x1_0000_0000_0000_0000,
{
    let xh = x / 0x1_0000_0000_0000_0000;
    let xl = x % 0x1_0000_0000_0000_0000;
    assert(c * xl < 0x10_0000_0000_0000_0000) by (nonlinear_arith)
        requires
            c <= 16,
            xl < 0x1_0000_0000_0000_0000,
    ;
    let l = c * xl;
    let lo = l % 0x1_0000_0000_0000_0000;
    let carry = l / 0x1_0000_0000_0000_0000;
    assert(c * xh <= 16 * 0xffff_ffff_ffff_ffff) by (nonlinear_arith)
        requires
            c <= 16,
            xh == x / 0x1_0000_0000_0000_0000,
            x <= u128::MAX,
    ;
    let hi = c * xh + carry;
    assert(c * x == hi * 0x1_0000_0000_0000_0000 + lo) by (nonlinear_arith)
        requires
            x == xh * 0x1_0000_0000_0000_0000 + xl,
            l == c * xl,
            l == carry * 0x1_0000_0000_0000_0000 + lo,
            hi == c * xh + carry,
    ;
    (hi, lo)
}

/// Whether `c1 * x <= c2 * y`, exactly.
fn scaled_le(c1: u128, x: u128, c2: u128, y: u128) -> (r: bool)
    requires
        c1 <= 16,
        c2 <= 16,
    ensures
        r == (c1 * x <= c2 * y),
{
    let (h1, l1) = scaled(c1, x);
    let (h2, l2) = scaled(c2, y);
    if h1 < h2 {
        assert(c1 * x < c2 * y) by (nonlinear_arith)
            requires
                c1 * x == h1 * 0x1_0000_0000_0000_0000 + l1,
                c2 * y == h2 * 0x1_0000_0000_0000_0000 + l2,
                l1 < 0x1_0000_0000_0000_0000,
                h1 < h2,
        ;
        true
    } else if h1 > h2 {
        assert(c1 * x > c2 * y) by (nonlinear_arith)
            requires
                c1 * x == h1 * 0x1_0000_0000_0000_0000 + l1,
                c2 * y == h2 * 0x1_0000_0000_0000_0000 + l2,
                l2 < 0x1_0000_0000_0000_0000,
                h1 > h2,
        ;
        false
    } else {
        l1 <= l2
    }
}

fn push_tenths(out: &mut String, x: u128)
    ensures
        final(out)@ == old(out)@ + tenths_text(x as nat),
{
    push_dec_wide(out, x / 10);
    crate::text::push_char(out, '.');
    push_dec_wide(out, x % 10);
    assert(final(out)@ =~= old(out)@ + tenths_text(x as nat));
}

fn round_half_even_x(a: u128, d: u128) -> (r: u128)
    requires
        0 < d <= 0x1_0000_0000_0000_0000_0000_0000,
        a <= 0x1_0000_0000_0000_0000_0000_0000,
    ensures
        r == round_half_even(a as nat, d as nat),
{
    let q = a / d;
    let rem = a % d;
    assert(q <= a) by (nonlinear_arith)
        requires
            q == a / d,
            d > 0,
    ;
    if 2 * rem > d || (2 * rem == d && q % 2 == 1) {
        q + 1
    } else {
        q
    }
}

/// Decide a feature's category from a size sweep of `(structure_size,
/// p99_ns)` points: pinned by `override_category` if given; `Auxiliary` for
/// no points; between the smallest and the largest size, p99 growth close to
/// half the size growth is `Indeterminate`, at least half is `Structure`;
/// otherwise a flat p99 above 1 ms is `Reported`, and against a base p99 it
/// is `Indeterminate` within 5%..15% above it, `HotPath` more than 10% above
/// it, else `Auxiliary`; with no base, `HotPath`. The reason says why.
pub fn classify_feature(
    sweep: &[(usize, u64)],
    base_p99_ns: Option<u64>,
    override_category: Option<SubMsFeatureCategory>,
) -> (r: (SubMsFeatureCategory, String))
    ensures
        r.0 == classify_spec(sweep@, base_p99_ns, override_category).0,
        r.1@ == classify_spec(sweep@, base_p99_ns, override_category).1,
{
    let ghost spec = classify_spec(sweep@, base_p99_ns, override_category);
    if let Some(cat) = override_category {
        let mut m = String::new();
        push_str(&mut m, "override: pinned ");
        push_str(&mut m, cat.as_str());
        return (cat, m);
    }
    if sweep.len() == 0 {
        return (SubMsFeatureCategory::Auxiliary, "no hot-path workload registered".to_string());
    }
    let mut mi: usize = 0;
    let mut ma: usize = 0;
    let mut i: usize = 1;
    while i < sweep.len()
        invariant
            1 <= i <= sweep@.len(),
            mi == first_min(sweep@.take(i as int)),
            ma == last_max(sweep@.take(i as int)),
            mi < i,
            ma < i,
        decreases sweep@.len() - i,
    {
        let ghost t = sweep@.take(i as int + 1);
        assert(t.drop_last() == sweep@.take(i as int));
        assert(t[mi as int] == sweep@[mi as int]);
        assert(t[ma as int] == sweep@[ma as int]);
        if sweep[i].0 < sweep[mi].0 {
            mi = i;
        }
        if sweep[i].0 >= sweep[ma].0 {
            ma = i;
        }
        i += 1;
    }
    assert(sweep@.take(sweep@.len() as int) == sweep@);
    let b = sweep[mi].0 as u128;
    let q = sweep[mi].1 as u128;
    let a = sweep[ma].0 as u128;
    let p = sweep[ma].1 as u128;
    if a > b && q > 0 && p >= q {
        assert(q * (a - b) <= u128::MAX) by (nonlinear_arith)
            requires
                q <= u64::MAX,
                a - b <= u64::MAX,
        ;
        assert(b * (p - q) <= u128::MAX) by (nonlinear_arith)
            requires
                b <= u64::MAX,
                p - q <= u64::MAX,
        ;
        let x = q * (a - b);
        let y = b * (p - q);
        let band = scaled_le(3, x, 8, y) && scaled_le(8, y, 5, x);
        let structural = scaled_le(1, x, 2, y);
        if band || structural {
            assert(b > 0) by (nonlinear_arith)
                requires
                    3 * x <= 8 * y || 1 * x <= 2 * y,
                    x == q * (a - b),
                    y == b * (p - q),
                    q > 0,
                    a > b,
            ;
            let pf = f64_of_int_exec(p);
            let qf = f64_of_int_exec(q);
            let af = f64_of_int_exec(a);
            let bf = f64_of_int_exec(b);
            proof {
                lemma_f64_of_int_mono(q as nat, p as nat);
                lemma_f64_of_int_mono(b as nat, a as nat);
            }
            let ratio = f64_quotient_scaled_exec(pf, qf, 10);
            let size = f64_quotient_scaled_exec(af, bf, 1);
            let mut m = String::new();
            if band {
                push_str(&mut m, "p99 grew ");
                push_tenths(&mut m, ratio);
                push_str(&mut m, "x over ");
                push_dec_wide(&mut m, size);
                push_str(&mut m, "x N, against ");
                let (xn, xd) = f64_minus_one_exec(af, bf);
                let needed = f64_quotient_scaled_exec(xn + 2 * xd, 2 * xd, 10);
                push_tenths(&mut m, needed);
                push_str(&mut m, "x needed for structural - too close to call");
                assert(m@ =~= spec.1);
                return (SubMsFeatureCategory::Indeterminate, m);
            } else {
                push_str(&mut m, "p99 scales with size (");
                push_tenths(&mut m, ratio);
                push_str(&mut m, "x over ");
                push_dec_wide(&mut m, size);
                push_str(&mut m, "x N) - O(n)+, excluded from per-op claim");
                assert(m@ =~= spec.1);
                return (SubMsFeatureCategory::Structure, m);
            }
        }
    } else if a > b && q > 0 {
        assert(!(3 * (q * (a - b)) <= 8 * (b * (p - q)))) by (nonlinear_arith)
            requires
                a > b,
                q > 0,
                p < q,
        ;
        assert(!(2 * (b * (p - q)) >= q * (a - b))) by (nonlinear_arith)
            requires
                a > b,
                q > 0,
                p < q,
        ;
    }
    let f: u64 = if p >= q {
        p as u64
    } else {
        q as u64
    };
    if f > 1000000 {
        let mut m = String::new();
        push_str(&mut m, "flat per-op p99 ");
        push_dec(&mut m, f);
        push_str(&mut m, "ns, above the 1ms claim line - reported, not claimed");
        assert(m@ =~= spec.1);
        return (SubMsFeatureCategory::Reported, m);
    }
    match base_p99_ns {
        Some(bs) if bs > 0 => {
            let fw = f as u128;
            let bw = bs as u128;
            let mut m = String::new();
            if 105 * bw <= 100 * fw && 100 * fw <= 115 * bw {
                push_str(&mut m, "flat p99 ");
                push_dec(&mut m, f);
                push_str(&mut m, "ns is ");
                let ff = f64_of_int_exec(fw);
                let bf = f64_of_int_exec(bw);
                proof {
                    lemma_f64_of_int_mono(bw as nat, fw as nat);
                }
                let (xn, xd) = f64_minus_one_exec(ff, bf);
                let pct = if 100 * xn >= xd {
                    f64_quotient_scaled_exec(100 * xn, xd, 1)
                } else {
                    round_half_even_x(100 * xn, xd)
                };
                push_dec_wide(&mut m, pct);
                push_str(&mut m, "% over base ");
                push_dec(&mut m, bs);
                push_str(&mut m, "ns, against a 10% hot-path guard - too close to call");
                assert(m@ =~= spec.1);
                (SubMsFeatureCategory::Indeterminate, m)
            } else if 10 * fw > 11 * bw {
                push_str(&mut m, "flat per-op p99 ");
                push_dec(&mut m, f);
                push_str(&mut m, "ns, above base ");
                push_dec(&mut m, bs);
                push_str(&mut m, "ns");
                assert(m@ =~= spec.1);
                (SubMsFeatureCategory::HotPath, m)
            } else if f < bs {
                push_str(&mut m, "flat p99 ");
                push_dec(&mut m, f);
                push_str(&mut m, "ns, at or below base ");
                push_dec(&mut m, bs);
                push_str(&mut m, "ns - no hot-path cost");
                assert(m@ =~= spec.1);
                (SubMsFeatureCategory::Auxiliary, m)
            } else {
                push_str(&mut m, "flat p99 ");
                push_dec(&mut m, f);
                push_str(&mut m, "ns within 10% of base ");
                push_dec(&mut m, bs);
                push_str(&mut m, "ns - measured non-effect");
                assert(m@ =~= spec.1);
                (SubMsFeatureCategory::Auxiliary, m)
            }
        },
        _ => {
            let mut m = String::new();
            push_str(&mut m, "flat per-op p99 ");
            push_dec(&mut m, f);
            push_str(&mut m, "ns");
            assert(m@ =~= spec.1);
            (SubMsFeatureCategory::HotPath, m)
        },
    }
}

// ---------------------------------------------------------------------
// p99 provenance
// ---------------------------------------------------------------------

/// Which box a manifest's p99 figures were measured on.
#[derive(Clone, Copy, PartialEq, Eq, Debug, Structural)]
pub enum SubMsP99Source {
    /// A dev machine: the category holds, the numbers do not.
    Local,
    /// The conformance fleet box.
    Fleet,
}

impl SubMsP99Source {
    /// The wire token.
    pub open spec fn spec_str(self) -> Seq<char> {
        match self {
            SubMsP99Source::Local => "local"@,
            SubMsP99Source::Fleet => "fleet"@,
        }
    }

    /// `local` / `fleet`.
    pub fn as_str(self) -> (r: &'static str)
        ensures
            r@ == self.spec_str(),
    {
        match self {
            SubMsP99Source::Local => "local",
            SubMsP99Source::Fleet => "fleet",
        }
    }

    /// `Fleet` for exactly `fleet`, `Local` for anything else.
    pub open spec fn from_wire_spec(s: Seq<char>) -> SubMsP99Source {
        if s == "fleet"@ {
            SubMsP99Source::Fleet
        } else {
            SubMsP99Source::Local
        }
    }

    /// Parse a wire token; anything unrecognised reads as `Local`.
    pub fn from_wire(s: &str) -> (r: Self)
        ensures
            r == Self::from_wire_spec(s@),
    {
        if str_eq(s, "fleet") {
            SubMsP99Source::Fleet
        } else {
            SubMsP99Source::Local
        }
    }

    /// Provenance from the value of `SUBMS_FLEET_INSTANCE` (`None` when
    /// unset): `(Fleet, Some(id))` with the trimmed id when it is not blank,
    /// `(Local, None)` otherwise.
    pub fn from_env(value: Option<&str>) -> (r: (Self, Option<String>))
        ensures
            match value {
                Some(v) if crate::text::trim(v@).len() > 0 => r.0 == SubMsP99Source::Fleet && (
                r.1 matches Some(id) && id@ == crate::text::trim(v@)),
                _ => r.0 == SubMsP99Source::Local && r.1 is None,
            },
    {
        match value {
            Some(v) => {
                let t = trimmed(v);
                if t.unicode_len() > 0 {
                    (SubMsP99Source::Fleet, Some(t))
                } else {
                    (SubMsP99Source::Local, None)
                }
            },
            None => (SubMsP99Source::Local, None),
        }
    }
}

// ---------------------------------------------------------------------
// The feature manifest
// ---------------------------------------------------------------------

/// A manifest's provenance for this run, as values.
pub open spec fn run_of(run: Option<(SubMsP99Source, Option<String>)>) -> Option<
    (SubMsP99Source, Option<Seq<char>>),
> {
    match run {
        Some((s, r)) => Some(
            (
                s,
                match r {
                    Some(x) => Some(x@),
                    None => None,
                },
            ),
        ),
        None => None,
    }
}

/// The value of member `key` of `v`, when `v` is an object that has one.
pub open spec fn jget(v: JsonV, key: Seq<char>) -> Option<JsonV> {
    match v {
        JsonV::Obj(p) => obj_get(p, key),
        _ => None,
    }
}

/// `p99ByStage` rows: each stage's p99 as a number.
pub open spec fn p99_rows(p99: Seq<(Seq<char>, u64)>) -> Seq<(Seq<char>, JsonV)> {
    p99.map_values(|e: (Seq<char>, u64)| (e.0, JsonV::Num(dec(e.1 as nat))))
}

/// A feature entry stamped with this run's provenance: `p99Source` (and
/// `p99SourceRef` for a fleet box with a non-empty reference) when declared,
/// both dropped when not.
pub open spec fn stamped(e: Seq<(Seq<char>, JsonV)>, run: Option<(SubMsP99Source, Option<Seq<char>>)>) -> Seq<(Seq<char>, JsonV)> {
    match run {
        Some((src, r)) => {
            let e1 = obj_set(e, "p99Source"@, JsonV::Str(src.spec_str()));
            if src == SubMsP99Source::Fleet && (r matches Some(x) && x.len() > 0) {
                obj_set(e1, "p99SourceRef"@, JsonV::Str(r->0))
            } else {
                obj_remove(e1, "p99SourceRef"@)
            }
        },
        None => obj_remove(obj_remove(e, "p99Source"@), "p99SourceRef"@),
    }
}

/// A feature entry after a rating: `perf`, `perfReason`, `p99ByStage` (set
/// from non-empty rows, dropped for none) and the provenance stamp; every
/// other member kept in place.
pub open spec fn rated(
    e: Seq<(Seq<char>, JsonV)>,
    cat: SubMsFeatureCategory,
    rows: Seq<(Seq<char>, JsonV)>,
    reason: Seq<char>,
    run: Option<(SubMsP99Source, Option<Seq<char>>)>,
) -> Seq<(Seq<char>, JsonV)> {
    let e1 = obj_set(obj_set(e, "perf"@, JsonV::Str(cat.spec_str())), "perfReason"@, JsonV::Str(reason));
    let e2 = if rows.len() == 0 {
        obj_remove(e1, "p99ByStage"@)
    } else {
        obj_set(e1, "p99ByStage"@, JsonV::Obj(rows))
    };
    stamped(e2, run)
}

/// The top level with a `features` member (an empty object is added when
/// there is none).
pub open spec fn with_features(top: Seq<(Seq<char>, JsonV)>) -> Seq<(Seq<char>, JsonV)> {
    if obj_get(top, "features"@) is None {
        obj_set(top, "features"@, JsonV::Obj(Seq::empty()))
    } else {
        top
    }
}

/// The features object with an entry for `name` (an empty object is added
/// when there is none).
pub open spec fn with_entry(f: Seq<(Seq<char>, JsonV)>, name: Seq<char>) -> Seq<(Seq<char>, JsonV)> {
    if obj_get(f, name) is None {
        obj_set(f, name, JsonV::Obj(Seq::empty()))
    } else {
        f
    }
}

/// The document after rating feature `name`: the `features` object and the
/// entry are created when missing; when either is not an object, nothing
/// past it changes.
pub open spec fn set_feature_root(
    root: JsonV,
    name: Seq<char>,
    cat: SubMsFeatureCategory,
    rows: Seq<(Seq<char>, JsonV)>,
    reason: Seq<char>,
    run: Option<(SubMsP99Source, Option<Seq<char>>)>,
) -> JsonV {
    match root {
        JsonV::Obj(top) => {
            let top1 = with_features(top);
            match obj_get(top1, "features"@) {
                Some(JsonV::Obj(f)) => {
                    let f1 = with_entry(f, name);
                    match obj_get(f1, name) {
                        Some(JsonV::Obj(e)) => JsonV::Obj(
                            obj_set(
                                top1,
                                "features"@,
                                JsonV::Obj(obj_set(f1, name, JsonV::Obj(rated(e, cat, rows, reason, run)))),
                            ),
                        ),
                        _ => JsonV::Obj(obj_set(top1, "features"@, JsonV::Obj(f1))),
                    }
                },
                _ => JsonV::Obj(top1),
            }
        },
        _ => root,
    }
}

/// The entry a document holds for feature `name`.
pub open spec fn feature_entry(root: JsonV, name: Seq<char>) -> Option<JsonV> {
    match jget(root, "features"@) {
        Some(f) => jget(f, name),
        None => None,
    }
}

/// The category a document records for feature `name`.
pub open spec fn category_in(root: JsonV, name: Seq<char>) -> Option<SubMsFeatureCategory> {
    match feature_entry(root, name) {
        Some(e) => match jget(e, "perf"@) {
            Some(JsonV::Str(s)) => SubMsFeatureCategory::from_wire_spec(s),
            _ => None,
        },
        None => None,
    }
}

/// The provenance a document records; unstamped reads as `Local`.
pub open spec fn source_in(root: JsonV) -> SubMsP99Source {
    match jget(root, "p99_source"@) {
        Some(JsonV::Str(s)) => SubMsP99Source::from_wire_spec(s),
        _ => SubMsP99Source::Local,
    }
}

/// The fleet reference a document records.
pub open spec fn source_ref_in(root: JsonV) -> Option<Seq<char>> {
    match jget(root, "p99_source_ref"@) {
        Some(JsonV::Str(s)) => Some(s),
        _ => None,
    }
}

/// A document a rating of `name` can be merged into: an object whose
/// `features` member, and that feature's entry, are objects where present.
pub open spec fn mergeable(root: JsonV, name: Seq<char>) -> bool {
    &&& root is Obj
    &&& match jget(root, "features"@) {
        Some(f) => f is Obj && match jget(f, name) {
            Some(e) => e is Obj,
            None => true,
        },
        None => true,
    }
}

/// The 1 ms claim line: a per-op figure above it is never claimed. Of a
/// sweep (no override), take the p99 at the smallest size and at the
/// largest; when the larger of the two exceeds 1_000_000 ns the category is
/// `Reported`, unless the p99 rose with size (larger size, non-zero p99 at
/// the smaller) and the slope made it `Indeterminate` or `Structure`. So a
/// feature is `HotPath` or `Auxiliary` only when that p99 is at most 1 ms.
pub proof fn lemma_claim_line(sweep: Seq<(usize, u64)>, base: Option<u64>)
    requires
        sweep.len() > 0,
    ensures
        ({
            let lo = sweep[first_min(sweep)];
            let hi = sweep[last_max(sweep)];
            let f = if hi.1 >= lo.1 {
                hi.1
            } else {
                lo.1
            };
            let cat = classify_spec(sweep, base, None).0;
            &&& f > 1_000_000 ==> (cat == SubMsFeatureCategory::Reported || (hi.0 > lo.0 && lo.1 > 0
                && hi.1 > lo.1 && (cat == SubMsFeatureCategory::Indeterminate || cat
                == SubMsFeatureCategory::Structure)))
            &&& (cat == SubMsFeatureCategory::HotPath || cat == SubMsFeatureCategory::Auxiliary) ==> f
                <= 1_000_000
        }),
{
    let b = sweep[first_min(sweep)].0 as int;
    let q = sweep[first_min(sweep)].1 as int;
    let a = sweep[last_max(sweep)].0 as int;
    let p = sweep[last_max(sweep)].1 as int;
    let x = q * (a - b);
    let y = b * (p - q);
    if a > b && q > 0 {
        assert(x > 0) by (nonlinear_arith)
            requires
                a > b,
                q > 0,
                x == q * (a - b),
        ;
        if y > 0 {
            assert(p > q) by (nonlinear_arith)
                requires
                    y == b * (p - q),
                    y > 0,
                    b >= 0,
            ;
        }
    }
}

/// Every category survives the trip through its wire value.
pub proof fn lemma_category_wire_round_trip(c: SubMsFeatureCategory)
    ensures
        SubMsFeatureCategory::from_wire_spec(c.spec_str()) == Some(c),
{
    reveal_strlit("hot-path");
    reveal_strlit("structural");
    reveal_strlit("auxiliary");
    reveal_strlit("reported");
    reveal_strlit("indeterminate");
    assert("hot-path"@[0] != "structural"@[0]);
    assert("hot-path"@[0] != "auxiliary"@[0]);
    assert("hot-path"@[0] != "reported"@[0]);
    assert("hot-path"@[0] != "indeterminate"@[0]);
    assert("structural"@[0] != "auxiliary"@[0]);
    assert("structural"@[0] != "reported"@[0]);
    assert("structural"@[0] != "indeterminate"@[0]);
    assert("auxiliary"@[0] != "reported"@[0]);
    assert("auxiliary"@[0] != "indeterminate"@[0]);
    assert("reported"@[0] != "indeterminate"@[0]);
}

/// Every provenance survives the trip through its wire token.
pub proof fn lemma_source_wire_round_trip(s: SubMsP99Source)
    ensures
        SubMsP99Source::from_wire_spec(s.spec_str()) == s,
{
    reveal_strlit("local");
    reveal_strlit("fleet");
    assert("local"@[0] != "fleet"@[0]);
}

proof fn lemma_rated_perf(
    e: Seq<(Seq<char>, JsonV)>,
    cat: SubMsFeatureCategory,
    rows: Seq<(Seq<char>, JsonV)>,
    reason: Seq<char>,
    run: Option<(SubMsP99Source, Option<Seq<char>>)>,
)
    ensures
        obj_get(rated(e, cat, rows, reason, run), "perf"@) == Some(JsonV::Str(cat.spec_str())),
{
    reveal_strlit("perf");
    reveal_strlit("perfReason");
    reveal_strlit("p99ByStage");
    reveal_strlit("p99Source");
    reveal_strlit("p99SourceRef");
    let k = "perf"@;
    assert(k.len() != "perfReason"@.len());
    assert(k[1] != "p99ByStage"@[1]);
    assert(k[1] != "p99Source"@[1]);
    assert(k[1] != "p99SourceRef"@[1]);
    let e0 = obj_set(e, k, JsonV::Str(cat.spec_str()));
    lemma_obj_set_get(e, k, JsonV::Str(cat.spec_str()), k);
    let e1 = obj_set(e0, "perfReason"@, JsonV::Str(reason));
    lemma_obj_set_get(e0, "perfReason"@, JsonV::Str(reason), k);
    let e2 = if rows.len() == 0 {
        obj_remove(e1, "p99ByStage"@)
    } else {
        obj_set(e1, "p99ByStage"@, JsonV::Obj(rows))
    };
    lemma_obj_remove_get(e1, "p99ByStage"@, k);
    lemma_obj_set_get(e1, "p99ByStage"@, JsonV::Obj(rows), k);
    assert(obj_get(e2, k) == obj_get(e0, k));
    match run {
        Some((src, r)) => {
            let e3 = obj_set(e2, "p99Source"@, JsonV::Str(src.spec_str()));
            lemma_obj_set_get(e2, "p99Source"@, JsonV::Str(src.spec_str()), k);
            if src == SubMsP99Source::Fleet && (r matches Some(x) && x.len() > 0) {
                lemma_obj_set_get(e3, "p99SourceRef"@, JsonV::Str(r->0), k);
            } else {
                lemma_obj_remove_get(e3, "p99SourceRef"@, k);
            }
        },
        None => {
            let e3 = obj_remove(e2, "p99Source"@);
            lemma_obj_remove_get(e2, "p99Source"@, k);
            lemma_obj_remove_get(e3, "p99SourceRef"@, k);
        },
    }
}

proof fn lemma_rated_rows(
    e: Seq<(Seq<char>, JsonV)>,
    cat: SubMsFeatureCategory,
    rows: Seq<(Seq<char>, JsonV)>,
    reason: Seq<char>,
    run: Option<(SubMsP99Source, Option<Seq<char>>)>,
)
    ensures
        obj_get(rated(e, cat, rows, reason, run), "p99ByStage"@) == if rows.len() == 0 {
            None
        } else {
            Some(JsonV::Obj(rows))
        },
{
    reveal_strlit("perf");
    reveal_strlit("perfReason");
    reveal_strlit("p99ByStage");
    reveal_strlit("p99Source");
    reveal_strlit("p99SourceRef");
    let k = "p99ByStage"@;
    assert(k.len() != "perf"@.len());
    assert(k[1] != "perfReason"@[1]);
    assert(k.len() != "p99Source"@.len());
    assert(k.len() != "p99SourceRef"@.len());
    let e0 = obj_set(e, "perf"@, JsonV::Str(cat.spec_str()));
    let e1 = obj_set(e0, "perfReason"@, JsonV::Str(reason));
    let e2 = if rows.len() == 0 {
        obj_remove(e1, k)
    } else {
        obj_set(e1, k, JsonV::Obj(rows))
    };
    lemma_obj_remove_get(e1, k, k);
    lemma_obj_set_get(e1, k, JsonV::Obj(rows), k);
    match run {
        Some((src, r)) => {
            let e3 = obj_set(e2, "p99Source"@, JsonV::Str(src.spec_str()));
            lemma_obj_set_get(e2, "p99Source"@, JsonV::Str(src.spec_str()), k);
            if src == SubMsP99Source::Fleet && (r matches Some(x) && x.len() > 0) {
                lemma_obj_set_get(e3, "p99SourceRef"@, JsonV::Str(r->0), k);
            } else {
                lemma_obj_remove_get(e3, "p99SourceRef"@, k);
            }
        },
        None => {
            let e3 = obj_remove(e2, "p99Source"@);
            lemma_obj_remove_get(e2, "p99Source"@, k);
            lemma_obj_remove_get(e3, "p99SourceRef"@, k);
        },
    }
}

/// Read after write: once a feature is rated in a document it can be
/// merged into, the document records that category for it.
pub proof fn lemma_set_feature_reads_back(
    root: JsonV,
    name: Seq<char>,
    cat: SubMsFeatureCategory,
    rows: Seq<(Seq<char>, JsonV)>,
    reason: Seq<char>,
    run: Option<(SubMsP99Source, Option<Seq<char>>)>,
)
    requires
        mergeable(root, name),
    ensures
        category_in(set_feature_root(root, name, cat, rows, reason, run), name) == Some(cat),
{
    reveal_strlit("features");
    let top = root->Obj_0;
    let fk = "features"@;
    let top1 = with_features(top);
    lemma_obj_set_get(top, fk, JsonV::Obj(Seq::empty()), fk);
    let f = obj_get(top1, fk)->0->Obj_0;
    let f1 = with_entry(f, name);
    lemma_obj_set_get(f, name, JsonV::Obj(Seq::empty()), name);
    let e = obj_get(f1, name)->0->Obj_0;
    let re = rated(e, cat, rows, reason, run);
    let f2 = obj_set(f1, name, JsonV::Obj(re));
    lemma_obj_set_get(f1, name, JsonV::Obj(re), name);
    lemma_obj_set_get(top1, fk, JsonV::Obj(f2), fk);
    lemma_rated_perf(e, cat, rows, reason, run);
    lemma_category_wire_round_trip(cat);
}

/// The category a document records for stage `stage` of feature `name`.
pub open spec fn stage_category_in(root: JsonV, name: Seq<char>, stage: Seq<char>) -> Option<
    SubMsFeatureCategory,
> {
    match feature_entry(root, name) {
        Some(e) => match jget(e, "stages"@) {
            Some(sts) => match jget(sts, stage) {
                Some(st) => match jget(st, "perf"@) {
                    Some(JsonV::Str(s)) => SubMsFeatureCategory::from_wire_spec(s),
                    _ => None,
                },
                None => None,
            },
            None => None,
        },
        None => None,
    }
}

proof fn lemma_key_index_is(p: Seq<(Seq<char>, JsonV)>, key: Seq<char>, k: int)
    requires
        0 <= k < p.len(),
        p[k].0 == key,
        forall|t: int| 0 <= t < k ==> p[t].0 != key,
    ensures
        crate::json::key_index(p, key) == Some(k),
{
    crate::json::lemma_key_index_from(p, key, 0);
}

/// After a rating, the document has a `features` object with an object
/// entry for the feature.
proof fn lemma_set_feature_shape(
    root: JsonV,
    name: Seq<char>,
    cat: SubMsFeatureCategory,
    rows: Seq<(Seq<char>, JsonV)>,
    reason: Seq<char>,
    run: Option<(SubMsP99Source, Option<Seq<char>>)>,
)
    requires
        mergeable(root, name),
    ensures
        ({
            let r1 = set_feature_root(root, name, cat, rows, reason, run);
            &&& r1 is Obj
            &&& jget(r1, "features"@) matches Some(JsonV::Obj(f)) && obj_get(f, name) matches Some(
                JsonV::Obj(_),
            )
        }),
{
    reveal_strlit("features");
    let top = root->Obj_0;
    let fk = "features"@;
    let top1 = with_features(top);
    lemma_obj_set_get(top, fk, JsonV::Obj(Seq::empty()), fk);
    let f = obj_get(top1, fk)->0->Obj_0;
    let f1 = with_entry(f, name);
    lemma_obj_set_get(f, name, JsonV::Obj(Seq::empty()), name);
    let e = obj_get(f1, name)->0->Obj_0;
    let re = rated(e, cat, rows, reason, run);
    let f2 = obj_set(f1, name, JsonV::Obj(re));
    lemma_obj_set_get(f1, name, JsonV::Obj(re), name);
    lemma_obj_set_get(top1, fk, JsonV::Obj(f2), fk);
}

/// Read after write for a feature rated per stage: each stage's category
/// reads back from the document.
pub proof fn lemma_stage_category_reads_back(
    root: JsonV,
    name: Seq<char>,
    stages: Seq<(Seq<char>, SubMsStageClass)>,
    reason: Seq<char>,
    run: Option<(SubMsP99Source, Option<Seq<char>>)>,
    k: int,
)
    requires
        mergeable(root, name),
        0 <= k < stages.len(),
        forall|t: int| 0 <= t < k ==> stages[t].0 != stages[k].0,
    ensures
        stage_category_in(
            with_stages(
                set_feature_root(root, name, rollup(stage_categories(stages)), stage_p99_rows(stages), reason, run),
                name,
                stage_rows(stages),
            ),
            name,
            stages[k].0,
        ) == Some(stages[k].1.category),
{
    reveal_strlit("features");
    reveal_strlit("stages");
    reveal_strlit("perf");
    reveal_strlit("p99");
    let fk = "features"@;
    let sk = "stages"@;
    let r1 = set_feature_root(root, name, rollup(stage_categories(stages)), stage_p99_rows(stages), reason, run);
    lemma_set_feature_shape(root, name, rollup(stage_categories(stages)), stage_p99_rows(stages), reason, run);
    let top = r1->Obj_0;
    let f = obj_get(top, fk)->0->Obj_0;
    let e = obj_get(f, name)->0->Obj_0;
    let rows = stage_rows(stages);
    assert(rows.len() > 0);
    let e1 = obj_set(e, sk, JsonV::Obj(rows));
    lemma_obj_set_get(e, sk, JsonV::Obj(rows), sk);
    let f1 = obj_set(f, name, JsonV::Obj(e1));
    lemma_obj_set_get(f, name, JsonV::Obj(e1), name);
    lemma_obj_set_get(top, fk, JsonV::Obj(f1), fk);
    let key = stages[k].0;
    assert forall|t: int| 0 <= t < k implies rows[t].0 != key by {
        assert(rows[t].0 == stages[t].0);
    }
    lemma_key_index_is(rows, key, k);
    let c = stages[k].1;
    let row = seq![
        ("p99"@, JsonV::Num(dec(c.p99_ns as nat))),
        ("perf"@, JsonV::Str(c.category.spec_str())),
        ("perfReason"@, JsonV::Str(c.reason@)),
    ];
    assert(rows[k].1 == JsonV::Obj(row));
    assert(row[0].0 != "perf"@) by {
        assert(row[0].0.len() != "perf"@.len());
    }
    lemma_key_index_is(row, "perf"@, 1);
    lemma_category_wire_round_trip(c.category);
}

/// A feature rated per stage records, for each stage, its p99 under
/// `p99ByStage` and its row under `stages`; with no stages it has neither.
pub proof fn lemma_set_feature_stages_rows(
    root: JsonV,
    name: Seq<char>,
    stages: Seq<(Seq<char>, SubMsStageClass)>,
    reason: Seq<char>,
    run: Option<(SubMsP99Source, Option<Seq<char>>)>,
)
    requires
        mergeable(root, name),
    ensures
        ({
            let fin = with_stages(
                set_feature_root(root, name, rollup(stage_categories(stages)), stage_p99_rows(stages), reason, run),
                name,
                stage_rows(stages),
            );
            &&& feature_entry(fin, name) matches Some(e) && e is Obj
            &&& stages.len() == 0 ==> jget(feature_entry(fin, name)->0, "stages"@) is None
                && jget(feature_entry(fin, name)->0, "p99ByStage"@) is None
            &&& stages.len() > 0 ==> jget(feature_entry(fin, name)->0, "stages"@) == Some(
                JsonV::Obj(stage_rows(stages)),
            ) && jget(feature_entry(fin, name)->0, "p99ByStage"@) == Some(JsonV::Obj(stage_p99_rows(stages)))
        }),
{
    reveal_strlit("features");
    reveal_strlit("stages");
    reveal_strlit("p99ByStage");
    let fk = "features"@;
    let sk = "stages"@;
    let pk = "p99ByStage"@;
    assert(sk.len() != pk.len());
    let cat = rollup(stage_categories(stages));
    let prow = stage_p99_rows(stages);
    let rows = stage_rows(stages);
    // the rated document
    let top0 = root->Obj_0;
    let top1 = with_features(top0);
    lemma_obj_set_get(top0, fk, JsonV::Obj(Seq::empty()), fk);
    let f0 = obj_get(top1, fk)->0->Obj_0;
    let f1 = with_entry(f0, name);
    lemma_obj_set_get(f0, name, JsonV::Obj(Seq::empty()), name);
    let e0 = obj_get(f1, name)->0->Obj_0;
    let re = rated(e0, cat, prow, reason, run);
    let f2 = obj_set(f1, name, JsonV::Obj(re));
    lemma_obj_set_get(f1, name, JsonV::Obj(re), name);
    lemma_obj_set_get(top1, fk, JsonV::Obj(f2), fk);
    let r1 = set_feature_root(root, name, cat, prow, reason, run);
    assert(r1 == JsonV::Obj(obj_set(top1, fk, JsonV::Obj(f2))));
    lemma_rated_rows(e0, cat, prow, reason, run);
    // the stage rows
    let top = obj_set(top1, fk, JsonV::Obj(f2));
    let e1 = if rows.len() == 0 {
        obj_remove(re, sk)
    } else {
        obj_set(re, sk, JsonV::Obj(rows))
    };
    lemma_obj_remove_get(re, sk, sk);
    lemma_obj_remove_get(re, sk, pk);
    lemma_obj_set_get(re, sk, JsonV::Obj(rows), sk);
    lemma_obj_set_get(re, sk, JsonV::Obj(rows), pk);
    let f3 = obj_set(f2, name, JsonV::Obj(e1));
    lemma_obj_set_get(f2, name, JsonV::Obj(e1), name);
    lemma_obj_set_get(top, fk, JsonV::Obj(f3), fk);
    assert(prow.len() == stages.len() && rows.len() == stages.len());
}

/// Recording per-stage detail leaves a feature's category as it was.
pub proof fn lemma_with_stages_keeps_category(root: JsonV, name: Seq<char>, rows: Seq<(Seq<char>, JsonV)>, other: Seq<char>)
    ensures
        category_in(with_stages(root, name, rows), other) == category_in(root, other),
{
    reveal_strlit("features");
    reveal_strlit("stages");
    reveal_strlit("perf");
    let fk = "features"@;
    let sk = "stages"@;
    let pk = "perf"@;
    assert(pk.len() != sk.len());
    if let JsonV::Obj(top) = root {
        if let Some(JsonV::Obj(f)) = obj_get(top, fk) {
            if let Some(JsonV::Obj(e)) = obj_get(f, name) {
                let e1 = if rows.len() == 0 {
                    obj_remove(e, sk)
                } else {
                    obj_set(e, sk, JsonV::Obj(rows))
                };
                lemma_obj_remove_get(e, sk, pk);
                lemma_obj_set_get(e, sk, JsonV::Obj(rows), pk);
                let f1 = obj_set(f, name, JsonV::Obj(e1));
                lemma_obj_set_get(f, name, JsonV::Obj(e1), other);
                lemma_obj_set_get(top, fk, JsonV::Obj(f1), fk);
            }
        }
    }
}

/// Read after write for a feature rated per stage: the document records
/// the roll-up of the stages' categories.
pub proof fn lemma_set_feature_stages_reads_back(
    root: JsonV,
    name: Seq<char>,
    stages: Seq<(Seq<char>, SubMsStageClass)>,
    reason: Seq<char>,
    run: Option<(SubMsP99Source, Option<Seq<char>>)>,
)
    requires
        mergeable(root, name),
    ensures
        category_in(
            with_stages(
                set_feature_root(root, name, rollup(stage_categories(stages)), stage_p99_rows(stages), reason, run),
                name,
                stage_rows(stages),
            ),
            name,
        ) == Some(rollup(stage_categories(stages))),
{
    let cat = rollup(stage_categories(stages));
    let r1 = set_feature_root(root, name, cat, stage_p99_rows(stages), reason, run);
    lemma_set_feature_reads_back(root, name, cat, stage_p99_rows(stages), reason, run);
    lemma_with_stages_keeps_category(r1, name, stage_rows(stages), name);
}

/// The roll-up is the most restrictive category: no stage restricts more,
/// and with any stages at all it is one of theirs.
pub proof fn lemma_rollup_most_restrictive(cats: Seq<SubMsFeatureCategory>)
    ensures
        forall|i: int| 0 <= i < cats.len() ==> (#[trigger] cats[i]).restriction_spec() <= rollup(cats).restriction_spec(),
        cats.len() > 0 ==> exists|i: int| 0 <= i < cats.len() && cats[i] == rollup(cats),
        cats.len() == 0 ==> rollup(cats) == SubMsFeatureCategory::Auxiliary,
    decreases cats.len(),
{
    if cats.len() > 0 {
        let d = cats.drop_last();
        lemma_rollup_most_restrictive(d);
        assert forall|i: int| 0 <= i < cats.len() implies (#[trigger] cats[i]).restriction_spec() <= rollup(cats).restriction_spec() by {
            if i < d.len() {
                assert(cats[i] == d[i]);
            }
        }
        if rollup(cats) == cats.last() {
            assert(cats[cats.len() - 1] == rollup(cats));
        } else {
            assert(d.len() > 0);
            let j = choose|j: int| 0 <= j < d.len() && d[j] == rollup(d);
            assert(cats[j] == d[j]);
        }
    }
}

/// A rating of one feature leaves every other feature's entry, and every
/// top-level member but `features`, as it was.
pub proof fn lemma_set_feature_keeps_others(
    root: JsonV,
    name: Seq<char>,
    cat: SubMsFeatureCategory,
    rows: Seq<(Seq<char>, JsonV)>,
    reason: Seq<char>,
    run: Option<(SubMsP99Source, Option<Seq<char>>)>,
    other: Seq<char>,
    key: Seq<char>,
)
    requires
        mergeable(root, name),
    ensures
        other != name ==> feature_entry(set_feature_root(root, name, cat, rows, reason, run), other)
            == feature_entry(root, other),
        key != "features"@ ==> jget(set_feature_root(root, name, cat, rows, reason, run), key)
            == jget(root, key),
{
    reveal_strlit("features");
    let top = root->Obj_0;
    let fk = "features"@;
    let top1 = with_features(top);
    lemma_obj_set_get(top, fk, JsonV::Obj(Seq::empty()), fk);
    lemma_obj_set_get(top, fk, JsonV::Obj(Seq::empty()), key);
    let f = obj_get(top1, fk)->0->Obj_0;
    let f1 = with_entry(f, name);
    lemma_obj_set_get(f, name, JsonV::Obj(Seq::empty()), name);
    lemma_obj_set_get(f, name, JsonV::Obj(Seq::empty()), other);
    let e = obj_get(f1, name)->0->Obj_0;
    let re = rated(e, cat, rows, reason, run);
    let f2 = obj_set(f1, name, JsonV::Obj(re));
    lemma_obj_set_get(f1, name, JsonV::Obj(re), other);
    lemma_obj_set_get(top1, fk, JsonV::Obj(f2), fk);
    lemma_obj_set_get(top1, fk, JsonV::Obj(f2), key);
    if obj_get(top, fk) is None {
        assert(obj_get(Seq::<(Seq<char>, JsonV)>::empty(), other) is None);
    }
}

/// Read after write for provenance: once a document that is an object is
/// stamped, it records that provenance, and the fleet reference exactly
/// when the stamp is `Fleet` with a non-empty one.
pub proof fn lemma_with_source_reads_back(root: JsonV, source: SubMsP99Source, reference: Option<Seq<char>>)
    requires
        root is Obj,
    ensures
        source_in(with_source(root, source, reference)) == source,
        source_ref_in(with_source(root, source, reference)) == if source == SubMsP99Source::Fleet && (
        reference matches Some(r) && r.len() > 0) {
            reference
        } else {
            None::<Seq<char>>
        },
{
    reveal_strlit("p99_source");
    reveal_strlit("p99_source_ref");
    let top = root->Obj_0;
    let k = "p99_source"@;
    let kr = "p99_source_ref"@;
    assert(k.len() != kr.len());
    let t1 = obj_set(top, k, JsonV::Str(source.spec_str()));
    lemma_obj_set_get(top, k, JsonV::Str(source.spec_str()), k);
    if source == SubMsP99Source::Fleet && (reference matches Some(r) && r.len() > 0) {
        lemma_obj_set_get(t1, kr, JsonV::Str(reference->0), k);
        lemma_obj_set_get(t1, kr, JsonV::Str(reference->0), kr);
    } else {
        lemma_obj_remove_get(t1, kr, k);
        lemma_obj_remove_get(t1, kr, kr);
    }
    lemma_source_wire_round_trip(source);
}

/// A provenance stamp touches only `p99_source` and `p99_source_ref`: every
/// other top-level member reads as before.
pub proof fn lemma_with_source_keeps_others(
    root: JsonV,
    source: SubMsP99Source,
    reference: Option<Seq<char>>,
    key: Seq<char>,
)
    requires
        key != "p99_source"@,
        key != "p99_source_ref"@,
    ensures
        jget(with_source(root, source, reference), key) == jget(root, key),
{
    if let JsonV::Obj(top) = root {
        let k = "p99_source"@;
        let kr = "p99_source_ref"@;
        let t1 = obj_set(top, k, JsonV::Str(source.spec_str()));
        lemma_obj_set_get(top, k, JsonV::Str(source.spec_str()), key);
        lemma_obj_remove_get(t1, kr, key);
        if source == SubMsP99Source::Fleet && (reference matches Some(r) && r.len() > 0) {
            lemma_obj_set_get(t1, kr, JsonV::Str(reference->0), key);
        }
    }
}

/// A rating moves nothing: every top-level member keeps its place (a
/// missing `features` member is appended), and inside `features` every
/// entry keeps its place (a missing entry for `name` is appended).
pub proof fn lemma_set_feature_keeps_order(
    root: JsonV,
    name: Seq<char>,
    cat: SubMsFeatureCategory,
    rows: Seq<(Seq<char>, JsonV)>,
    reason: Seq<char>,
    run: Option<(SubMsP99Source, Option<Seq<char>>)>,
)
    requires
        mergeable(root, name),
    ensures
        member_keys(set_feature_root(root, name, cat, rows, reason, run)->Obj_0) == if jget(
            root,
            "features"@,
        ) is Some {
            member_keys(root->Obj_0)
        } else {
            member_keys(root->Obj_0).push("features"@)
        },
        jget(set_feature_root(root, name, cat, rows, reason, run), "features"@) matches Some(
            JsonV::Obj(f2),
        ) && member_keys(f2) == match jget(root, "features"@) {
            Some(JsonV::Obj(f)) => if obj_get(f, name) is Some {
                member_keys(f)
            } else {
                member_keys(f).push(name)
            },
            _ => seq![name],
        },
{
    let top = root->Obj_0;
    let fk = "features"@;
    let empty = JsonV::Obj(Seq::<(Seq<char>, JsonV)>::empty());
    let top1 = with_features(top);
    lemma_obj_set_keys(top, fk, empty);
    lemma_obj_set_get(top, fk, empty, fk);
    let f = obj_get(top1, fk)->0->Obj_0;
    let f1 = with_entry(f, name);
    lemma_obj_set_keys(f, name, empty);
    lemma_obj_set_get(f, name, empty, name);
    let e = obj_get(f1, name)->0->Obj_0;
    let re = JsonV::Obj(rated(e, cat, rows, reason, run));
    let f2 = obj_set(f1, name, re);
    lemma_obj_set_keys(f1, name, re);
    lemma_obj_set_keys(top1, fk, JsonV::Obj(f2));
    lemma_obj_set_get(top1, fk, JsonV::Obj(f2), fk);
    if obj_get(top, fk) is None {
        assert(member_keys(Seq::<(Seq<char>, JsonV)>::empty()).push(name) =~= seq![name]);
    }
}

/// A provenance stamp moves no member: leaving `p99_source_ref` aside, the
/// members' names are in the order they were, with `p99_source` appended
/// when the document had none.
pub proof fn lemma_with_source_keeps_order(root: JsonV, source: SubMsP99Source, reference: Option<Seq<char>>)
    requires
        root is Obj,
    ensures
        member_keys(with_source(root, source, reference)->Obj_0).filter(other_than("p99_source_ref"@))
            == if jget(root, "p99_source"@) is Some {
            member_keys(root->Obj_0).filter(other_than("p99_source_ref"@))
        } else {
            member_keys(root->Obj_0).filter(other_than("p99_source_ref"@)).push("p99_source"@)
        },
{
    reveal_strlit("p99_source");
    reveal_strlit("p99_source_ref");
    let top = root->Obj_0;
    let k = "p99_source"@;
    let kr = "p99_source_ref"@;
    let keep = other_than(kr);
    assert(k.len() != kr.len());
    let sv = JsonV::Str(source.spec_str());
    let t1 = obj_set(top, k, sv);
    lemma_obj_set_keys(top, k, sv);
    member_keys(top).lemma_filter_push(k, keep);
    if source == SubMsP99Source::Fleet && (reference matches Some(r) && r.len() > 0) {
        let rv = JsonV::Str(reference->0);
        lemma_obj_set_keys(t1, kr, rv);
        member_keys(t1).lemma_filter_push(kr, keep);
    } else {
        lemma_obj_remove_keys(t1, kr);
        lemma_filter_twice(member_keys(t1), keep);
    }
}

/// Filtering twice by the same test is filtering once.
proof fn lemma_filter_twice(s: Seq<Seq<char>>, keep: spec_fn(Seq<char>) -> bool)
    ensures
        s.filter(keep).filter(keep) == s.filter(keep),
    decreases s.len(),
{
    if s.len() == 0 {
        assert(s.filter(keep) =~= s) by {
            reveal(Seq::filter);
        }
    } else {
        let d = s.drop_last();
        let x = s.last();
        assert(s == d.push(x));
        lemma_filter_twice(d, keep);
        d.lemma_filter_push(x, keep);
        if keep(x) {
            d.filter(keep).lemma_filter_push(x, keep);
        }
    }
}

proof fn lemma_key_index_found(p: Seq<(Seq<char>, JsonV)>, key: Seq<char>)
    ensures
        match crate::json::key_index(p, key) {
            Some(i) => 0 <= i < p.len() && p[i].0 == key,
            None => forall|t: int| 0 <= t < p.len() ==> p[t].0 != key,
        },
{
    crate::json::lemma_key_index_from(p, key, 0);
}

/// Apply the rating to an entry's members.
fn rate_entry(
    e: &mut Vec<(String, Json)>,
    cat: SubMsFeatureCategory,
    rows: Vec<(String, Json)>,
    reason: &str,
    run: &Option<(SubMsP99Source, Option<String>)>,
)
    ensures
        members_view(final(e)@) == rated(members_view(old(e)@), cat, members_view(rows@), reason@, run_of(*run)),
{
    let empty = rows.len() == 0;
    let ghost rv = members_view(rows@);
    set_member(e, "perf", Json::Str(cat.as_str().to_string()));
    set_member(e, "perfReason", Json::Str(reason.to_string()));
    if empty {
        remove_member(e, "p99ByStage");
    } else {
        let j = Json::Obj(rows);
        proof {
            lemma_members_view(rows@);
        }
        assert(j@ == JsonV::Obj(rv));
        set_member(e, "p99ByStage", j);
    }
    match run {
        Some((source, reference)) => {
            set_member(e, "p99Source", Json::Str(source.as_str().to_string()));
            let fleet_ref: Option<&String> = match reference {
                Some(r) => if *source == SubMsP99Source::Fleet && r.unicode_len() > 0 {
                    Some(r)
                } else {
                    None
                },
                None => None,
            };
            match fleet_ref {
                Some(r) => set_member(e, "p99SourceRef", Json::Str(r.clone())),
                None => remove_member(e, "p99SourceRef"),
            }
        },
        None => {
            remove_member(e, "p99Source");
            remove_member(e, "p99SourceRef");
        },
    }
}

/// A per-language feature manifest document. Every member the harness does
/// not own rides along untouched.
pub struct SubMsFeatureManifest {
    root: Json,
    run_source: Option<(SubMsP99Source, Option<String>)>,
}

impl SubMsFeatureManifest {
    /// The document.
    pub closed spec fn root_view(&self) -> JsonV {
        self.root@
    }

    /// This run's declared provenance.
    pub closed spec fn run_view(&self) -> Option<(SubMsP99Source, Option<Seq<char>>)> {
        run_of(self.run_source)
    }

    /// Merge-write a feature's rating: `perf` = the category, `perfReason`,
    /// the per-stage p99s under `p99ByStage` (dropped when there are none),
    /// and this run's provenance stamp; every other field of that entry, of
    /// other features and of the top level is left as it was.
    pub fn set_feature(
        &mut self,
        name: &str,
        category: SubMsFeatureCategory,
        p99_by_stage: &KeyMap<u64>,
        reason: &str,
    )
        ensures
            final(self).root_view() == set_feature_root(
                old(self).root_view(),
                name@,
                category,
                p99_rows(p99_by_stage.entries_view()),
                reason@,
                old(self).run_view(),
            ),
            final(self).run_view() == old(self).run_view(),
            manifest_ok(old(self).root_view()) ==> manifest_ok(final(self).root_view()),
    {
        proof {
            if manifest_ok(self.root_view()) {
                lemma_p99_rows_ok(p99_by_stage.entries_view());
                lemma_set_feature_ok(
                    self.root_view(),
                    name@,
                    category,
                    p99_rows(p99_by_stage.entries_view()),
                    reason@,
                    self.run_view(),
                );
            }
        }
        let mut rows: Vec<(String, Json)> = Vec::new();
        let n = p99_by_stage.len();
        let mut i: usize = 0;
        while i < n
            invariant
                n == p99_by_stage.entries_view().len(),
                i <= n,
                members_view(rows@) == p99_rows(p99_by_stage.entries_view()).take(i as int),
            decreases n - i,
        {
            let (k, v) = p99_by_stage.entry(i);
            let ghost before = rows@;
            let kc = k.clone();
            let num = Json::Num(crate::text::dec_string(*v));
            assert(kc@ == k@);
            assert(num@ == JsonV::Num(dec(*v as nat)));
            rows.push((kc, num));
            let ghost ev = p99_by_stage.entries_view();
            assert(p99_rows(ev)[i as int] == (ev[i as int].0, JsonV::Num(dec(ev[i as int].1 as nat))));
            assert(members_view(rows@) =~= members_view(before).push((kc@, num@)));
            assert(members_view(rows@) =~= p99_rows(p99_by_stage.entries_view()).take(i as int + 1));
            i += 1;
        }
        assert(p99_rows(p99_by_stage.entries_view()).take(n as int) =~= p99_rows(p99_by_stage.entries_view()));
        self.set_feature_rows(name, category, rows, reason);
    }

    #[verifier::spinoff_prover]
    fn set_feature_rows(
        &mut self,
        name: &str,
        category: SubMsFeatureCategory,
        rows: Vec<(String, Json)>,
        reason: &str,
    )
        ensures
            final(self).root_view() == set_feature_root(
                old(self).root_view(),
                name@,
                category,
                members_view(rows@),
                reason@,
                old(self).run_view(),
            ),
            final(self).run_view() == old(self).run_view(),
    {
        let ghost rv = members_view(rows@);
        let mut root = Json::Null;
        std::mem::swap(&mut root, &mut self.root);
        match root {
            Json::Obj(mut top) => {
                proof {
                    lemma_members_view(top@);
                }
                let ghost t0 = members_view(top@);
                if find_member(&top, "features").is_none() {
                    set_member(&mut top, "features", Json::Obj(Vec::new()));
                }
                let ghost t1 = members_view(top@);
                assert(t1 == with_features(t0));
                proof {
                    lemma_key_index_found(t0, "features"@);
                    lemma_key_index_found(t1, "features"@);
                    if obj_get(t0, "features"@) is None {
                        assert(t1[t1.len() - 1].0 == "features"@);
                    } else {
                        let k = crate::json::key_index(t0, "features"@)->0;
                        assert(t1[k].0 == "features"@);
                    }
                }
                let fi = match find_member(&top, "features") {
                    Some(x) => x,
                    None => {
                        self.root = Json::Obj(top);
                        return;
                    },
                };
                let (fk, fv) = top.remove(fi);
                assert(fk@ == "features"@);
                match fv {
                    Json::Obj(mut f) => {
                        proof {
                            lemma_members_view(f@);
                        }
                        let ghost f0 = members_view(f@);
                        assert(obj_get(t1, "features"@) == Some(JsonV::Obj(f0)));
                        if find_member(&f, name).is_none() {
                            set_member(&mut f, name, Json::Obj(Vec::new()));
                        }
                        let ghost f1 = members_view(f@);
                        assert(f1 == with_entry(f0, name@));
                        proof {
                            lemma_key_index_found(f0, name@);
                            lemma_key_index_found(f1, name@);
                            if obj_get(f0, name@) is None {
                                assert(f1[f1.len() - 1].0 == name@);
                            } else {
                                let k = crate::json::key_index(f0, name@)->0;
                                assert(f1[k].0 == name@);
                            }
                        }
                        let ei = match find_member(&f, name) {
                            Some(x) => x,
                            None => {
                                top.insert(fi, (fk, Json::Obj(f)));
                                self.root = Json::Obj(top);
                                return;
                            },
                        };
                        let (ek, ev) = f.remove(ei);
                        assert(ek@ == name@);
                        match ev {
                            Json::Obj(mut e) => {
                                proof {
                                    lemma_members_view(e@);
                                }
                                let ghost e0 = members_view(e@);
                                assert(obj_get(f1, name@) == Some(JsonV::Obj(e0)));
                                rate_entry(&mut e, category, rows, reason, &self.run_source);
                                let ghost e2 = members_view(e@);
                                let ghost fb = f@;
                                let ev2 = Json::Obj(e);
                                proof {
                                    lemma_members_view(e@);
                                }
                                assert(ev2@ == JsonV::Obj(e2));
                                f.insert(ei, (ek, ev2));
                                proof {
                                    assert(members_view(f@) =~= f1.update(ei as int, (name@, JsonV::Obj(e2))));
                                    assert(obj_set(f1, name@, JsonV::Obj(e2)) == f1.update(ei as int, (name@, JsonV::Obj(e2))));
                                }
                            },
                            other => {
                                proof {
                                    assert(obj_get(f1, name@) == Some(json_view(other)));
                                }
                                f.insert(ei, (ek, other));
                                assert(members_view(f@) =~= f1);
                            },
                        }
                        let ghost f2 = members_view(f@);
                        let fv2 = Json::Obj(f);
                        proof {
                            lemma_members_view(f@);
                        }
                        assert(fv2@ == JsonV::Obj(f2));
                        top.insert(fi, (fk, fv2));
                        assert(members_view(top@) =~= t1.update(fi as int, ("features"@, JsonV::Obj(f2))));
                        assert(obj_set(t1, "features"@, JsonV::Obj(f2)) == t1.update(fi as int, ("features"@, JsonV::Obj(f2))));
                    },
                    other => {
                        proof {
                            assert(obj_get(t1, "features"@) == Some(json_view(other)));
                        }
                        top.insert(fi, (fk, other));
                        assert(members_view(top@) =~= t1);
                    },
                }
                let r = Json::Obj(top);
                proof {
                    lemma_members_view(top@);
                }
                self.root = r;
            },
            other => {
                self.root = other;
            },
        }
    }
}

/// Per-stage rows: each stage's p99, category and reason.
pub open spec fn stage_rows(e: Seq<(Seq<char>, SubMsStageClass)>) -> Seq<(Seq<char>, JsonV)> {
    e.map_values(
        |p: (Seq<char>, SubMsStageClass)|
            (
                p.0,
                JsonV::Obj(
                    seq![
                        ("p99"@, JsonV::Num(dec(p.1.p99_ns as nat))),
                        ("perf"@, JsonV::Str(p.1.category.spec_str())),
                        ("perfReason"@, JsonV::Str(p.1.reason@)),
                    ],
                ),
            ),
    )
}

/// The stages' p99s as `p99ByStage` rows.
pub open spec fn stage_p99_rows(e: Seq<(Seq<char>, SubMsStageClass)>) -> Seq<(Seq<char>, JsonV)> {
    e.map_values(|p: (Seq<char>, SubMsStageClass)| (p.0, JsonV::Num(dec(p.1.p99_ns as nat))))
}

/// The document with feature `name`'s `stages` set from the rows (dropped
/// for none), when the features object and the entry are objects.
pub open spec fn with_stages(root: JsonV, name: Seq<char>, rows: Seq<(Seq<char>, JsonV)>) -> JsonV {
    match root {
        JsonV::Obj(top) => match obj_get(top, "features"@) {
            Some(JsonV::Obj(f)) => match obj_get(f, name) {
                Some(JsonV::Obj(e)) => JsonV::Obj(
                    obj_set(
                        top,
                        "features"@,
                        JsonV::Obj(
                            obj_set(
                                f,
                                name,
                                JsonV::Obj(
                                    if rows.len() == 0 {
                                        obj_remove(e, "stages"@)
                                    } else {
                                        obj_set(e, "stages"@, JsonV::Obj(rows))
                                    },
                                ),
                            ),
                        ),
                    ),
                ),
                _ => root,
            },
            _ => root,
        },
        _ => root,
    }
}

/// The members of a new manifest for `lang`.
pub open spec fn fresh_root(lang: Seq<char>) -> JsonV {
    JsonV::Obj(seq![("lang"@, JsonV::Str(lang)), ("features"@, JsonV::Obj(Seq::empty()))])
}

/// The top level with a `features` object somewhere (an empty one set when
/// no `features` member is an object).
pub open spec fn ensure_features(p: Seq<(Seq<char>, JsonV)>) -> Seq<(Seq<char>, JsonV)> {
    if has_features_obj(p) {
        p
    } else {
        obj_set(p, "features"@, JsonV::Obj(Seq::empty()))
    }
}

/// The document `load_str` keeps: a parsed object (with a `features`
/// object ensured), or a fresh manifest for blank, malformed or non-object
/// text.
pub open spec fn loaded_root(lang: Seq<char>, text: Seq<char>) -> JsonV {
    let t = crate::text::trim(text);
    if t.len() == 0 {
        fresh_root(lang)
    } else {
        match crate::json::parse_doc(t) {
            Ok(JsonV::Obj(p)) => JsonV::Obj(ensure_features(p)),
            _ => fresh_root(lang),
        }
    }
}

/// Some top-level `features` member is an object.
pub open spec fn has_features_obj(p: Seq<(Seq<char>, JsonV)>) -> bool {
    exists|i: int| 0 <= i < p.len() && #[trigger] p[i].0 == "features"@ && p[i].1 is Obj
}

/// What every manifest document is: a well-formed object with a
/// `features` object.
pub open spec fn manifest_ok(root: JsonV) -> bool {
    &&& root is Obj
    &&& well_formed(root)
    &&& has_features_obj(root->Obj_0)
}

/// The document after a provenance stamp at the top level.
pub open spec fn with_source(root: JsonV, source: SubMsP99Source, reference: Option<Seq<char>>) -> JsonV {
    match root {
        JsonV::Obj(top) => {
            let t1 = obj_set(top, "p99_source"@, JsonV::Str(source.spec_str()));
            JsonV::Obj(
                if source == SubMsP99Source::Fleet && (reference matches Some(r) && r.len() > 0) {
                    obj_set(t1, "p99_source_ref"@, JsonV::Str(reference->0))
                } else {
                    obj_remove(t1, "p99_source_ref"@)
                },
            )
        },
        _ => root,
    }
}

proof fn lemma_set_keeps_features(p: Seq<(Seq<char>, JsonV)>, k: Seq<char>, v: JsonV)
    requires
        has_features_obj(p),
        k != "features"@,
    ensures
        has_features_obj(obj_set(p, k, v)),
        has_features_obj(obj_remove(p, k)),
{
    let i = choose|i: int| 0 <= i < p.len() && #[trigger] p[i].0 == "features"@ && p[i].1 is Obj;
    let q = obj_set(p, k, v);
    crate::json::lemma_key_index_from(p, k, 0);
    match crate::json::key_index(p, k) {
        Some(j) => {
            assert(q[i] == p[i]);
        },
        None => {
            assert(q[i] == p[i]);
        },
    }
    assert(q[i].0 == "features"@);
    let r = obj_remove(p, k);
    assert(crate::json::not_named(k)(p[i]));
    p.lemma_filter_contains(crate::json::not_named(k), i);
    assert(r.contains(p[i]));
    let t = choose|t: int| 0 <= t < r.len() && r[t] == p[i];
    assert(r[t].0 == "features"@);
}

proof fn lemma_set_features_member(p: Seq<(Seq<char>, JsonV)>, f: Seq<(Seq<char>, JsonV)>)
    ensures
        has_features_obj(obj_set(p, "features"@, JsonV::Obj(f))),
{
    let q = obj_set(p, "features"@, JsonV::Obj(f));
    crate::json::lemma_key_index_from(p, "features"@, 0);
    match crate::json::key_index(p, "features"@) {
        Some(j) => {
            assert(q[j].0 == "features"@);
        },
        None => {
            assert(q[p.len() as int].0 == "features"@);
        },
    }
}

proof fn lemma_get_ok(p: Seq<(Seq<char>, JsonV)>, key: Seq<char>)
    requires
        members_ok(p),
    ensures
        obj_get(p, key) matches Some(v) ==> well_formed(v),
{
    crate::json::lemma_key_index_from(p, key, 0);
}

/// A fresh manifest is a manifest document.
pub proof fn lemma_fresh_root_ok(lang: Seq<char>)
    ensures
        manifest_ok(fresh_root(lang)),
{
    reveal_strlit("features");
    reveal_strlit("lang");
    let p = seq![("lang"@, JsonV::Str(lang)), ("features"@, JsonV::Obj(Seq::empty()))];
    lemma_obj_well_formed(Seq::<(Seq<char>, JsonV)>::empty());
    lemma_obj_well_formed(p);
    assert(p[1].0 == "features"@);
}

/// Whatever text it loads, a manifest is a manifest document.
pub proof fn lemma_loaded_root_ok(lang: Seq<char>, text: Seq<char>)
    ensures
        manifest_ok(loaded_root(lang, text)),
{
    lemma_fresh_root_ok(lang);
    let t = crate::text::trim(text);
    lemma_parsed_well_formed(t);
    if t.len() > 0 {
        if let Ok(JsonV::Obj(p)) = crate::json::parse_doc(t) {
            lemma_obj_well_formed(p);
            lemma_obj_well_formed(Seq::<(Seq<char>, JsonV)>::empty());
            if !has_features_obj(p) {
                lemma_obj_set_ok(p, "features"@, JsonV::Obj(Seq::empty()));
                lemma_set_features_member(p, Seq::empty());
                lemma_obj_well_formed(ensure_features(p));
            }
        }
    }
}

/// Per-stage p99 rows are well formed.
pub proof fn lemma_p99_rows_ok(p99: Seq<(Seq<char>, u64)>)
    ensures
        members_ok(p99_rows(p99)),
{
    let r = p99_rows(p99);
    assert forall|i: int| 0 <= i < r.len() implies well_formed(#[trigger] r[i].1) by {
        lemma_dec_num_token(p99[i].1 as nat);
    }
}

/// Per-stage detail rows are well formed.
pub proof fn lemma_stage_rows_ok(e: Seq<(Seq<char>, SubMsStageClass)>)
    ensures
        members_ok(stage_rows(e)),
        members_ok(stage_p99_rows(e)),
{
    let r = stage_rows(e);
    assert forall|i: int| 0 <= i < r.len() implies well_formed(#[trigger] r[i].1) by {
        let row = seq![
            ("p99"@, JsonV::Num(dec(e[i].1.p99_ns as nat))),
            ("perf"@, JsonV::Str(e[i].1.category.spec_str())),
            ("perfReason"@, JsonV::Str(e[i].1.reason@)),
        ];
        lemma_dec_num_token(e[i].1.p99_ns as nat);
        assert(row[0].1 == JsonV::Num(dec(e[i].1.p99_ns as nat)));
        lemma_obj_well_formed(row);
    }
    let q = stage_p99_rows(e);
    assert forall|i: int| 0 <= i < q.len() implies well_formed(#[trigger] q[i].1) by {
        lemma_dec_num_token(e[i].1.p99_ns as nat);
    }
}

proof fn lemma_rated_ok(
    e: Seq<(Seq<char>, JsonV)>,
    cat: SubMsFeatureCategory,
    rows: Seq<(Seq<char>, JsonV)>,
    reason: Seq<char>,
    run: Option<(SubMsP99Source, Option<Seq<char>>)>,
)
    requires
        members_ok(e),
        members_ok(rows),
    ensures
        members_ok(rated(e, cat, rows, reason, run)),
{
    let e0 = obj_set(e, "perf"@, JsonV::Str(cat.spec_str()));
    lemma_obj_set_ok(e, "perf"@, JsonV::Str(cat.spec_str()));
    let e1 = obj_set(e0, "perfReason"@, JsonV::Str(reason));
    lemma_obj_set_ok(e0, "perfReason"@, JsonV::Str(reason));
    lemma_obj_remove_ok(e1, "p99ByStage"@);
    lemma_obj_well_formed(rows);
    lemma_obj_set_ok(e1, "p99ByStage"@, JsonV::Obj(rows));
    let e2 = if rows.len() == 0 {
        obj_remove(e1, "p99ByStage"@)
    } else {
        obj_set(e1, "p99ByStage"@, JsonV::Obj(rows))
    };
    match run {
        Some((src, r)) => {
            let e3 = obj_set(e2, "p99Source"@, JsonV::Str(src.spec_str()));
            lemma_obj_set_ok(e2, "p99Source"@, JsonV::Str(src.spec_str()));
            if src == SubMsP99Source::Fleet && (r matches Some(x) && x.len() > 0) {
                lemma_obj_set_ok(e3, "p99SourceRef"@, JsonV::Str(r->0));
            } else {
                lemma_obj_remove_ok(e3, "p99SourceRef"@);
            }
        },
        None => {
            lemma_obj_remove_ok(e2, "p99Source"@);
            lemma_obj_remove_ok(obj_remove(e2, "p99Source"@), "p99SourceRef"@);
        },
    }
}

/// Rating a feature keeps a manifest document one.
pub proof fn lemma_set_feature_ok(
    root: JsonV,
    name: Seq<char>,
    cat: SubMsFeatureCategory,
    rows: Seq<(Seq<char>, JsonV)>,
    reason: Seq<char>,
    run: Option<(SubMsP99Source, Option<Seq<char>>)>,
)
    requires
        manifest_ok(root),
        members_ok(rows),
    ensures
        manifest_ok(set_feature_root(root, name, cat, rows, reason, run)),
{
    reveal_strlit("features");
    let top = root->Obj_0;
    let fk = "features"@;
    lemma_obj_well_formed(top);
    let wit = choose|i: int| 0 <= i < top.len() && #[trigger] top[i].0 == fk && top[i].1 is Obj;
    crate::json::lemma_key_index_from(top, fk, 0);
    assert(obj_get(top, fk) is Some);
    let top1 = with_features(top);
    assert(top1 == top);
    lemma_get_ok(top, fk);
    if let Some(JsonV::Obj(f)) = obj_get(top1, fk) {
        lemma_obj_well_formed(f);
        lemma_obj_well_formed(Seq::<(Seq<char>, JsonV)>::empty());
        let f1 = with_entry(f, name);
        lemma_obj_set_ok(f, name, JsonV::Obj(Seq::empty()));
        lemma_get_ok(f1, name);
        lemma_set_features_member(top1, Seq::empty());
        match obj_get(f1, name) {
            Some(JsonV::Obj(e)) => {
                lemma_obj_well_formed(e);
                let re = rated(e, cat, rows, reason, run);
                lemma_rated_ok(e, cat, rows, reason, run);
                lemma_obj_well_formed(re);
                let f2 = obj_set(f1, name, JsonV::Obj(re));
                lemma_obj_set_ok(f1, name, JsonV::Obj(re));
                lemma_obj_well_formed(f2);
                lemma_obj_set_ok(top1, fk, JsonV::Obj(f2));
                lemma_set_features_member(top1, f2);
                lemma_obj_well_formed(obj_set(top1, fk, JsonV::Obj(f2)));
            },
            _ => {
                lemma_obj_well_formed(f1);
                lemma_obj_set_ok(top1, fk, JsonV::Obj(f1));
                lemma_set_features_member(top1, f1);
                lemma_obj_well_formed(obj_set(top1, fk, JsonV::Obj(f1)));
            },
        }
    }
}

/// Recording per-stage detail keeps a manifest document one.
pub proof fn lemma_with_stages_ok(root: JsonV, name: Seq<char>, rows: Seq<(Seq<char>, JsonV)>)
    requires
        manifest_ok(root),
        members_ok(rows),
    ensures
        manifest_ok(with_stages(root, name, rows)),
{
    reveal_strlit("features");
    let top = root->Obj_0;
    let fk = "features"@;
    let sk = "stages"@;
    lemma_obj_well_formed(top);
    lemma_get_ok(top, fk);
    if let Some(JsonV::Obj(f)) = obj_get(top, fk) {
        lemma_obj_well_formed(f);
        lemma_get_ok(f, name);
        if let Some(JsonV::Obj(e)) = obj_get(f, name) {
            lemma_obj_well_formed(e);
            lemma_obj_well_formed(rows);
            lemma_obj_remove_ok(e, sk);
            lemma_obj_set_ok(e, sk, JsonV::Obj(rows));
            let e1 = if rows.len() == 0 {
                obj_remove(e, sk)
            } else {
                obj_set(e, sk, JsonV::Obj(rows))
            };
            lemma_obj_well_formed(e1);
            let f1 = obj_set(f, name, JsonV::Obj(e1));
            lemma_obj_set_ok(f, name, JsonV::Obj(e1));
            lemma_obj_well_formed(f1);
            lemma_obj_set_ok(top, fk, JsonV::Obj(f1));
            lemma_set_features_member(top, f1);
            lemma_obj_well_formed(obj_set(top, fk, JsonV::Obj(f1)));
        }
    }
}

/// A provenance stamp keeps a manifest document one.
pub proof fn lemma_with_source_ok(root: JsonV, source: SubMsP99Source, reference: Option<Seq<char>>)
    requires
        manifest_ok(root),
    ensures
        manifest_ok(with_source(root, source, reference)),
{
    reveal_strlit("features");
    reveal_strlit("p99_source");
    reveal_strlit("p99_source_ref");
    let top = root->Obj_0;
    let k = "p99_source"@;
    let kr = "p99_source_ref"@;
    assert(k.len() != "features"@.len());
    assert(kr.len() != "features"@.len());
    lemma_obj_well_formed(top);
    let t1 = obj_set(top, k, JsonV::Str(source.spec_str()));
    lemma_obj_set_ok(top, k, JsonV::Str(source.spec_str()));
    lemma_set_keeps_features(top, k, JsonV::Str(source.spec_str()));
    if source == SubMsP99Source::Fleet && (reference matches Some(r) && r.len() > 0) {
        lemma_obj_set_ok(t1, kr, JsonV::Str(reference->0));
        lemma_set_keeps_features(t1, kr, JsonV::Str(reference->0));
        lemma_obj_well_formed(obj_set(t1, kr, JsonV::Str(reference->0)));
    } else {
        lemma_obj_remove_ok(t1, kr);
        lemma_set_keeps_features(t1, kr, JsonV::Null);
        lemma_obj_well_formed(obj_remove(t1, kr));
    }
}

/// Save then load, for every manifest document: the text a manifest writes
/// loads back as the same document.
pub proof fn lemma_manifest_round_trip(root: JsonV, lang: Seq<char>)
    requires
        manifest_ok(root),
    ensures
        loaded_root(lang, crate::json::pretty(root, 0).push('\n')) == root,
{
    lemma_pretty_object_trims(root);
    lemma_pretty_parses_back(root);
}

fn fresh_json(lang: &str) -> (j: Json)
    ensures
        j@ == fresh_root(lang@),
{
    let mut top: Vec<(String, Json)> = Vec::new();
    top.push(("lang".to_string(), Json::Str(lang.to_string())));
    let empty: Vec<(String, Json)> = Vec::new();
    let fj = Json::Obj(empty);
    assert(fj@ == JsonV::Obj(Seq::empty()));
    top.push(("features".to_string(), fj));
    proof {
        lemma_members_view(top@);
    }
    let j = Json::Obj(top);
    assert(members_view(top@) =~= seq![("lang"@, JsonV::Str(lang@)), ("features"@, JsonV::Obj(Seq::<(Seq<char>, JsonV)>::empty()))]);
    j
}

fn edit_stages(root: &mut Json, name: &str, rows: Vec<(String, Json)>)
    ensures
        final(root)@ == with_stages(old(root)@, name@, members_view(rows@)),
{
    let ghost rv = members_view(rows@);
    let mut r = Json::Null;
    std::mem::swap(&mut r, root);
    match r {
        Json::Obj(mut top) => {
            proof {
                lemma_members_view(top@);
            }
            let ghost t0 = members_view(top@);
            proof {
                lemma_key_index_found(t0, "features"@);
            }
            let fi = match find_member(&top, "features") {
                Some(x) => x,
                None => {
                    *root = Json::Obj(top);
                    return;
                },
            };
            let (fk, fv) = top.remove(fi);
            match fv {
                Json::Obj(mut f) => {
                    proof {
                        lemma_members_view(f@);
                        lemma_key_index_found(members_view(f@), name@);
                    }
                    let ghost f0 = members_view(f@);
                    let ei = match find_member(&f, name) {
                        Some(x) => x,
                        None => {
                            top.insert(fi, (fk, Json::Obj(f)));
                            assert(members_view(top@) =~= t0);
                            proof {
                                lemma_members_view(top@);
                            }
                            *root = Json::Obj(top);
                            return;
                        },
                    };
                    let (ek, ev) = f.remove(ei);
                    match ev {
                        Json::Obj(mut e) => {
                            proof {
                                lemma_members_view(e@);
                            }
                            let ghost e0 = members_view(e@);
                            if rows.len() == 0 {
                                remove_member(&mut e, "stages");
                            } else {
                                let sj = Json::Obj(rows);
                                proof {
                                    lemma_members_view(rows@);
                                }
                                assert(sj@ == JsonV::Obj(rv));
                                set_member(&mut e, "stages", sj);
                            }
                            let ghost e2 = members_view(e@);
                            let ev2 = Json::Obj(e);
                            proof {
                                lemma_members_view(e@);
                            }
                            assert(ev2@ == JsonV::Obj(e2));
                            f.insert(ei, (ek, ev2));
                            assert(members_view(f@) =~= f0.update(ei as int, (name@, JsonV::Obj(e2))));
                            let ghost f2 = members_view(f@);
                            let fv2 = Json::Obj(f);
                            proof {
                                lemma_members_view(f@);
                            }
                            assert(fv2@ == JsonV::Obj(f2));
                            top.insert(fi, (fk, fv2));
                            assert(members_view(top@) =~= t0.update(fi as int, ("features"@, JsonV::Obj(f2))));
                        },
                        other => {
                            f.insert(ei, (ek, other));
                            assert(members_view(f@) =~= f0);
                            let fv2 = Json::Obj(f);
                            proof {
                                lemma_members_view(f@);
                            }
                            top.insert(fi, (fk, fv2));
                            assert(members_view(top@) =~= t0);
                        },
                    }
                },
                other => {
                    top.insert(fi, (fk, other));
                    assert(members_view(top@) =~= t0);
                },
            }
            proof {
                lemma_members_view(top@);
            }
            *root = Json::Obj(top);
        },
        other => {
            *root = other;
        },
    }
}

impl SubMsFeatureManifest {
    /// An empty manifest for `lang`: `{ "lang": <lang>, "features": {} }`.
    pub fn new(lang: &str) -> (m: Self)
        ensures
            m.root_view() == fresh_root(lang@),
            m.run_view() is None,
            manifest_ok(m.root_view()),
    {
        proof {
            lemma_fresh_root_ok(lang@);
        }
        SubMsFeatureManifest { root: fresh_json(lang), run_source: None }
    }

    /// Parse an existing document, keeping every field; blank, malformed or
    /// non-object text gives an empty manifest for `lang`.
    pub fn load_str(lang: &str, text: &str) -> (m: Self)
        ensures
            m.root_view() == loaded_root(lang@, text@),
            m.run_view() is None,
            manifest_ok(m.root_view()),
    {
        proof {
            lemma_loaded_root_ok(lang@, text@);
        }
        let t = trimmed(text);
        if t.unicode_len() == 0 {
            return Self::new(lang);
        }
        match parse_json(t.as_str()) {
            Ok(Json::Obj(mut top)) => {
                proof {
                    lemma_members_view(top@);
                }
                let ghost t0 = members_view(top@);
                let mut found = false;
                let mut i: usize = 0;
                while i < top.len()
                    invariant
                        t0 == members_view(top@),
                        i <= top@.len(),
                        found == exists|k: int| 0 <= k < i && t0[k].0 == "features"@ && t0[k].1 is Obj,
                    decreases top@.len() - i,
                {
                    let is_obj = match &top[i].1 {
                        Json::Obj(_) => true,
                        _ => false,
                    };
                    assert(t0[i as int].1 == json_view(top@[i as int].1));
                    if crate::text::str_eq(top[i].0.as_str(), "features") && is_obj {
                        found = true;
                    }
                    i += 1;
                }
                if !found {
                    let empty: Vec<(String, Json)> = Vec::new();
                    let fj = Json::Obj(empty);
                    assert(fj@ == JsonV::Obj(Seq::empty()));
                    set_member(&mut top, "features", fj);
                }
                proof {
                    lemma_members_view(top@);
                }
                SubMsFeatureManifest { root: Json::Obj(top), run_source: None }
            },
            _ => Self::new(lang),
        }
    }

    /// Stamp which box the p99 figures came from: this run's provenance, and
    /// at the top level `p99_source` plus `p99_source_ref` for a fleet box
    /// with a non-empty reference (a stale reference is dropped otherwise).
    pub fn set_p99_source(&mut self, source: SubMsP99Source, reference: Option<&str>)
        ensures
            final(self).run_view() == Some(
                (
                    source,
                    match reference {
                        Some(r) => Some(r@),
                        None => None::<Seq<char>>,
                    },
                ),
            ),
            final(self).root_view() == with_source(
                old(self).root_view(),
                source,
                match reference {
                    Some(r) => Some(r@),
                    None => None::<Seq<char>>,
                },
            ),
            manifest_ok(old(self).root_view()) ==> manifest_ok(final(self).root_view()),
    {
        proof {
            if manifest_ok(self.root_view()) {
                lemma_with_source_ok(
                    self.root_view(),
                    source,
                    match reference {
                        Some(r) => Some(r@),
                        None => None::<Seq<char>>,
                    },
                );
            }
        }
        let owned: Option<String> = match reference {
            Some(r) => Some(r.to_string()),
            None => None,
        };
        self.run_source = Some((source, owned));
        let mut r = Json::Null;
        std::mem::swap(&mut r, &mut self.root);
        match r {
            Json::Obj(mut top) => {
                proof {
                    lemma_members_view(top@);
                }
                set_member(&mut top, "p99_source", Json::Str(source.as_str().to_string()));
                let stamp: Option<&str> = match reference {
                    Some(x) => if source == SubMsP99Source::Fleet && x.unicode_len() > 0 {
                        Some(x)
                    } else {
                        None
                    },
                    None => None,
                };
                match stamp {
                    Some(x) => set_member(&mut top, "p99_source_ref", Json::Str(x.to_string())),
                    None => remove_member(&mut top, "p99_source_ref"),
                }
                proof {
                    lemma_members_view(top@);
                }
                self.root = Json::Obj(top);
            },
            other => {
                self.root = other;
            },
        }
    }

    /// The recorded provenance; an unstamped manifest reads as `Local`.
    pub fn p99_source(&self) -> (r: SubMsP99Source)
        ensures
            r == source_in(self.root_view()),
    {
        match self.root.get("p99_source") {
            Some(Json::Str(s)) => SubMsP99Source::from_wire(s.as_str()),
            _ => SubMsP99Source::Local,
        }
    }

    /// The fleet reference a capture was stamped with, if any.
    pub fn p99_source_ref(&self) -> (r: Option<&str>)
        ensures
            match source_ref_in(self.root_view()) {
                Some(s) => r matches Some(x) && x@ == s,
                None => r is None,
            },
    {
        match self.root.get("p99_source_ref") {
            Some(Json::Str(s)) => Some(s.as_str()),
            _ => None,
        }
    }

    /// Merge-write a feature classified per stage: the feature's rating is
    /// the roll-up of its stages (with their p99s as `p99ByStage`), and
    /// `stages` holds each stage's p99, category and reason (dropped when
    /// there are none).
    pub fn set_feature_stages(
        &mut self,
        name: &str,
        stages: &KeyMap<SubMsStageClass>,
        reason: &str,
    )
        ensures
            final(self).root_view() == with_stages(
                set_feature_root(
                    old(self).root_view(),
                    name@,
                    rollup(stage_categories(stages.entries_view())),
                    stage_p99_rows(stages.entries_view()),
                    reason@,
                    old(self).run_view(),
                ),
                name@,
                stage_rows(stages.entries_view()),
            ),
            final(self).run_view() == old(self).run_view(),
            manifest_ok(old(self).root_view()) ==> manifest_ok(final(self).root_view()),
    {
        proof {
            if manifest_ok(self.root_view()) {
                let ev = stages.entries_view();
                let cat = rollup(stage_categories(ev));
                lemma_stage_rows_ok(ev);
                lemma_set_feature_ok(self.root_view(), name@, cat, stage_p99_rows(ev), reason@, self.run_view());
                lemma_with_stages_ok(
                    set_feature_root(self.root_view(), name@, cat, stage_p99_rows(ev), reason@, self.run_view()),
                    name@,
                    stage_rows(ev),
                );
            }
        }
        let rolled = roll_up_stages(stages);
        let ghost ev = stages.entries_view();
        let n = stages.len();
        let mut flat: Vec<(String, Json)> = Vec::new();
        let mut rows: Vec<(String, Json)> = Vec::new();
        let mut i: usize = 0;
        while i < n
            invariant
                n == ev.len(),
                ev == stages.entries_view(),
                i <= n,
                members_view(flat@) == stage_p99_rows(ev).take(i as int),
                members_view(rows@) == stage_rows(ev).take(i as int),
            decreases n - i,
        {
            let (k, st) = stages.entry(i);
            let ghost f0 = flat@;
            let ghost r0 = rows@;
            let kc = k.clone();
            let num = Json::Num(crate::text::dec_string(st.p99_ns));
            flat.push((kc, num));
            assert(members_view(flat@) =~= members_view(f0).push((k@, JsonV::Num(dec(st.p99_ns as nat)))));
            assert(members_view(flat@) =~= stage_p99_rows(ev).take(i as int + 1));
            let mut cells: Vec<(String, Json)> = Vec::new();
            cells.push(("p99".to_string(), Json::Num(crate::text::dec_string(st.p99_ns))));
            cells.push(("perf".to_string(), Json::Str(st.category.as_str().to_string())));
            cells.push(("perfReason".to_string(), Json::Str(st.reason.clone())));
            proof {
                lemma_members_view(cells@);
            }
            let row = Json::Obj(cells);
            assert(members_view(cells@) =~= seq![
                ("p99"@, JsonV::Num(dec(st.p99_ns as nat))),
                ("perf"@, JsonV::Str(st.category.spec_str())),
                ("perfReason"@, JsonV::Str(st.reason@)),
            ]);
            let ghost rowv = JsonV::Obj(seq![
                ("p99"@, JsonV::Num(dec(st.p99_ns as nat))),
                ("perf"@, JsonV::Str(st.category.spec_str())),
                ("perfReason"@, JsonV::Str(st.reason@)),
            ]);
            assert(row@ == rowv);
            let kc2 = k.clone();
            assert(kc2@ == k@);
            rows.push((kc2, row));
            assert(members_view(rows@) =~= members_view(r0).push((k@, rowv)));
            assert(stage_rows(ev)[i as int] == (ev[i as int].0, rowv));
            assert(members_view(rows@) =~= stage_rows(ev).take(i as int + 1));
            i += 1;
        }
        assert(stage_p99_rows(ev).take(n as int) =~= stage_p99_rows(ev));
        assert(stage_rows(ev).take(n as int) =~= stage_rows(ev));
        self.set_feature_rows(name, rolled, flat, reason);
        edit_stages(&mut self.root, name, rows);
    }

    /// The category recorded for one stage of a feature.
    pub fn stage_category(&self, feature: &str, stage: &str) -> (r: Option<SubMsFeatureCategory>)
        ensures
            r == stage_category_in(self.root_view(), feature@, stage@),
    {
        let f = match self.root.get("features") {
            Some(x) => x,
            None => return None,
        };
        let e = match f.get(feature) {
            Some(x) => x,
            None => return None,
        };
        let sts = match e.get("stages") {
            Some(x) => x,
            None => return None,
        };
        let st = match sts.get(stage) {
            Some(x) => x,
            None => return None,
        };
        match st.get("perf") {
            Some(Json::Str(s)) => SubMsFeatureCategory::from_wire(s.as_str()),
            _ => None,
        }
    }

    /// Provenance recorded for one feature, falling back to the top-level
    /// stamp.
    pub fn feature_p99_source(&self, name: &str) -> (r: Option<SubMsP99Source>)
        ensures
            r == match (match jget(self.root_view(), "features"@) {
                Some(f) => match jget(f, name@) {
                    Some(e) => jget(e, "p99Source"@),
                    None => None,
                },
                None => None,
            }) {
                Some(JsonV::Str(s)) => Some(SubMsP99Source::from_wire_spec(s)),
                _ => match jget(self.root_view(), "p99_source"@) {
                    Some(JsonV::Str(s)) => Some(SubMsP99Source::from_wire_spec(s)),
                    _ => None,
                },
            },
    {
        let stamp: Option<&Json> = match self.root.get("features") {
            Some(f) => match f.get(name) {
                Some(e) => e.get("p99Source"),
                None => None,
            },
            None => None,
        };
        if let Some(Json::Str(s)) = stamp {
            return Some(SubMsP99Source::from_wire(s.as_str()));
        }
        match self.root.get("p99_source") {
            Some(Json::Str(s)) => Some(SubMsP99Source::from_wire(s.as_str())),
            _ => None,
        }
    }

    /// The rating currently recorded for a feature, if any.
    pub fn category_of(&self, name: &str) -> (r: Option<SubMsFeatureCategory>)
        ensures
            r == category_in(self.root_view(), name@),
    {
        let f = match self.root.get("features") {
            Some(x) => x,
            None => return None,
        };
        let e = match f.get(name) {
            Some(x) => x,
            None => return None,
        };
        match e.get("perf") {
            Some(Json::Str(s)) => SubMsFeatureCategory::from_wire(s.as_str()),
            _ => None,
        }
    }

    /// The manifest as pretty JSON.
    pub fn to_json(&self) -> (r: String)
        ensures
            r@ == crate::json::pretty(self.root_view(), 0).push('\n'),
            manifest_ok(self.root_view()) ==> forall|lang: Seq<char>|
                #[trigger] loaded_root(lang, r@) == self.root_view(),
    {
        let r = self.root.to_pretty();
        proof {
            if manifest_ok(self.root_view()) {
                assert forall|lang: Seq<char>| #[trigger] loaded_root(lang, r@) == self.root_view() by {
                    lemma_manifest_round_trip(self.root_view(), lang);
                }
            }
        }
        r
    }
}

} // verus!
