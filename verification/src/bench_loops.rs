//! Ready-made timing loops for the common recipe shapes: an operation per
//! index, per generated key, or per key filled into a template.

use vstd::prelude::*;

use crate::harness::{elapsed_ns_since, instant_now, SubMsPerfHarness, SubMsStage};
use crate::text::{dec, push_char, push_dec, push_str, to_chars};
use crate::util::SubMsLcg;

verus! {

/// What a timing loop leaves: one more stage, named `name`, holding `n`
/// samples, everything before it unchanged.
pub open spec fn timed_stage_added(before: SubMsPerfHarness, after: SubMsPerfHarness, name: Seq<char>, n: nat) -> bool {
    &&& after.stages_view().len() == before.stages_view().len() + 1
    &&& after.stages_view().drop_last() == before.stages_view()
    &&& after.stages_view().last().name_view() == name
    &&& after.stages_view().last().samples_view().len() == n
    &&& after.workload_view() == before.workload_view()
    &&& after.lang_view() == before.lang_view()
    &&& after.inputs_entries() == before.inputs_entries()
    &&& after.meta_entries() == before.meta_entries()
}

/// Time `op(i)` for `i` in `0..n`, one sample each, into a new stage `name`.
pub fn bench_indexed_op<F: FnMut(usize)>(h: &mut SubMsPerfHarness, name: &str, n: usize, mut op: F)
    requires
        forall|i: usize| op.requires((i,)),
    ensures
        timed_stage_added(*old(h), *final(h), name@, n as nat),
{
    let st: &mut SubMsStage = h.stage(name, n);
    let mut i: usize = 0;
    while i < n
        invariant
            forall|i: usize| op.requires((i,)),
            i <= n,
            st.samples_view().len() == i,
            st.name_view() == name@,
        decreases n - i,
    {
        let t0 = instant_now();
        op(i);
        let ns = elapsed_ns_since(&t0);
        st.record(ns);
        i += 1;
    }
    assert(h.stages_view().drop_last() =~= old(h).stages_view());
}

/// The `i`-th key [`bench_keyed_op`] hands out is `key-` followed by the
/// `i`-th draw of a [`SubMsLcg`] seeded with `seed`.
pub fn bench_keyed_op<F: FnMut(&str)>(h: &mut SubMsPerfHarness, name: &str, n: usize, seed: u64, mut op: F)
    requires
        forall|k: &str| op.requires((k,)),
    ensures
        timed_stage_added(*old(h), *final(h), name@, n as nat),
{
    let mut rng = SubMsLcg::new(seed);
    let st: &mut SubMsStage = h.stage(name, n);
    let mut i: usize = 0;
    while i < n
        invariant
            forall|k: &str| op.requires((k,)),
            i <= n,
            st.samples_view().len() == i,
            st.name_view() == name@,
        decreases n - i,
    {
        let mut key = String::new();
        push_str(&mut key, "key-");
        push_dec(&mut key, rng.next_u32() as u64);
        let t0 = instant_now();
        op(key.as_str());
        let ns = elapsed_ns_since(&t0);
        st.record(ns);
        i += 1;
    }
    assert(h.stages_view().drop_last() =~= old(h).stages_view());
}

/// `template` with every `{}` replaced by `d`.
pub open spec fn fill_template(t: Seq<char>, d: Seq<char>) -> Seq<char>
    decreases t.len(),
{
    if t.len() == 0 {
        Seq::empty()
    } else if t.len() >= 2 && t[0] == '{' && t[1] == '}' {
        d + fill_template(t.skip(2), d)
    } else {
        seq![t[0]] + fill_template(t.skip(1), d)
    }
}

/// `template` with every `{}` replaced by the decimal `i`.
pub fn fill_index(template: &str, i: u64) -> (r: String)
    ensures
        r@ == fill_template(template@, dec(i as nat)),
{
    let t = to_chars(template);
    let d = crate::text::dec_string(i);
    let mut out = String::new();
    let mut j: usize = 0;
    assert(t@.skip(0) =~= t@);
    assert(out@ + fill_template(t@, d@) =~= fill_template(t@, d@));
    while j < t.len()
        invariant
            j <= t@.len(),
            d@ == dec(i as nat),
            out@ + fill_template(t@.skip(j as int), d@) == fill_template(template@, d@),
            t@ == template@,
        decreases t@.len() - j,
    {
        let ghost rest = t@.skip(j as int);
        if j + 1 < t.len() && t[j] == '{' && t[j + 1] == '}' {
            assert(rest.skip(2) == t@.skip(j as int + 2));
            push_str(&mut out, d.as_str());
            assert(out@ + fill_template(t@.skip(j as int + 2), d@) =~= fill_template(template@, d@));
            j += 2;
        } else {
            assert(rest.skip(1) == t@.skip(j as int + 1));
            push_char(&mut out, t[j]);
            assert(out@ + fill_template(t@.skip(j as int + 1), d@) =~= fill_template(template@, d@));
            j += 1;
        }
    }
    assert(t@.skip(j as int) =~= Seq::<char>::empty());
    assert(out@ =~= out@ + fill_template(Seq::<char>::empty(), d@));
    out
}

/// Time `op(key)` for `i` in `0..n`, the key being `template` with `{}`
/// replaced by `i`, one sample each, into a new stage `name`.
pub fn bench_templated_op<F: FnMut(&str)>(
    h: &mut SubMsPerfHarness,
    name: &str,
    n: usize,
    template: &str,
    mut op: F,
)
    requires
        forall|k: &str| op.requires((k,)),
    ensures
        timed_stage_added(*old(h), *final(h), name@, n as nat),
{
    let st: &mut SubMsStage = h.stage(name, n);
    let mut i: usize = 0;
    while i < n
        invariant
            forall|k: &str| op.requires((k,)),
            i <= n,
            st.samples_view().len() == i,
            st.name_view() == name@,
        decreases n - i,
    {
        let key = fill_index(template, i as u64);
        let t0 = instant_now();
        op(key.as_str());
        let ns = elapsed_ns_since(&t0);
        st.record(ns);
        i += 1;
    }
    assert(h.stages_view().drop_last() =~= old(h).stages_view());
}

} // verus!
