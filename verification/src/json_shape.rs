//! The summary and sweep JSON texts are compact JSON values: each parses
//! back to the value it prints, an object with the documented members in
//! order (an array of them for a sweep).

use vstd::prelude::*;

use crate::harness::zero_pad;
use crate::json::{compact, compact_items, compact_members, member_keys, parse_doc, JsonV};
use crate::json_round_trip::{
    items_ok, lemma_compact_parses_back, lemma_dec_num_token, num_char, num_token, pairs_ok,
    well_formed,
};
use crate::render::{
    comma_join, cpu_json_of, e4_text, kv_json, map_json, nums_json, stage_json_of,
    stage_stats_json, stages_json, summary_head_of, summary_json_of, sweep_json_of,
};
use crate::summary::{SubMsBenchSummary, SubMsBenchSweep, SubMsStageSummary};
use crate::text::{dec, escape_body, json_quote};

verus! {

/// Whether `s` prints inside quotes as it is: no quote, backslash or
/// control character.
pub open spec fn plain_text(s: Seq<char>) -> bool
    decreases s.len(),
{
    s.len() == 0 || (s.last() != '"' && s.last() != '\\' && (s.last() as u32) >= 0x20 && plain_text(
        s.drop_last(),
    ))
}

proof fn lemma_plain_quote(s: Seq<char>)
    requires
        plain_text(s),
    ensures
        json_quote(s) == seq!['"'] + s + seq!['"'],
    decreases s.len(),
{
    if s.len() > 0 {
        lemma_plain_quote(s.drop_last());
        assert(s.drop_last().push(s.last()) =~= s);
    }
    assert(escape_body(s) == s) by {
        lemma_plain_escape(s);
    }
}

proof fn lemma_plain_escape(s: Seq<char>)
    requires
        plain_text(s),
    ensures
        escape_body(s) == s,
    decreases s.len(),
{
    if s.len() > 0 {
        lemma_plain_escape(s.drop_last());
        assert(s.drop_last().push(s.last()) =~= s);
    }
}

/// `"key":value`.
pub open spec fn member_text(key: Seq<char>, v: JsonV) -> Seq<char> {
    json_quote(key) + seq![':'] + compact(v)
}

proof fn lemma_items_join(items: Seq<JsonV>, n: nat)
    requires
        n <= items.len(),
    ensures
        compact_items(items, n) == comma_join(Seq::new(n, |i: int| compact(items[i]))),
    decreases n,
{
    let t = Seq::new(n, |i: int| compact(items[i]));
    if n > 0 {
        lemma_items_join(items, (n - 1) as nat);
        assert(t.drop_last() =~= Seq::new((n - 1) as nat, |i: int| compact(items[i])));
        if n == 1 {
            assert(compact_items(items, 0) == Seq::<char>::empty());
            assert(compact_items(items, 1) =~= compact(items[0]));
        }
    }
}

proof fn lemma_members_join(pairs: Seq<(Seq<char>, JsonV)>, n: nat)
    requires
        n <= pairs.len(),
    ensures
        compact_members(pairs, n) == comma_join(
            Seq::new(n, |i: int| member_text(pairs[i].0, pairs[i].1)),
        ),
    decreases n,
{
    let t = Seq::new(n, |i: int| member_text(pairs[i].0, pairs[i].1));
    if n > 0 {
        lemma_members_join(pairs, (n - 1) as nat);
        assert(t.drop_last() =~= Seq::new(
            (n - 1) as nat,
            |i: int| member_text(pairs[i].0, pairs[i].1),
        ));
        if n == 1 {
            assert(compact_members(pairs, 0) == Seq::<char>::empty());
            assert(compact_members(pairs, 1) =~= member_text(pairs[0].0, pairs[0].1));
        }
    }
}

proof fn lemma_members_prefix(pairs: Seq<(Seq<char>, JsonV)>, p: (Seq<char>, JsonV), m: nat)
    requires
        m <= pairs.len(),
    ensures
        compact_members(pairs.push(p), m) == compact_members(pairs, m),
    decreases m,
{
    if m > 0 {
        lemma_members_prefix(pairs, p, (m - 1) as nat);
        assert(pairs.push(p)[m - 1] == pairs[m - 1]);
    }
}

/// Adding a member adds a comma (after the first) and `"key":value`.
proof fn lemma_members_push(pairs: Seq<(Seq<char>, JsonV)>, p: (Seq<char>, JsonV))
    ensures
        compact_members(pairs.push(p), pairs.len() + 1) == compact_members(pairs, pairs.len()) + (
        if pairs.len() > 0 {
            seq![',']
        } else {
            Seq::empty()
        }) + member_text(p.0, p.1),
{
    lemma_members_prefix(pairs, p, pairs.len());
    assert(pairs.push(p)[pairs.len() as int] == p);
}

/// The literal `pre"key":post` is `pre`, the quoted key, `:` and `post`.
proof fn lemma_key_lead(lit: Seq<char>, pre: Seq<char>, key: Seq<char>, post: Seq<char>)
    requires
        plain_text(key),
        lit =~= pre + seq!['"'] + key + seq!['"', ':'] + post,
    ensures
        lit == pre + json_quote(key) + seq![':'] + post,
{
    lemma_plain_quote(key);
    assert(lit =~= pre + json_quote(key) + seq![':'] + post);
}


/// The numbers as a JSON array of decimal numbers.
pub open spec fn nums_value(v: Seq<u64>) -> JsonV {
    JsonV::Arr(Seq::new(v.len(), |i: int| JsonV::Num(dec(v[i] as nat))))
}

/// The members of one stage's JSON object, in order.
pub open spec fn stage_members(st: SubMsStageSummary) -> Seq<(Seq<char>, JsonV)> {
    seq![
        ("count"@, JsonV::Num(dec(st.count as nat))),
        ("p50_ns"@, JsonV::Num(dec(st.p50_ns as nat))),
        ("p99_ns"@, JsonV::Num(dec(st.p99_ns as nat))),
        ("p999_ns"@, JsonV::Num(dec(st.p999_ns as nat))),
        ("max_ns"@, JsonV::Num(dec(st.max_ns as nat))),
        ("mean_ns"@, JsonV::Num(dec(st.mean_ns as nat))),
        ("stddev_ns"@, JsonV::Num(dec(st.stddev_ns as nat))),
        ("jitter_score"@, JsonV::Num(e4_text(st.jitter_score as nat))),
        ("cdf_buckets_ns"@, nums_value(st.cdf_buckets_ns@)),
        ("samples_ns"@, nums_value(
            match st.samples_ns {
                Some(v) => v@,
                None => Seq::empty(),
            },
        )),
    ]
}

proof fn lemma_nums_text(v: Seq<u64>)
    ensures
        compact(nums_value(v)) == seq!['['] + nums_json(v) + seq![']'],
{
    let items = Seq::new(v.len(), |i: int| JsonV::Num(dec(v[i] as nat)));
    lemma_items_join(items, items.len());
    assert(Seq::new(items.len(), |i: int| compact(items[i])) =~= Seq::new(
        v.len(),
        |i: int| dec(v[i] as nat),
    ));
}

/// Member `j` of a stage's object as text.
pub open spec fn stage_member(st: SubMsStageSummary, j: int) -> Seq<char> {
    member_text(stage_members(st)[j].0, stage_members(st)[j].1)
}

/// The first `n` members of a stage's object joined by commas.
pub open spec fn stage_joined(st: SubMsStageSummary, n: nat) -> Seq<char>
    decreases n,
{
    if n == 0 {
        Seq::empty()
    } else if n == 1 {
        stage_member(st, 0)
    } else {
        stage_joined(st, (n - 1) as nat) + seq![','] + stage_member(st, n - 1)
    }
}

proof fn lemma_stage_members_joined(st: SubMsStageSummary, n: nat)
    requires
        n <= 10,
    ensures
        compact_members(stage_members(st), n) == stage_joined(st, n),
    decreases n,
{
    let ps = stage_members(st);
    if n > 0 {
        let j = n - 1;
        lemma_stage_members_joined(st, j as nat);
        lemma_members_push(ps.take(j), ps[j]);
        assert(ps.take(j).push(ps[j]) =~= ps.take(j + 1));
        lemma_members_same(ps, ps.take(j + 1), n);
        lemma_members_same(ps, ps.take(j), j as nat);
    }
}

proof fn lemma_stage_keys()
    ensures
        "{\"count\":"@ == seq!['{'] + json_quote("count"@) + seq![':'],
        ",\"p50_ns\":"@ == seq![','] + json_quote("p50_ns"@) + seq![':'],
        ",\"p99_ns\":"@ == seq![','] + json_quote("p99_ns"@) + seq![':'],
        ",\"p999_ns\":"@ == seq![','] + json_quote("p999_ns"@) + seq![':'],
        ",\"max_ns\":"@ == seq![','] + json_quote("max_ns"@) + seq![':'],
{
    reveal_strlit("{\"count\":");
    reveal_strlit(",\"p50_ns\":");
    reveal_strlit(",\"p99_ns\":");
    reveal_strlit(",\"p999_ns\":");
    reveal_strlit(",\"max_ns\":");
    reveal_strlit("count");
    reveal_strlit("p50_ns");
    reveal_strlit("p99_ns");
    reveal_strlit("p999_ns");
    reveal_strlit("max_ns");
    reveal_with_fuel(plain_text, 8);
    let e: Seq<char> = Seq::empty();
    lemma_key_lead("{\"count\":"@, seq!['{'], "count"@, e);
    lemma_key_lead(",\"p50_ns\":"@, seq![','], "p50_ns"@, e);
    lemma_key_lead(",\"p99_ns\":"@, seq![','], "p99_ns"@, e);
    lemma_key_lead(",\"p999_ns\":"@, seq![','], "p999_ns"@, e);
    lemma_key_lead(",\"max_ns\":"@, seq![','], "max_ns"@, e);
    assert(e =~= Seq::<char>::empty());
}

proof fn lemma_stage_keys2()
    ensures
        ",\"mean_ns\":"@ == seq![','] + json_quote("mean_ns"@) + seq![':'],
        ",\"stddev_ns\":"@ == seq![','] + json_quote("stddev_ns"@) + seq![':'],
        ",\"jitter_score\":"@ == seq![','] + json_quote("jitter_score"@) + seq![':'],
        ",\"cdf_buckets_ns\":["@ == seq![','] + json_quote("cdf_buckets_ns"@) + seq![':'] + seq!['['],
        "],\"samples_ns\":["@ == seq![']', ','] + json_quote("samples_ns"@) + seq![':'] + seq!['['],
        "]}"@ == seq![']', '}'],
{
    reveal_strlit(",\"mean_ns\":");
    reveal_strlit(",\"stddev_ns\":");
    reveal_strlit(",\"jitter_score\":");
    reveal_strlit(",\"cdf_buckets_ns\":[");
    reveal_strlit("],\"samples_ns\":[");
    reveal_strlit("]}");
    reveal_strlit("mean_ns");
    reveal_strlit("stddev_ns");
    reveal_strlit("jitter_score");
    reveal_strlit("cdf_buckets_ns");
    reveal_strlit("samples_ns");
    reveal_with_fuel(plain_text, 15);
    let e: Seq<char> = Seq::empty();
    lemma_key_lead(",\"mean_ns\":"@, seq![','], "mean_ns"@, e);
    lemma_key_lead(",\"stddev_ns\":"@, seq![','], "stddev_ns"@, e);
    lemma_key_lead(",\"jitter_score\":"@, seq![','], "jitter_score"@, e);
    lemma_key_lead(",\"cdf_buckets_ns\":["@, seq![','], "cdf_buckets_ns"@, seq!['[']);
    lemma_key_lead("],\"samples_ns\":["@, seq![']', ','], "samples_ns"@, seq!['[']);
    assert("]}"@ =~= seq![']', '}']);
    assert(e =~= Seq::<char>::empty());
}

/// One more member after an opening brace and `jk`.
proof fn lemma_member_step(x: Seq<char>, jk: Seq<char>, lead: Seq<char>, q: Seq<char>, v: Seq<char>)
    requires
        x == seq!['{'] + jk,
        lead == seq![','] + q + seq![':'],
    ensures
        x + lead + v == seq!['{'] + (jk + seq![','] + (q + seq![':'] + v)),
{
    assert(x + lead + v =~= seq!['{'] + (jk + seq![','] + (q + seq![':'] + v)));
}

proof fn lemma_stage_tail(
    x: Seq<char>,
    j8: Seq<char>,
    lc: Seq<char>,
    qc: Seq<char>,
    nc: Seq<char>,
    ls: Seq<char>,
    qs: Seq<char>,
    ns: Seq<char>,
    close: Seq<char>,
)
    requires
        x == seq!['{'] + j8,
        lc == seq![','] + qc + seq![':'] + seq!['['],
        ls == seq![']', ','] + qs + seq![':'] + seq!['['],
        close == seq![']', '}'],
    ensures
        x + lc + nc + ls + ns + close == seq!['{'] + (j8 + seq![','] + (qc + seq![':'] + (seq!['['] + nc
            + seq![']'])) + seq![','] + (qs + seq![':'] + (seq!['['] + ns + seq![']']))) + seq!['}'],
{
    assert(x + lc + nc + ls + ns + close =~= seq!['{'] + (j8 + seq![','] + (qc + seq![':'] + (seq![
        '[',
    ] + nc + seq![']'])) + seq![','] + (qs + seq![':'] + (seq!['['] + ns + seq![']']))) + seq!['}']);
}

#[verifier::rlimit(60)]
#[verifier::spinoff_prover]
proof fn lemma_stage_text(st: SubMsStageSummary)
    ensures
        stage_json_of(st) == compact(JsonV::Obj(stage_members(st))),
{
    let ps = stage_members(st);
    lemma_stage_members_joined(st, 10);
    lemma_stage_keys();
    lemma_stage_keys2();
    let d0 = dec(st.count as nat);
    let d1 = dec(st.p50_ns as nat);
    let d2 = dec(st.p99_ns as nat);
    let d3 = dec(st.p999_ns as nat);
    let d4 = dec(st.max_ns as nat);
    let d5 = dec(st.mean_ns as nat);
    let d6 = dec(st.stddev_ns as nat);
    let d7 = e4_text(st.jitter_score as nat);
    let a1 = "{\"count\":"@ + d0;
    assert(stage_joined(st, 1) == json_quote("count"@) + seq![':'] + d0);
    assert(a1 =~= seq!['{'] + stage_joined(st, 1));
    assert(stage_joined(st, 2) == stage_joined(st, 1) + seq![','] + (json_quote("p50_ns"@) + seq![':'] + d1));
    lemma_member_step(a1, stage_joined(st, 1), ",\"p50_ns\":"@, json_quote("p50_ns"@), d1);
    let a2 = a1 + ",\"p50_ns\":"@ + d1;
    assert(stage_joined(st, 3) == stage_joined(st, 2) + seq![','] + (json_quote("p99_ns"@) + seq![':'] + d2));
    lemma_member_step(a2, stage_joined(st, 2), ",\"p99_ns\":"@, json_quote("p99_ns"@), d2);
    let a3 = a2 + ",\"p99_ns\":"@ + d2;
    assert(stage_joined(st, 4) == stage_joined(st, 3) + seq![','] + (json_quote("p999_ns"@) + seq![':'] + d3));
    lemma_member_step(a3, stage_joined(st, 3), ",\"p999_ns\":"@, json_quote("p999_ns"@), d3);
    let a4 = a3 + ",\"p999_ns\":"@ + d3;
    assert(stage_joined(st, 5) == stage_joined(st, 4) + seq![','] + (json_quote("max_ns"@) + seq![':'] + d4));
    lemma_member_step(a4, stage_joined(st, 4), ",\"max_ns\":"@, json_quote("max_ns"@), d4);
    let a5 = a4 + ",\"max_ns\":"@ + d4;
    assert(stage_joined(st, 6) == stage_joined(st, 5) + seq![','] + (json_quote("mean_ns"@) + seq![':'] + d5));
    lemma_member_step(a5, stage_joined(st, 5), ",\"mean_ns\":"@, json_quote("mean_ns"@), d5);
    let a6 = a5 + ",\"mean_ns\":"@ + d5;
    assert(stage_joined(st, 7) == stage_joined(st, 6) + seq![','] + (json_quote("stddev_ns"@) + seq![':'] + d6));
    lemma_member_step(a6, stage_joined(st, 6), ",\"stddev_ns\":"@, json_quote("stddev_ns"@), d6);
    let a7 = a6 + ",\"stddev_ns\":"@ + d6;
    assert(a7 == stage_stats_json(st));
    assert(stage_joined(st, 8) == stage_joined(st, 7) + seq![','] + (json_quote("jitter_score"@) + seq![':'] + d7));
    lemma_member_step(a7, stage_joined(st, 7), ",\"jitter_score\":"@, json_quote("jitter_score"@), d7);
    let a8 = a7 + ",\"jitter_score\":"@ + d7;
    lemma_nums_text(st.cdf_buckets_ns@);
    let sv = match st.samples_ns {
        Some(v) => v@,
        None => Seq::<u64>::empty(),
    };
    lemma_nums_text(sv);
    assert(nums_json(Seq::<u64>::empty()) =~= Seq::<char>::empty());
    let ns = match st.samples_ns {
        Some(v) => nums_json(v@),
        None => Seq::empty(),
    };
    assert(ns == nums_json(sv));
    assert(stage_joined(st, 9) == stage_joined(st, 8) + seq![','] + (json_quote("cdf_buckets_ns"@)
        + seq![':'] + (seq!['['] + nums_json(st.cdf_buckets_ns@) + seq![']'])));
    assert(stage_joined(st, 10) == stage_joined(st, 9) + seq![','] + (json_quote("samples_ns"@)
        + seq![':'] + (seq!['['] + ns + seq![']'])));
    lemma_stage_tail(
        a8,
        stage_joined(st, 8),
        ",\"cdf_buckets_ns\":["@,
        json_quote("cdf_buckets_ns"@),
        nums_json(st.cdf_buckets_ns@),
        "],\"samples_ns\":["@,
        json_quote("samples_ns"@),
        ns,
        "]}"@,
    );
}

proof fn lemma_members_same(a: Seq<(Seq<char>, JsonV)>, b: Seq<(Seq<char>, JsonV)>, n: nat)
    requires
        n <= a.len(),
        n <= b.len(),
        forall|i: int| 0 <= i < n ==> a[i] == b[i],
    ensures
        compact_members(a, n) == compact_members(b, n),
    decreases n,
{
    if n > 0 {
        lemma_members_same(a, b, (n - 1) as nat);
    }
}


proof fn lemma_e4_num_token(x: nat)
    ensures
        num_token(e4_text(x)),
{
    crate::text::lemma_dec_digits(x / 10000);
    crate::text::lemma_dec_digits(x % 10000);
    let a = dec(x / 10000);
    let b = zero_pad(dec(x % 10000), 4);
    let t = e4_text(x);
    assert forall|i: int| 0 <= i < b.len() implies crate::text::is_digit(#[trigger] b[i]) by {
        let d = dec(x % 10000);
        if d.len() < 4 {
            let z = (4 - d.len()) as int;
            if i >= z {
                assert(b[i] == d[i - z]);
            }
        }
    }
    assert forall|i: int| 0 <= i < t.len() implies num_char(#[trigger] t[i]) by {
        if i < a.len() {
            assert(t[i] == a[i]);
            assert(crate::text::is_digit(a[i]));
        } else if i > a.len() {
            assert(t[i] == b[i - a.len() - 1]);
        }
    }
    assert(t[0] == a[0]);
    assert(crate::text::is_digit(a[0]));
}

proof fn lemma_nums_ok(v: Seq<u64>)
    ensures
        well_formed(nums_value(v)),
{
    let items = Seq::new(v.len(), |i: int| JsonV::Num(dec(v[i] as nat)));
    assert forall|i: int| 0 <= i < items.len() implies well_formed(#[trigger] items[i]) by {
        lemma_dec_num_token(v[i] as nat);
    }
    lemma_items_ok_all(items, items.len());
}

proof fn lemma_pairs_ok_all(pairs: Seq<(Seq<char>, JsonV)>, n: nat)
    requires
        n <= pairs.len(),
        forall|i: int| 0 <= i < pairs.len() ==> well_formed(#[trigger] pairs[i].1),
    ensures
        pairs_ok(pairs, n),
    decreases n,
{
    if n > 0 {
        lemma_pairs_ok_all(pairs, (n - 1) as nat);
    }
}

proof fn lemma_stage_ok(st: SubMsStageSummary)
    ensures
        well_formed(JsonV::Obj(stage_members(st))),
{
    let ps = stage_members(st);
    lemma_dec_num_token(st.count as nat);
    lemma_dec_num_token(st.p50_ns as nat);
    lemma_dec_num_token(st.p99_ns as nat);
    lemma_dec_num_token(st.p999_ns as nat);
    lemma_dec_num_token(st.max_ns as nat);
    lemma_dec_num_token(st.mean_ns as nat);
    lemma_dec_num_token(st.stddev_ns as nat);
    lemma_e4_num_token(st.jitter_score as nat);
    lemma_nums_ok(st.cdf_buckets_ns@);
    lemma_nums_ok(
        match st.samples_ns {
            Some(v) => v@,
            None => Seq::empty(),
        },
    );
    assert forall|i: int| 0 <= i < ps.len() implies well_formed(#[trigger] ps[i].1) by {}
    lemma_pairs_ok_all(ps, ps.len());
}

proof fn lemma_items_ok_all(items: Seq<JsonV>, n: nat)
    requires
        n <= items.len(),
        forall|i: int| 0 <= i < items.len() ==> well_formed(#[trigger] items[i]),
    ensures
        items_ok(items, n),
    decreases n,
{
    if n > 0 {
        lemma_items_ok_all(items, (n - 1) as nat);
    }
}


/// A string map as a JSON object of strings, entries in order.
pub open spec fn str_obj(e: Seq<(Seq<char>, Seq<char>)>) -> JsonV {
    JsonV::Obj(Seq::new(e.len(), |i: int| (e[i].0, JsonV::Str(e[i].1))))
}

/// The run's CPU placement: `null`, or an object with `core` and
/// `affinity`, each `null` when unknown.
pub open spec fn cpu_value(core: Option<u32>, affinity: Option<Seq<char>>) -> JsonV {
    if core is None && affinity is None {
        JsonV::Null
    } else {
        JsonV::Obj(
            seq![
                ("core"@, match core {
                    Some(c) => JsonV::Num(dec(c as nat)),
                    None => JsonV::Null,
                }),
                ("affinity"@, match affinity {
                    Some(a) => JsonV::Str(a),
                    None => JsonV::Null,
                }),
            ],
        )
    }
}

/// The stages object: each stage's name and its object, in order.
pub open spec fn stages_value(st: Seq<SubMsStageSummary>) -> JsonV {
    JsonV::Obj(Seq::new(st.len(), |i: int| (st[i].name@, JsonV::Obj(stage_members(st[i])))))
}

/// The members of a summary's JSON object, in order.
pub open spec fn summary_members(s: SubMsBenchSummary) -> Seq<(Seq<char>, JsonV)> {
    seq![
        ("workload"@, JsonV::Str(s.workload@)),
        ("lang"@, JsonV::Str(s.lang@)),
        ("timestamp"@, JsonV::Str(s.timestamp@)),
        ("inputs"@, str_obj(s.inputs.entries_view())),
        ("meta"@, str_obj(s.meta.entries_view())),
        ("cpu"@, cpu_value(
            s.cpu_core,
            match s.cpu_affinity {
                Some(a) => Some(a@),
                None => None,
            },
        )),
        ("stages"@, stages_value(s.stages@)),
    ]
}

/// The JSON value a summary's text prints.
pub open spec fn summary_value(s: SubMsBenchSummary) -> JsonV {
    JsonV::Obj(summary_members(s))
}

proof fn lemma_str_obj_text(e: Seq<(Seq<char>, Seq<char>)>)
    ensures
        compact(str_obj(e)) == map_json(e),
        well_formed(str_obj(e)),
{
    let ps = Seq::new(e.len(), |i: int| (e[i].0, JsonV::Str(e[i].1)));
    lemma_members_join(ps, ps.len());
    assert(Seq::new(ps.len(), |i: int| member_text(ps[i].0, ps[i].1)) =~= Seq::new(
        e.len(),
        |i: int| kv_json(e[i].0, e[i].1),
    ));
    assert forall|i: int| 0 <= i < ps.len() implies well_formed(#[trigger] ps[i].1) by {}
    lemma_pairs_ok_all(ps, ps.len());
}

proof fn lemma_cpu_text(core: Option<u32>, affinity: Option<Seq<char>>)
    ensures
        compact(cpu_value(core, affinity)) == cpu_json_of(core, affinity),
        well_formed(cpu_value(core, affinity)),
{
    reveal_strlit("null");
    assert("null"@ =~= seq!['n', 'u', 'l', 'l']);
    if !(core is None && affinity is None) {
        reveal_strlit("{\"core\":");
        reveal_strlit(",\"affinity\":");
        reveal_strlit("core");
        reveal_strlit("affinity");
        reveal_with_fuel(plain_text, 10);
        let e: Seq<char> = Seq::empty();
        lemma_key_lead("{\"core\":"@, seq!['{'], "core"@, e);
        lemma_key_lead(",\"affinity\":"@, seq![','], "affinity"@, e);
        assert(e =~= Seq::<char>::empty());
        let ps = cpu_value(core, affinity)->Obj_0;
        let cv = ps[0].1;
        let av = ps[1].1;
        assert(compact_members(ps, 0) == Seq::<char>::empty());
        assert(compact_members(ps, 1) =~= member_text("core"@, cv));
        assert(compact_members(ps, 2) == compact_members(ps, 1) + seq![','] + member_text(
            "affinity"@,
            av,
        ));
        let ct = match core {
            Some(c) => dec(c as nat),
            None => "null"@,
        };
        let at = match affinity {
            Some(a) => json_quote(a),
            None => "null"@,
        };
        assert(compact(cv) == ct);
        assert(compact(av) == at);
        assert(cpu_json_of(core, affinity) =~= seq!['{'] + compact_members(ps, 2) + seq!['}']);
        if let Some(c) = core {
            lemma_dec_num_token(c as nat);
        }
        lemma_pairs_ok_all(ps, 2);
    }
}

proof fn lemma_stages_text(st: Seq<SubMsStageSummary>)
    ensures
        compact(stages_value(st)) == seq!['{'] + stages_json(st) + seq!['}'],
        well_formed(stages_value(st)),
{
    let ps = stages_value(st)->Obj_0;
    lemma_members_join(ps, ps.len());
    assert forall|i: int| 0 <= i < ps.len() implies member_text(ps[i].0, ps[i].1) == json_quote(
        st[i].name@,
    ) + seq![':'] + stage_json_of(st[i]) && well_formed(#[trigger] ps[i].1) by {
        lemma_stage_text(st[i]);
        lemma_stage_ok(st[i]);
    }
    assert(Seq::new(ps.len(), |i: int| member_text(ps[i].0, ps[i].1)) =~= Seq::new(
        st.len(),
        |i: int| json_quote(st[i].name@) + seq![':'] + stage_json_of(st[i]),
    ));
    lemma_pairs_ok_all(ps, ps.len());
}


proof fn lemma_summary_keys()
    ensures
        ",\"inputs\":"@ == seq![','] + json_quote("inputs"@) + seq![':'],
        ",\"meta\":"@ == seq![','] + json_quote("meta"@) + seq![':'],
        ",\"cpu\":"@ == seq![','] + json_quote("cpu"@) + seq![':'],
        ",\"stages\":{"@ == seq![','] + json_quote("stages"@) + seq![':'] + seq!['{'],
        "}}"@ == seq!['}', '}'],
{
    reveal_strlit(",\"inputs\":");
    reveal_strlit(",\"meta\":");
    reveal_strlit(",\"cpu\":");
    reveal_strlit(",\"stages\":{");
    reveal_strlit("}}");
    reveal_strlit("inputs");
    reveal_strlit("meta");
    reveal_strlit("cpu");
    reveal_strlit("stages");
    reveal_with_fuel(plain_text, 8);
    let e: Seq<char> = Seq::empty();
    lemma_key_lead(",\"inputs\":"@, seq![','], "inputs"@, e);
    lemma_key_lead(",\"meta\":"@, seq![','], "meta"@, e);
    lemma_key_lead(",\"cpu\":"@, seq![','], "cpu"@, e);
    lemma_key_lead(",\"stages\":{"@, seq![','], "stages"@, seq!['{']);
    assert("}}"@ =~= seq!['}', '}']);
    assert(e =~= Seq::<char>::empty());
}

proof fn lemma_plain_step(x: Seq<char>, jk: Seq<char>, m: Seq<char>)
    requires
        x == seq!['{'] + jk,
    ensures
        x + seq![','] + m == seq!['{'] + (jk + seq![','] + m),
{
    assert(x + seq![','] + m =~= seq!['{'] + (jk + seq![','] + m));
}

proof fn lemma_summary_tail(x: Seq<char>, j6: Seq<char>, lead: Seq<char>, q: Seq<char>, body: Seq<char>, close: Seq<char>)
    requires
        x == seq!['{'] + j6,
        lead == seq![','] + q + seq![':'] + seq!['{'],
        close == seq!['}', '}'],
    ensures
        x + lead + body + close == seq!['{'] + (j6 + seq![','] + (q + seq![':'] + (seq!['{'] + body
            + seq!['}']))) + seq!['}'],
{
    assert(x + lead + body + close =~= seq!['{'] + (j6 + seq![','] + (q + seq![':'] + (seq!['{']
        + body + seq!['}']))) + seq!['}']);
}

proof fn lemma_summary_members(s: SubMsBenchSummary)
    ensures
        ({
            let ps = summary_members(s);
            &&& compact_members(ps, 1) == kv_json("workload"@, s.workload@)
            &&& compact_members(ps, 2) == compact_members(ps, 1) + seq![','] + kv_json("lang"@, s.lang@)
            &&& compact_members(ps, 3) == compact_members(ps, 2) + seq![','] + kv_json(
                "timestamp"@,
                s.timestamp@,
            )
            &&& compact_members(ps, 4) == compact_members(ps, 3) + seq![','] + (json_quote("inputs"@)
                + seq![':'] + compact(ps[3].1))
            &&& compact_members(ps, 5) == compact_members(ps, 4) + seq![','] + (json_quote("meta"@)
                + seq![':'] + compact(ps[4].1))
            &&& compact_members(ps, 6) == compact_members(ps, 5) + seq![','] + (json_quote("cpu"@)
                + seq![':'] + compact(ps[5].1))
            &&& compact_members(ps, 7) == compact_members(ps, 6) + seq![','] + (json_quote("stages"@)
                + seq![':'] + compact(ps[6].1))
            &&& ps[3].1 == str_obj(s.inputs.entries_view())
            &&& ps[4].1 == str_obj(s.meta.entries_view())
            &&& ps[5].1 == cpu_value(
                s.cpu_core,
                match s.cpu_affinity {
                    Some(a) => Some(a@),
                    None => None,
                },
            )
            &&& ps[6].1 == stages_value(s.stages@)
            &&& ps.len() == 7
        }),
{
    let ps = summary_members(s);
    assert(ps[0] == ("workload"@, JsonV::Str(s.workload@)));
    assert(ps[1] == ("lang"@, JsonV::Str(s.lang@)));
    assert(ps[2] == ("timestamp"@, JsonV::Str(s.timestamp@)));
    assert(compact(JsonV::Str(s.workload@)) == json_quote(s.workload@));
    assert(compact(JsonV::Str(s.lang@)) == json_quote(s.lang@));
    assert(compact(JsonV::Str(s.timestamp@)) == json_quote(s.timestamp@));
    assert(compact_members(ps, 0) == Seq::<char>::empty());
    assert(compact_members(ps, 1) =~= kv_json("workload"@, s.workload@));
}

#[verifier::rlimit(60)]
#[verifier::spinoff_prover]
proof fn lemma_summary_text(s: SubMsBenchSummary)
    ensures
        summary_json_of(s) == compact(summary_value(s)),
        well_formed(summary_value(s)),
{
    reveal(summary_json_of);
    let ps = summary_members(s);
    let aff = match s.cpu_affinity {
        Some(a) => Some(a@),
        None => None,
    };
    lemma_summary_members(s);
    lemma_summary_keys();
    lemma_str_obj_text(s.inputs.entries_view());
    lemma_str_obj_text(s.meta.entries_view());
    lemma_cpu_text(s.cpu_core, aff);
    lemma_stages_text(s.stages@);
    let a1 = seq!['{'] + kv_json("workload"@, s.workload@);
    lemma_plain_step(a1, compact_members(ps, 1), kv_json("lang"@, s.lang@));
    let a2 = a1 + seq![','] + kv_json("lang"@, s.lang@);
    lemma_plain_step(a2, compact_members(ps, 2), kv_json("timestamp"@, s.timestamp@));
    let a3 = a2 + seq![','] + kv_json("timestamp"@, s.timestamp@);
    let mi = map_json(s.inputs.entries_view());
    lemma_member_step(a3, compact_members(ps, 3), ",\"inputs\":"@, json_quote("inputs"@), mi);
    let a4 = a3 + ",\"inputs\":"@ + mi;
    let mm = map_json(s.meta.entries_view());
    lemma_member_step(a4, compact_members(ps, 4), ",\"meta\":"@, json_quote("meta"@), mm);
    let a5 = a4 + ",\"meta\":"@ + mm;
    let cj = cpu_json_of(s.cpu_core, aff);
    lemma_member_step(a5, compact_members(ps, 5), ",\"cpu\":"@, json_quote("cpu"@), cj);
    let a6 = a5 + ",\"cpu\":"@ + cj;
    assert(a6 == summary_head_of(s));
    let sj = stages_json(s.stages@);
    lemma_summary_tail(a6, compact_members(ps, 6), ",\"stages\":{"@, json_quote("stages"@), sj, "}}"@);
    assert forall|i: int| 0 <= i < ps.len() implies well_formed(#[trigger] ps[i].1) by {}
    lemma_pairs_ok_all(ps, ps.len());
}

/// The summary's JSON text is a JSON document: with or without the writer's
/// trailing newline it parses to the summary's value, an object whose
/// members are, in order, `workload`, `lang`, `timestamp`, `inputs`, `meta`,
/// `cpu` and `stages`; `stages` holds one member per stage, named after it,
/// in order, each an object of `count`, `p50_ns`, `p99_ns`, `p999_ns`,
/// `max_ns`, `mean_ns`, `stddev_ns`, `jitter_score`, `cdf_buckets_ns` and
/// `samples_ns`.
pub proof fn lemma_summary_json_parses_back(s: SubMsBenchSummary)
    ensures
        parse_doc(summary_json_of(s)) == Ok::<JsonV, Seq<char>>(summary_value(s)),
        parse_doc(summary_json_of(s).push('\n')) == Ok::<JsonV, Seq<char>>(summary_value(s)),
        member_keys(summary_members(s)) == seq![
            "workload"@,
            "lang"@,
            "timestamp"@,
            "inputs"@,
            "meta"@,
            "cpu"@,
            "stages"@,
        ],
        member_keys(stages_value(s.stages@)->Obj_0) == Seq::new(
            s.stages@.len(),
            |i: int| s.stages@[i].name@,
        ),
        forall|i: int|
            0 <= i < s.stages@.len() ==> member_keys(stage_members(#[trigger] s.stages@[i])) == seq![
                "count"@,
                "p50_ns"@,
                "p99_ns"@,
                "p999_ns"@,
                "max_ns"@,
                "mean_ns"@,
                "stddev_ns"@,
                "jitter_score"@,
                "cdf_buckets_ns"@,
                "samples_ns"@,
            ],
{
    lemma_summary_text(s);
    lemma_compact_parses_back(summary_value(s));
    assert(member_keys(summary_members(s)) =~= seq![
        "workload"@,
        "lang"@,
        "timestamp"@,
        "inputs"@,
        "meta"@,
        "cpu"@,
        "stages"@,
    ]);
    assert(member_keys(stages_value(s.stages@)->Obj_0) =~= Seq::new(
        s.stages@.len(),
        |i: int| s.stages@[i].name@,
    ));
    assert forall|i: int| 0 <= i < s.stages@.len() implies member_keys(
        stage_members(#[trigger] s.stages@[i]),
    ) == seq![
        "count"@,
        "p50_ns"@,
        "p99_ns"@,
        "p999_ns"@,
        "max_ns"@,
        "mean_ns"@,
        "stddev_ns"@,
        "jitter_score"@,
        "cdf_buckets_ns"@,
        "samples_ns"@,
    ] by {
        assert(member_keys(stage_members(s.stages@[i])) =~= seq![
            "count"@,
            "p50_ns"@,
            "p99_ns"@,
            "p999_ns"@,
            "max_ns"@,
            "mean_ns"@,
            "stddev_ns"@,
            "jitter_score"@,
            "cdf_buckets_ns"@,
            "samples_ns"@,
        ]);
    }
}

/// The sweep's JSON text is a JSON document: with or without the writer's
/// trailing newline it parses to an array holding each run's summary value,
/// in order.
pub proof fn lemma_sweep_json_parses_back(sw: SubMsBenchSweep)
    ensures
        parse_doc(sweep_json_of(sw)) == Ok::<JsonV, Seq<char>>(
            JsonV::Arr(Seq::new(sw.runs@.len(), |i: int| summary_value(sw.runs@[i]))),
        ),
        parse_doc(sweep_json_of(sw).push('\n')) == Ok::<JsonV, Seq<char>>(
            JsonV::Arr(Seq::new(sw.runs@.len(), |i: int| summary_value(sw.runs@[i]))),
        ),
{
    let items = Seq::new(sw.runs@.len(), |i: int| summary_value(sw.runs@[i]));
    lemma_items_join(items, items.len());
    assert forall|i: int| 0 <= i < items.len() implies compact(#[trigger] items[i])
        == summary_json_of(sw.runs@[i]) && well_formed(items[i]) by {
        lemma_summary_text(sw.runs@[i]);
    }
    assert(Seq::new(items.len(), |i: int| compact(items[i])) =~= Seq::new(
        sw.runs@.len(),
        |i: int| summary_json_of(sw.runs@[i]),
    ));
    lemma_items_ok_all(items, items.len());
    lemma_compact_parses_back(JsonV::Arr(items));
}

} // verus!
