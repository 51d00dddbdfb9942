//! Presenters over a [`SubMsBenchSummary`]: the fixed-width percentile
//! table, the stable JSON shape, the pivoted sweep table and the sweep JSON
//! array. Each renders to a byte buffer; none recomputes a statistic.

use vstd::prelude::*;

use crate::harness::{push_zero_padded, zero_pad};
use crate::summary::{first_summary_stage, SubMsBenchSummary, SubMsBenchSweep, SubMsStageSummary};
use crate::text::{
    dec, json_quote, pad_left, pad_right, push_char, push_dec, push_json_str, push_pad_left,
    push_pad_right, push_str,
};
use crate::units::{format_ns, format_ns_text};

verus! {

#[verifier::external_type_specification]
#[verifier::external_body]
pub struct ExIoError(std::io::Error);

// ---------------------------------------------------------------------
// Text building blocks
// ---------------------------------------------------------------------

/// The items separated by commas.
pub open spec fn comma_join(items: Seq<Seq<char>>) -> Seq<char>
    decreases items.len(),
{
    if items.len() == 0 {
        Seq::empty()
    } else if items.len() == 1 {
        items[0]
    } else {
        comma_join(items.drop_last()) + seq![','] + items.last()
    }
}

/// The lines one after the other.
pub open spec fn concat(items: Seq<Seq<char>>) -> Seq<char>
    decreases items.len(),
{
    if items.len() == 0 {
        Seq::empty()
    } else {
        concat(items.drop_last()) + items.last()
    }
}

proof fn lemma_comma_join_step(items: Seq<Seq<char>>, i: int)
    requires
        0 <= i < items.len(),
    ensures
        comma_join(items.take(i + 1)) == comma_join(items.take(i)) + (if i > 0 {
            seq![',']
        } else {
            Seq::<char>::empty()
        }) + items[i],
{
    let t = items.take(i + 1);
    assert(t.drop_last() == items.take(i));
    if i == 0 {
        assert(comma_join(items.take(0)) == Seq::<char>::empty());
        assert(Seq::<char>::empty() + Seq::<char>::empty() + items[0] == items[0]);
    }
}

proof fn lemma_concat_step(items: Seq<Seq<char>>, i: int)
    requires
        0 <= i < items.len(),
    ensures
        concat(items.take(i + 1)) == concat(items.take(i)) + items[i],
{
    assert(items.take(i + 1).drop_last() == items.take(i));
}

/// Appends the UTF-8 bytes of `s`.
pub fn push_utf8(out: &mut Vec<u8>, s: &str)
    ensures
        final(out)@ == old(out)@ + vstd::utf8::encode_utf8(s@),
{
    let b = s.as_bytes();
    let ghost start = out@;
    let mut i: usize = 0;
    while i < b.len()
        invariant
            i <= b@.len(),
            b@ == vstd::utf8::encode_utf8(s@),
            out@ == start + b@.take(i as int),
            start == old(out)@,
        decreases b@.len() - i,
    {
        out.push(b[i]);
        assert(b@.take(i as int + 1) == b@.take(i as int).push(b@[i as int]));
        assert(start + b@.take(i as int + 1) =~= (start + b@.take(i as int)).push(b@[i as int]));
        i += 1;
    }
    assert(b@.take(b@.len() as int) == b@);
}

// ---------------------------------------------------------------------
// JSON shape
// ---------------------------------------------------------------------

/// `"k":"v"`.
pub open spec fn kv_json(k: Seq<char>, v: Seq<char>) -> Seq<char> {
    json_quote(k) + seq![':'] + json_quote(v)
}

/// A string map as a JSON object, entries in order.
pub open spec fn map_json(e: Seq<(Seq<char>, Seq<char>)>) -> Seq<char> {
    seq!['{'] + comma_join(Seq::new(e.len(), |i: int| kv_json(e[i].0, e[i].1))) + seq!['}']
}

/// The numbers in decimal, comma-separated.
pub open spec fn nums_json(v: Seq<u64>) -> Seq<char> {
    comma_join(Seq::new(v.len(), |i: int| dec(v[i] as nat)))
}

/// The run's CPU placement: `null` when nothing is known, else an object with
/// `core` and `affinity`, each `null` when unknown.
pub open spec fn cpu_json_of(core: Option<u32>, affinity: Option<Seq<char>>) -> Seq<char> {
    if core is None && affinity is None {
        "null"@
    } else {
        "{\"core\":"@ + (match core {
            Some(c) => dec(c as nat),
            None => "null"@,
        }) + ",\"affinity\":"@ + (match affinity {
            Some(a) => json_quote(a),
            None => "null"@,
        }) + seq!['}']
    }
}

/// A ten-thousandths value with four decimals (`0.1234`).
pub open spec fn e4_text(x: nat) -> Seq<char> {
    dec(x / 10000) + seq!['.'] + zero_pad(dec(x % 10000), 4)
}

/// The counting fields of a stage's JSON object (through `stddev_ns`).
pub open spec fn stage_stats_json(st: SubMsStageSummary) -> Seq<char> {
    "{\"count\":"@ + dec(st.count as nat) + ",\"p50_ns\":"@ + dec(st.p50_ns as nat)
        + ",\"p99_ns\":"@ + dec(st.p99_ns as nat) + ",\"p999_ns\":"@ + dec(st.p999_ns as nat)
        + ",\"max_ns\":"@ + dec(st.max_ns as nat) + ",\"mean_ns\":"@ + dec(st.mean_ns as nat)
        + ",\"stddev_ns\":"@ + dec(st.stddev_ns as nat)
}

/// One stage's JSON object.
pub open spec fn stage_json_of(st: SubMsStageSummary) -> Seq<char> {
    stage_stats_json(st) + ",\"jitter_score\":"@ + e4_text(st.jitter_score as nat)
        + ",\"cdf_buckets_ns\":["@ + nums_json(st.cdf_buckets_ns@) + "],\"samples_ns\":["@ + (
    match st.samples_ns {
        Some(v) => nums_json(v@),
        None => Seq::empty(),
    }) + "]}"@
}

/// `"<name>":{...}` for each stage, comma-separated.
pub open spec fn stages_json(st: Seq<SubMsStageSummary>) -> Seq<char> {
    comma_join(
        Seq::new(st.len(), |i: int| json_quote(st[i].name@) + seq![':'] + stage_json_of(st[i])),
    )
}

/// The summary's JSON object up to (and including) the CPU placement.
pub open spec fn summary_head_of(s: SubMsBenchSummary) -> Seq<char> {
    seq!['{'] + kv_json("workload"@, s.workload@) + seq![','] + kv_json("lang"@, s.lang@) + seq![
        ',',
    ] + kv_json("timestamp"@, s.timestamp@) + ",\"inputs\":"@ + map_json(s.inputs.entries_view())
        + ",\"meta\":"@ + map_json(s.meta.entries_view()) + ",\"cpu\":"@ + cpu_json_of(
        s.cpu_core,
        match s.cpu_affinity {
            Some(a) => Some(a@),
            None => None,
        },
    )
}

/// The standard subms JSON object of a summary.
#[verifier::opaque]
pub open spec fn summary_json_of(s: SubMsBenchSummary) -> Seq<char> {
    summary_head_of(s) + ",\"stages\":{"@ + stages_json(s.stages@) + "}}"@
}

fn push_kv(out: &mut String, k: &str, v: &str)
    ensures
        final(out)@ == old(out)@ + kv_json(k@, v@),
{
    push_json_str(out, k);
    push_char(out, ':');
    push_json_str(out, v);
    assert(final(out)@ =~= old(out)@ + kv_json(k@, v@));
}

fn push_map_json(out: &mut String, m: &crate::strmap::StrMap)
    ensures
        final(out)@ == old(out)@ + map_json(m.entries_view()),
{
    let e = Ghost(m.entries_view());
    let ghost items = Seq::new(e@.len(), |i: int| kv_json(e@[i].0, e@[i].1));
    push_char(out, '{');
    let ghost start = out@;
    let n = m.len();
    let mut i: usize = 0;
    while i < n
        invariant
            n == e@.len(),
            e@ == m.entries_view(),
            items == Seq::new(e@.len(), |i: int| kv_json(e@[i].0, e@[i].1)),
            i <= n,
            out@ == start + comma_join(items.take(i as int)),
        decreases n - i,
    {
        proof {
            lemma_comma_join_step(items, i as int);
        }
        if i > 0 {
            push_char(out, ',');
        }
        let (k, v) = m.entry(i);
        push_kv(out, k.as_str(), v.as_str());
        assert(out@ =~= start + comma_join(items.take(i as int + 1)));
        i += 1;
    }
    assert(items.take(n as int) == items);
    push_char(out, '}');
    assert(final(out)@ =~= old(out)@ + map_json(m.entries_view()));
}

fn push_nums(out: &mut String, v: &Vec<u64>)
    ensures
        final(out)@ == old(out)@ + nums_json(v@),
{
    let ghost items = Seq::new(v@.len(), |i: int| dec(v@[i] as nat));
    let ghost start = out@;
    let mut i: usize = 0;
    while i < v.len()
        invariant
            items == Seq::new(v@.len(), |i: int| dec(v@[i] as nat)),
            i <= v@.len(),
            out@ == start + comma_join(items.take(i as int)),
            start == old(out)@,
        decreases v@.len() - i,
    {
        proof {
            lemma_comma_join_step(items, i as int);
        }
        if i > 0 {
            push_char(out, ',');
        }
        push_dec(out, v[i]);
        assert(out@ =~= start + comma_join(items.take(i as int + 1)));
        i += 1;
    }
    assert(items.take(v@.len() as int) == items);
}

/// Appends the CPU placement object (`null` when neither part is known).
pub fn push_cpu_json(out: &mut String, core: Option<u32>, affinity: Option<&str>)
    ensures
        final(out)@ == old(out)@ + cpu_json_of(
            core,
            match affinity {
                Some(a) => Some(a@),
                None => None,
            },
        ),
{
    if core.is_none() && affinity.is_none() {
        push_str(out, "null");
        return;
    }
    push_str(out, "{\"core\":");
    match core {
        Some(c) => push_dec(out, c as u64),
        None => push_str(out, "null"),
    }
    push_str(out, ",\"affinity\":");
    match affinity {
        Some(a) => push_json_str(out, a),
        None => push_str(out, "null"),
    }
    push_char(out, '}');
    assert(final(out)@ =~= old(out)@ + cpu_json_of(
        core,
        match affinity {
            Some(a) => Some(a@),
            None => None,
        },
    ));
}

fn push_stage_stats(out: &mut String, st: &SubMsStageSummary)
    ensures
        final(out)@ == old(out)@ + stage_stats_json(*st),
{
    push_str(out, "{\"count\":");
    push_dec(out, st.count as u64);
    push_str(out, ",\"p50_ns\":");
    push_dec(out, st.p50_ns);
    push_str(out, ",\"p99_ns\":");
    push_dec(out, st.p99_ns);
    push_str(out, ",\"p999_ns\":");
    push_dec(out, st.p999_ns);
    push_str(out, ",\"max_ns\":");
    push_dec(out, st.max_ns);
    push_str(out, ",\"mean_ns\":");
    push_dec(out, st.mean_ns);
    push_str(out, ",\"stddev_ns\":");
    push_dec(out, st.stddev_ns);
    assert(final(out)@ =~= old(out)@ + stage_stats_json(*st));
}

fn push_stage_json(out: &mut String, st: &SubMsStageSummary)
    ensures
        final(out)@ == old(out)@ + stage_json_of(*st),
{
    push_stage_stats(out, st);
    let ghost a = out@;
    push_str(out, ",\"jitter_score\":");
    push_dec(out, st.jitter_score / 10000);
    push_char(out, '.');
    push_zero_padded(out, st.jitter_score % 10000, 4);
    assert(out@ =~= a + ",\"jitter_score\":"@ + e4_text(st.jitter_score as nat));
    let ghost b = out@;
    push_str(out, ",\"cdf_buckets_ns\":[");
    push_nums(out, &st.cdf_buckets_ns);
    push_str(out, "],\"samples_ns\":[");
    match &st.samples_ns {
        Some(v) => push_nums(out, v),
        None => {},
    }
    push_str(out, "]}");
    assert(out@ =~= b + ",\"cdf_buckets_ns\":["@ + nums_json(st.cdf_buckets_ns@) + "],\"samples_ns\":["@ + (
    match st.samples_ns {
        Some(v) => nums_json(v@),
        None => Seq::empty(),
    }) + "]}"@);
    assert(final(out)@ =~= old(out)@ + stage_json_of(*st));
}

#[verifier::spinoff_prover]
#[verifier::rlimit(30)]
fn push_summary_head(out: &mut String, s: &SubMsBenchSummary)
    ensures
        final(out)@ == old(out)@ + summary_head_of(*s),
{
    push_char(out, '{');
    push_kv(out, "workload", s.workload.as_str());
    push_char(out, ',');
    push_kv(out, "lang", s.lang.as_str());
    push_char(out, ',');
    push_kv(out, "timestamp", s.timestamp.as_str());
    push_str(out, ",\"inputs\":");
    push_map_json(out, &s.inputs);
    push_str(out, ",\"meta\":");
    push_map_json(out, &s.meta);
    push_str(out, ",\"cpu\":");
    let aff: Option<&str> = match &s.cpu_affinity {
        Some(a) => Some(a.as_str()),
        None => None,
    };
    push_cpu_json(out, s.cpu_core, aff);
    assert(final(out)@ =~= old(out)@ + summary_head_of(*s));
}

fn push_stages_json(out: &mut String, stages: &Vec<SubMsStageSummary>)
    ensures
        final(out)@ == old(out)@ + stages_json(stages@),
{
    let ghost st = stages@;
    let ghost items = Seq::new(
        st.len(),
        |i: int| json_quote(st[i].name@) + seq![':'] + stage_json_of(st[i]),
    );
    let ghost start = out@;
    let mut i: usize = 0;
    while i < stages.len()
        invariant
            st == stages@,
            items == Seq::new(
                st.len(),
                |i: int| json_quote(st[i].name@) + seq![':'] + stage_json_of(st[i]),
            ),
            i <= st.len(),
            out@ == start + comma_join(items.take(i as int)),
            start == old(out)@,
        decreases st.len() - i,
    {
        proof {
            lemma_comma_join_step(items, i as int);
        }
        if i > 0 {
            push_char(out, ',');
        }
        push_json_str(out, stages[i].name.as_str());
        push_char(out, ':');
        push_stage_json(out, &stages[i]);
        assert(out@ =~= start + comma_join(items.take(i as int + 1)));
        i += 1;
    }
    assert(items.take(st.len() as int) == items);
}

/// Appends the standard JSON object of the summary.
pub fn append_summary_json(out: &mut String, s: &SubMsBenchSummary)
    ensures
        final(out)@ == old(out)@ + summary_json_of(*s),
{
    push_summary_head(out, s);
    push_str(out, ",\"stages\":{");
    push_stages_json(out, &s.stages);
    push_str(out, "}}");
    proof {
        reveal(summary_json_of);
    }
    assert(final(out)@ =~= old(out)@ + summary_json_of(*s));
}

/// Writes the summary in the standard JSON shape, then a newline.
pub fn summary_to_json(s: &SubMsBenchSummary, out: &mut Vec<u8>) -> (r: Result<(), std::io::Error>)
    ensures
        r is Ok,
        final(out)@ == old(out)@ + vstd::utf8::encode_utf8(summary_json_of(*s).push('\n')),
{
    let mut buf = String::new();
    append_summary_json(&mut buf, s);
    push_char(&mut buf, '\n');
    push_utf8(out, buf.as_str());
    Ok(())
}

/// A JSON array of the sweep's run summaries.
pub open spec fn sweep_json_of(sw: SubMsBenchSweep) -> Seq<char> {
    seq!['['] + comma_join(Seq::new(sw.runs@.len(), |i: int| summary_json_of(sw.runs@[i])))
        + seq![']']
}

/// Writes the sweep as a JSON array of run summaries, then a newline.
pub fn sweep_to_json(sweep: &SubMsBenchSweep, out: &mut Vec<u8>) -> (r: Result<(), std::io::Error>)
    ensures
        r is Ok,
        final(out)@ == old(out)@ + vstd::utf8::encode_utf8(sweep_json_of(*sweep).push('\n')),
{
    let mut buf = String::new();
    push_char(&mut buf, '[');
    let ghost runs = sweep.runs@;
    let ghost items = Seq::new(runs.len(), |i: int| summary_json_of(runs[i]));
    let ghost start = buf@;
    let mut i: usize = 0;
    while i < sweep.runs.len()
        invariant
            runs == sweep.runs@,
            items == Seq::new(runs.len(), |i: int| summary_json_of(runs[i])),
            i <= runs.len(),
            buf@ == start + comma_join(items.take(i as int)),
            start == seq!['['],
        decreases runs.len() - i,
    {
        proof {
            lemma_comma_join_step(items, i as int);
        }
        if i > 0 {
            push_char(&mut buf, ',');
        }
        append_summary_json(&mut buf, &sweep.runs[i]);
        assert(buf@ =~= start + comma_join(items.take(i as int + 1)));
        i += 1;
    }
    assert(items.take(runs.len() as int) == items);
    push_char(&mut buf, ']');
    push_char(&mut buf, '\n');
    assert(buf@ =~= sweep_json_of(*sweep).push('\n'));
    push_utf8(out, buf.as_str());
    Ok(())
}

// ---------------------------------------------------------------------
// Tables
// ---------------------------------------------------------------------

/// The percentile table's header line.
pub open spec fn summary_header() -> Seq<char> {
    "  "@ + pad_right("stage"@, 9) + "  "@ + pad_left("p50"@, 9) + "  "@ + pad_left("p99"@, 9)
        + "  "@ + pad_left("p99.9"@, 9) + "  "@ + pad_left("max"@, 9) + "  "@ + pad_left(
        "mean"@,
        9,
    ) + seq!['\n']
}

/// `  <p50>  <p99>  <p99.9>  <max>  <mean>`, each right-aligned in 9.
pub open spec fn latency_cells(st: SubMsStageSummary) -> Seq<char> {
    "  "@ + pad_left(format_ns_text(st.p50_ns as nat), 9) + "  "@ + pad_left(
        format_ns_text(st.p99_ns as nat),
        9,
    ) + "  "@ + pad_left(format_ns_text(st.p999_ns as nat), 9) + "  "@ + pad_left(
        format_ns_text(st.max_ns as nat),
        9,
    ) + "  "@ + pad_left(format_ns_text(st.mean_ns as nat), 9)
}

/// One stage's row of the percentile table.
pub open spec fn summary_row(st: SubMsStageSummary) -> Seq<char> {
    "  "@ + pad_right(st.name@, 9) + latency_cells(st) + seq!['\n']
}

/// The whole percentile table: header, then one row per stage in order.
pub open spec fn summary_table(s: SubMsBenchSummary) -> Seq<char> {
    summary_header() + concat(Seq::new(s.stages@.len(), |i: int| summary_row(s.stages@[i])))
}

fn push_cell(out: &mut String, ns: u64)
    ensures
        final(out)@ == old(out)@ + "  "@ + pad_left(format_ns_text(ns as nat), 9),
{
    push_str(out, "  ");
    let t = format_ns(ns);
    push_pad_left(out, t.as_str(), 9);
}

fn push_latency_cells(out: &mut String, st: &SubMsStageSummary)
    ensures
        final(out)@ == old(out)@ + latency_cells(*st),
{
    push_cell(out, st.p50_ns);
    push_cell(out, st.p99_ns);
    push_cell(out, st.p999_ns);
    push_cell(out, st.max_ns);
    push_cell(out, st.mean_ns);
    assert(final(out)@ =~= old(out)@ + latency_cells(*st));
}

/// Writes the fixed-width percentile table (p50, p99, p99.9, max, mean of
/// every stage, in registration order).
pub fn print_summary(s: &SubMsBenchSummary, out: &mut Vec<u8>) -> (r: Result<(), std::io::Error>)
    ensures
        r is Ok,
        final(out)@ == old(out)@ + vstd::utf8::encode_utf8(summary_table(*s)),
{
    let mut buf = String::new();
    push_str(&mut buf, "  ");
    push_pad_right(&mut buf, "stage", 9);
    push_str(&mut buf, "  ");
    push_pad_left(&mut buf, "p50", 9);
    push_str(&mut buf, "  ");
    push_pad_left(&mut buf, "p99", 9);
    push_str(&mut buf, "  ");
    push_pad_left(&mut buf, "p99.9", 9);
    push_str(&mut buf, "  ");
    push_pad_left(&mut buf, "max", 9);
    push_str(&mut buf, "  ");
    push_pad_left(&mut buf, "mean", 9);
    push_char(&mut buf, '\n');
    assert(buf@ =~= summary_header());
    let ghost rows = Seq::new(s.stages@.len(), |i: int| summary_row(s.stages@[i]));
    let mut i: usize = 0;
    while i < s.stages.len()
        invariant
            rows == Seq::new(s.stages@.len(), |i: int| summary_row(s.stages@[i])),
            i <= s.stages@.len(),
            buf@ == summary_header() + concat(rows.take(i as int)),
        decreases s.stages@.len() - i,
    {
        proof {
            lemma_concat_step(rows, i as int);
        }
        let st = &s.stages[i];
        push_str(&mut buf, "  ");
        push_pad_right(&mut buf, st.name.as_str(), 9);
        push_latency_cells(&mut buf, st);
        push_char(&mut buf, '\n');
        assert(buf@ =~= summary_header() + concat(rows.take(i as int + 1)));
        i += 1;
    }
    assert(rows.take(s.stages@.len() as int) == rows);
    push_utf8(out, buf.as_str());
    Ok(())
}

// ---------------------------------------------------------------------
// Sweep table
// ---------------------------------------------------------------------

/// The label of run `i`: the value of the varied input (`?` when the run
/// lacks it), or `run <i+1>` when no input is varied.
pub open spec fn sweep_label(sw: SubMsBenchSweep, i: int) -> Seq<char> {
    match sw.varied_input_key {
        Some(k) => if sw.runs@[i].inputs.map_view().contains_key(k@) {
            sw.runs@[i].inputs.map_view()[k@]
        } else {
            "?"@
        },
        None => "run "@ + dec((i + 1) as nat),
    }
}

/// Run `i`'s row in the block of stage `name`.
pub open spec fn sweep_row(sw: SubMsBenchSweep, name: Seq<char>, i: int) -> Seq<char> {
    match first_summary_stage(sw.runs@[i].stages@, name) {
        None => "  "@ + pad_right(sweep_label(sw, i), 15) + "  (stage missing)"@ + seq!['\n'],
        Some(j) => "  "@ + pad_right(sweep_label(sw, i), 15) + "  "@ + pad_left(
            dec(sw.runs@[i].stages@[j].count as nat),
            9,
        ) + latency_cells(sw.runs@[i].stages@[j]) + seq!['\n'],
    }
}

/// The column header of a stage block, its first column named `label`.
pub open spec fn sweep_header(label: Seq<char>) -> Seq<char> {
    "  "@ + pad_right(label, 15) + "  "@ + pad_left("count"@, 9) + "  "@ + pad_left("p50"@, 9)
        + "  "@ + pad_left("p99"@, 9) + "  "@ + pad_left("p99.9"@, 9) + "  "@ + pad_left(
        "max"@,
        9,
    ) + "  "@ + pad_left("mean"@, 9) + seq!['\n']
}

/// The first column's title: the varied input's name, or `run`.
pub open spec fn sweep_header_label(sw: SubMsBenchSweep) -> Seq<char> {
    match sw.varied_input_key {
        Some(k) => k@,
        None => "run"@,
    }
}

/// The block of stage `name`: a title, the header, one row per run and a
/// blank line.
#[verifier::opaque]
pub open spec fn sweep_block(sw: SubMsBenchSweep, name: Seq<char>) -> Seq<char> {
    "stage: "@ + name + seq!['\n'] + sweep_header(sweep_header_label(sw)) + concat(
        Seq::new(sw.runs@.len(), |i: int| sweep_row(sw, name, i)),
    ) + seq!['\n']
}

/// The pivoted sweep table: one block per stage of the first run.
pub open spec fn sweep_table(sw: SubMsBenchSweep) -> Seq<char> {
    if sw.runs@.len() == 0 {
        "(empty sweep)"@ + seq!['\n']
    } else {
        concat(
            Seq::new(
                sw.runs@[0].stages@.len(),
                |j: int| sweep_block(sw, sw.runs@[0].stages@[j].name@),
            ),
        )
    }
}

#[verifier::rlimit(40)]
#[verifier::spinoff_prover]
fn push_sweep_row(out: &mut String, sw: &SubMsBenchSweep, name: &str, i: usize)
    requires
        i < sw.runs@.len(),
    ensures
        final(out)@ == old(out)@ + sweep_row(*sw, name@, i as int),
{
    let run = &sw.runs[i];
    let label: String = match &sw.varied_input_key {
        Some(k) => match run.inputs.get(k.as_str()) {
            Some(v) => v.clone(),
            None => "?".to_string(),
        },
        None => {
            let n = sw.runs.len();
            assert(i < n);
            let mut t = String::new();
            push_str(&mut t, "run ");
            push_dec(&mut t, (i + 1) as u64);
            t
        },
    };
    assert(label@ == sweep_label(*sw, i as int));
    push_str(out, "  ");
    push_pad_right(out, label.as_str(), 15);
    match run.stage(name) {
        None => {
            push_str(out, "  (stage missing)");
            push_char(out, '\n');
        },
        Some(st) => {
            push_str(out, "  ");
            push_pad_left(out, crate::text::dec_string(st.count as u64).as_str(), 9);
            push_latency_cells(out, st);
            push_char(out, '\n');
        },
    }
    assert(final(out)@ =~= old(out)@ + sweep_row(*sw, name@, i as int));
}

#[verifier::spinoff_prover]
#[verifier::rlimit(40)]
fn push_sweep_header(out: &mut String, label: &str)
    ensures
        final(out)@ == old(out)@ + sweep_header(label@),
{
    push_str(out, "  ");
    push_pad_right(out, label, 15);
    push_str(out, "  ");
    push_pad_left(out, "count", 9);
    push_str(out, "  ");
    push_pad_left(out, "p50", 9);
    push_str(out, "  ");
    push_pad_left(out, "p99", 9);
    push_str(out, "  ");
    push_pad_left(out, "p99.9", 9);
    push_str(out, "  ");
    push_pad_left(out, "max", 9);
    push_str(out, "  ");
    push_pad_left(out, "mean", 9);
    push_char(out, '\n');
    assert(final(out)@ =~= old(out)@ + sweep_header(label@));
}

fn push_sweep_block(out: &mut String, sw: &SubMsBenchSweep, name: &str)
    ensures
        final(out)@ == old(out)@ + sweep_block(*sw, name@),
{
    push_str(out, "stage: ");
    push_str(out, name);
    push_char(out, '\n');
    let header_label: &str = match &sw.varied_input_key {
        Some(k) => k.as_str(),
        None => "run",
    };
    push_sweep_header(out, header_label);
    let ghost head = out@;
    assert(head =~= old(out)@ + "stage: "@ + name@ + seq!['\n'] + sweep_header(sweep_header_label(*sw)));
    let ghost rows = Seq::new(sw.runs@.len(), |i: int| sweep_row(*sw, name@, i));
    let mut i: usize = 0;
    while i < sw.runs.len()
        invariant
            rows == Seq::new(sw.runs@.len(), |i: int| sweep_row(*sw, name@, i)),
            i <= sw.runs@.len(),
            out@ == head + concat(rows.take(i as int)),
        decreases sw.runs@.len() - i,
    {
        proof {
            lemma_concat_step(rows, i as int);
        }
        push_sweep_row(out, sw, name, i);
        assert(out@ =~= head + concat(rows.take(i as int + 1)));
        i += 1;
    }
    assert(rows.take(sw.runs@.len() as int) == rows);
    push_char(out, '\n');
    proof {
        reveal(sweep_block);
    }
    assert(final(out)@ =~= old(out)@ + sweep_block(*sw, name@));
}

/// Writes the pivoted sweep table: for each stage of the first run, one row
/// per run labelled by the varied input (or by ordinal), or `(empty sweep)`.
pub fn print_sweep(sweep: &SubMsBenchSweep, out: &mut Vec<u8>) -> (r: Result<(), std::io::Error>)
    ensures
        r is Ok,
        final(out)@ == old(out)@ + vstd::utf8::encode_utf8(sweep_table(*sweep)),
{
    let mut buf = String::new();
    if sweep.runs.len() == 0 {
        push_str(&mut buf, "(empty sweep)");
        push_char(&mut buf, '\n');
        assert(buf@ =~= sweep_table(*sweep));
        push_utf8(out, buf.as_str());
        return Ok(());
    }
    let first = &sweep.runs[0];
    let ghost blocks = Seq::new(
        sweep.runs@[0].stages@.len(),
        |j: int| sweep_block(*sweep, sweep.runs@[0].stages@[j].name@),
    );
    let mut j: usize = 0;
    while j < first.stages.len()
        invariant
            sweep.runs@.len() > 0,
            first == &sweep.runs@[0],
            blocks == Seq::new(
                sweep.runs@[0].stages@.len(),
                |j: int| sweep_block(*sweep, sweep.runs@[0].stages@[j].name@),
            ),
            j <= first.stages@.len(),
            buf@ == concat(blocks.take(j as int)),
        decreases first.stages@.len() - j,
    {
        proof {
            lemma_concat_step(blocks, j as int);
        }
        push_sweep_block(&mut buf, sweep, first.stages[j].name.as_str());
        j += 1;
    }
    assert(blocks.take(first.stages@.len() as int) == blocks);
    push_utf8(out, buf.as_str());
    Ok(())
}


// ---------------------------------------------------------------------
// Line structure of the tables
// ---------------------------------------------------------------------

/// How many line breaks `s` holds.
pub open spec fn line_breaks(s: Seq<char>) -> nat
    decreases s.len(),
{
    if s.len() == 0 {
        0
    } else {
        line_breaks(s.drop_last()) + if s.last() == '\n' {
            1nat
        } else {
            0nat
        }
    }
}

/// Whether `s` holds no line break.
pub open spec fn single_line(s: Seq<char>) -> bool {
    forall|i: int| 0 <= i < s.len() ==> s[i] != '\n'
}

proof fn lemma_line_breaks_add(a: Seq<char>, b: Seq<char>)
    ensures
        line_breaks(a + b) == line_breaks(a) + line_breaks(b),
    decreases b.len(),
{
    if b.len() == 0 {
        assert(a + b =~= a);
    } else {
        assert((a + b).drop_last() =~= a + b.drop_last());
        lemma_line_breaks_add(a, b.drop_last());
    }
}

proof fn lemma_single_line_breaks(s: Seq<char>)
    requires
        single_line(s),
    ensures
        line_breaks(s) == 0,
    decreases s.len(),
{
    if s.len() > 0 {
        lemma_single_line_breaks(s.drop_last());
    }
}

proof fn lemma_dec_single_line(n: nat)
    ensures
        single_line(dec(n)),
{
    crate::text::lemma_dec_digits(n);
    let d = dec(n);
    assert forall|i: int| 0 <= i < d.len() implies d[i] != '\n' by {
        assert(crate::text::is_digit(d[i]));
    }
}

proof fn lemma_pads_single_line(s: Seq<char>, w: nat)
    requires
        single_line(s),
    ensures
        single_line(pad_left(s, w)),
        single_line(pad_right(s, w)),
{
}

proof fn lemma_format_ns_single_line(ns: nat)
    ensures
        single_line(format_ns_text(ns)),
{
    if ns < 1000 {
        lemma_dec_single_line(ns);
    } else if ns < 1000000 {
        let d = crate::units::us_tenths(ns);
        lemma_dec_single_line(d / 10);
        lemma_dec_single_line(d % 10);
    } else {
        let d = crate::units::ms_hundredths(ns);
        lemma_dec_single_line(d / 100);
        lemma_dec_single_line(d % 100);
    }
}

/// One stage's row is one line ending in a line break.
proof fn lemma_row_one_line(st: SubMsStageSummary)
    requires
        single_line(st.name@),
    ensures
        line_breaks(summary_row(st)) == 1,
        summary_row(st).last() == '\n',
{
    reveal_strlit("  ");
    let body = summary_row(st).drop_last();
    lemma_pads_single_line(st.name@, 9);
    lemma_latency_single_line(st);
    assert(body =~= "  "@ + pad_right(st.name@, 9) + latency_cells(st));
    assert(single_line(body));
    lemma_single_line_breaks(body);
}

/// The header is one line ending in a line break.
proof fn lemma_header_one_line()
    ensures
        line_breaks(summary_header()) == 1,
        summary_header().last() == '\n',
{
    reveal_strlit("  ");
    reveal_strlit("stage");
    reveal_strlit("p50");
    reveal_strlit("p99");
    reveal_strlit("p99.9");
    reveal_strlit("max");
    reveal_strlit("mean");
    let head = summary_header().drop_last();
    lemma_pads_single_line("stage"@, 9);
    lemma_pads_single_line("p50"@, 9);
    lemma_pads_single_line("p99"@, 9);
    lemma_pads_single_line("p99.9"@, 9);
    lemma_pads_single_line("max"@, 9);
    lemma_pads_single_line("mean"@, 9);
    assert(single_line(head));
    lemma_single_line_breaks(head);
}

proof fn lemma_rows_lines(rows: Seq<Seq<char>>)
    requires
        forall|j: int| 0 <= j < rows.len() ==> line_breaks(#[trigger] rows[j]) == 1,
    ensures
        line_breaks(concat(rows)) == rows.len(),
    decreases rows.len(),
{
    if rows.len() > 0 {
        lemma_rows_lines(rows.drop_last());
        lemma_line_breaks_add(concat(rows.drop_last()), rows.last());
    }
}

/// The percentile table is a header line and one line per stage: when no
/// stage name holds a line break, the table holds one line break more than
/// there are stages, and ends with one.
pub proof fn lemma_summary_table_lines(s: SubMsBenchSummary)
    requires
        forall|j: int| 0 <= j < s.stages@.len() ==> single_line(#[trigger] s.stages@[j].name@),
    ensures
        line_breaks(summary_table(s)) == s.stages@.len() + 1,
        summary_table(s).last() == '\n',
{
    let rows = Seq::new(s.stages@.len(), |i: int| summary_row(s.stages@[i]));
    assert forall|j: int| 0 <= j < rows.len() implies line_breaks(#[trigger] rows[j]) == 1 by {
        lemma_row_one_line(s.stages@[j]);
    }
    lemma_rows_lines(rows);
    lemma_header_one_line();
    lemma_line_breaks_add(summary_header(), concat(rows));
    if rows.len() > 0 {
        lemma_row_one_line(s.stages@[rows.len() - 1]);
        assert(rows.last() == summary_row(s.stages@[rows.len() - 1]));
    } else {
        assert(concat(rows) =~= Seq::<char>::empty());
        assert(summary_table(s) =~= summary_header());
    }
}


proof fn lemma_latency_single_line(st: SubMsStageSummary)
    ensures
        single_line(latency_cells(st)),
{
    reveal_strlit("  ");
    lemma_format_ns_single_line(st.p50_ns as nat);
    lemma_format_ns_single_line(st.p99_ns as nat);
    lemma_format_ns_single_line(st.p999_ns as nat);
    lemma_format_ns_single_line(st.max_ns as nat);
    lemma_format_ns_single_line(st.mean_ns as nat);
    lemma_pads_single_line(format_ns_text(st.p50_ns as nat), 9);
    lemma_pads_single_line(format_ns_text(st.p99_ns as nat), 9);
    lemma_pads_single_line(format_ns_text(st.p999_ns as nat), 9);
    lemma_pads_single_line(format_ns_text(st.max_ns as nat), 9);
    lemma_pads_single_line(format_ns_text(st.mean_ns as nat), 9);
}

proof fn lemma_blocks_lines(blocks: Seq<Seq<char>>, k: nat)
    requires
        forall|j: int| 0 <= j < blocks.len() ==> line_breaks(#[trigger] blocks[j]) == k,
    ensures
        line_breaks(concat(blocks)) == blocks.len() * k,
    decreases blocks.len(),
{
    if blocks.len() > 0 {
        let n = blocks.len();
        lemma_blocks_lines(blocks.drop_last(), k);
        lemma_line_breaks_add(concat(blocks.drop_last()), blocks.last());
        assert((n - 1) * k + k == n * k) by (nonlinear_arith);
    }
}

proof fn lemma_sweep_row_one_line(sw: SubMsBenchSweep, name: Seq<char>, i: int)
    requires
        0 <= i < sw.runs@.len(),
        single_line(sweep_label(sw, i)),
    ensures
        line_breaks(sweep_row(sw, name, i)) == 1,
{
    reveal_strlit("  ");
    reveal_strlit("  (stage missing)");
    let r = sweep_row(sw, name, i);
    lemma_pads_single_line(sweep_label(sw, i), 15);
    match first_summary_stage(sw.runs@[i].stages@, name) {
        None => {},
        Some(j) => {
            let st = sw.runs@[i].stages@[j];
            lemma_dec_single_line(st.count as nat);
            lemma_pads_single_line(dec(st.count as nat), 9);
            lemma_latency_single_line(st);
        },
    }
    assert(single_line(r.drop_last()));
    lemma_single_line_breaks(r.drop_last());
    assert(r =~= r.drop_last().push('\n'));
    assert(r.drop_last() + seq!['\n'] =~= r);
    lemma_line_breaks_add(r.drop_last(), seq!['\n']);
}

/// The pivoted sweep table is one block per stage of the first run, each a
/// title line, a header line, one line per run and a blank line: when no
/// stage name, first-column title or row label holds a line break, the
/// table holds `stages * (runs + 3)` line breaks.
pub proof fn lemma_sweep_table_lines(sw: SubMsBenchSweep)
    requires
        sw.runs@.len() > 0,
        forall|j: int|
            0 <= j < sw.runs@[0].stages@.len() ==> single_line(#[trigger] sw.runs@[0].stages@[j].name@),
        forall|i: int| 0 <= i < sw.runs@.len() ==> single_line(#[trigger] sweep_label(sw, i)),
        single_line(sweep_header_label(sw)),
    ensures
        line_breaks(sweep_table(sw)) == sw.runs@[0].stages@.len() * (sw.runs@.len() + 3),
{
    reveal_strlit("stage: ");
    reveal_strlit("  ");
    reveal_strlit("count");
    reveal_strlit("p50");
    reveal_strlit("p99");
    reveal_strlit("p99.9");
    reveal_strlit("max");
    reveal_strlit("mean");
    let n = sw.runs@.len();
    let label = sweep_header_label(sw);
    let head = sweep_header(label);
    lemma_pads_single_line(label, 15);
    lemma_pads_single_line("count"@, 9);
    lemma_pads_single_line("p50"@, 9);
    lemma_pads_single_line("p99"@, 9);
    lemma_pads_single_line("p99.9"@, 9);
    lemma_pads_single_line("max"@, 9);
    lemma_pads_single_line("mean"@, 9);
    assert(single_line(head.drop_last()));
    lemma_single_line_breaks(head.drop_last());
    assert(head =~= head.drop_last() + seq!['\n']);
    lemma_line_breaks_add(head.drop_last(), seq!['\n']);
    let blocks = Seq::new(
        sw.runs@[0].stages@.len(),
        |j: int| sweep_block(sw, sw.runs@[0].stages@[j].name@),
    );
    assert forall|j: int| 0 <= j < blocks.len() implies line_breaks(#[trigger] blocks[j]) == n + 3 by {
        let name = sw.runs@[0].stages@[j].name@;
        reveal(sweep_block);
        let rows = Seq::new(n, |i: int| sweep_row(sw, name, i));
        assert forall|i: int| 0 <= i < rows.len() implies line_breaks(#[trigger] rows[i]) == 1 by {
            lemma_sweep_row_one_line(sw, name, i);
        }
        lemma_rows_lines(rows);
        let title = "stage: "@ + name;
        assert(single_line(title));
        lemma_single_line_breaks(title);
        lemma_line_breaks_add(title, seq!['\n']);
        lemma_line_breaks_add(title + seq!['\n'], head);
        lemma_line_breaks_add(title + seq!['\n'] + head, concat(rows));
        lemma_line_breaks_add(title + seq!['\n'] + head + concat(rows), seq!['\n']);
        assert(blocks[j] == title + seq!['\n'] + head + concat(rows) + seq!['\n']);
    }
    lemma_blocks_lines(blocks, (n + 3) as nat);
}


/// The percentile table's layout: a header naming, left to right, `stage`,
/// `p50`, `p99`, `p99.9`, `max` and `mean`, then one line per stage in
/// order whose cells follow the header: the stage's name left-aligned in 9,
/// then its p50, p99, p99.9, max and mean figures, each as `format_ns`
/// prints it, right-aligned in 9; every column after two spaces.
#[verifier::rlimit(60)]
#[verifier::spinoff_prover]
pub proof fn lemma_summary_table_layout(s: SubMsBenchSummary)
    ensures
        summary_table(s) == "  "@ + pad_right("stage"@, 9) + "  "@ + pad_left("p50"@, 9) + "  "@
            + pad_left("p99"@, 9) + "  "@ + pad_left("p99.9"@, 9) + "  "@ + pad_left("max"@, 9) + "  "@
            + pad_left("mean"@, 9) + seq!['\n'] + concat(
            Seq::new(
                s.stages@.len(),
                |j: int|
                    "  "@ + pad_right(s.stages@[j].name@, 9) + "  "@ + pad_left(
                        format_ns_text(s.stages@[j].p50_ns as nat),
                        9,
                    ) + "  "@ + pad_left(format_ns_text(s.stages@[j].p99_ns as nat), 9) + "  "@
                        + pad_left(format_ns_text(s.stages@[j].p999_ns as nat), 9) + "  "@ + pad_left(
                        format_ns_text(s.stages@[j].max_ns as nat),
                        9,
                    ) + "  "@ + pad_left(format_ns_text(s.stages@[j].mean_ns as nat), 9) + seq!['\n'],
            ),
        ),
{
    let rows = Seq::new(s.stages@.len(), |i: int| summary_row(s.stages@[i]));
    let lines = Seq::new(
        s.stages@.len(),
        |j: int|
            "  "@ + pad_right(s.stages@[j].name@, 9) + "  "@ + pad_left(
                format_ns_text(s.stages@[j].p50_ns as nat),
                9,
            ) + "  "@ + pad_left(format_ns_text(s.stages@[j].p99_ns as nat), 9) + "  "@ + pad_left(
                format_ns_text(s.stages@[j].p999_ns as nat),
                9,
            ) + "  "@ + pad_left(format_ns_text(s.stages@[j].max_ns as nat), 9) + "  "@ + pad_left(
                format_ns_text(s.stages@[j].mean_ns as nat),
                9,
            ) + seq!['\n'],
    );
    assert forall|j: int| 0 <= j < rows.len() implies rows[j] == lines[j] by {
        assert(rows[j] =~= lines[j]);
    }
    assert(rows =~= lines);
}

} // verus!
