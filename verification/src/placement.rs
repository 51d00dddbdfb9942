//! Where a run was placed: the core it last ran on and the cores it may run
//! on, read from the texts Linux gives for the process (`/proc/self/stat`
//! and `/proc/self/status`). The caller reads the files; these functions
//! read the text, and give `None` for anything they do not recognise.

use vstd::prelude::*;

use crate::harness::{find_char, lemma_line_end_bounds, line_end, trimmed_string};
use crate::text::{is_ws, parse_u64_str, parse_unsigned, push_char, to_chars, trim};

verus! {

/// Position of the last `c` in `s`.
pub open spec fn last_index_of(s: Seq<char>, c: char) -> Option<int>
    decreases s.len(),
{
    if s.len() == 0 {
        None
    } else if s.last() == c {
        Some(s.len() - 1)
    } else {
        last_index_of(s.drop_last(), c)
    }
}

/// `str::split_whitespace`: the maximal runs of non-whitespace characters,
/// in order.
pub open spec fn words(s: Seq<char>) -> Seq<Seq<char>>
    decreases s.len(),
{
    if s.len() == 0 {
        Seq::empty()
    } else {
        let w = words(s.drop_last());
        let c = s.last();
        if is_ws(c) {
            w
        } else if s.len() >= 2 && !is_ws(s[s.len() - 2]) {
            w.update(w.len() - 1, w.last().push(c))
        } else {
            w.push(seq![c])
        }
    }
}

/// The core field of a `/proc/<pid>/stat` text: the 37th word after the
/// last `)` (the one that closes the command name), as a `u32`.
pub open spec fn stat_core(s: Seq<char>) -> Option<u32> {
    match last_index_of(s, ')') {
        None => None,
        Some(k) => {
            let ws = words(s.skip(k + 1));
            if ws.len() > 36 {
                match parse_unsigned(ws[36], u32::MAX as nat) {
                    Some(v) => Some(v as u32),
                    None => None,
                }
            } else {
                None
            }
        },
    }
}

/// The label of the allowed-cores line of a `/proc/<pid>/status` text.
pub open spec fn allowed_label() -> Seq<char> {
    "Cpus_allowed_list:"@
}

/// The trimmed rest of the first line, at or after `from`, that starts with
/// the allowed-cores label.
pub open spec fn allowed_from(s: Seq<char>, from: nat) -> Option<Seq<char>>
    decreases s.len() - from,
{
    if from > s.len() {
        None
    } else {
        let e = line_end(s, from);
        let line = s.subrange(from as int, e as int);
        let n = allowed_label().len();
        if line.len() >= n && line.take(n as int) == allowed_label() {
            Some(trim(line.skip(n as int)))
        } else if e < s.len() {
            proof {
                lemma_line_end_bounds(s, from);
            }
            allowed_from(s, e + 1)
        } else {
            None
        }
    }
}

proof fn lemma_line_end_range(s: Seq<char>, from: nat)
    requires
        from <= s.len(),
    ensures
        from <= line_end(s, from) <= s.len(),
        forall|k: int| from <= k < line_end(s, from) ==> s[k] != '\n',
        line_end(s, from) < s.len() ==> s[line_end(s, from) as int] == '\n',
    decreases s.len() - from,
{
    if from < s.len() && s[from as int] != '\n' {
        lemma_line_end_range(s, from + 1);
    }
}

fn last_index(v: &Vec<char>, c: char) -> (r: Option<usize>)
    ensures
        match r {
            Some(k) => k < v@.len() && last_index_of(v@, c) == Some(k as int),
            None => last_index_of(v@, c) is None,
        },
{
    let mut i = v.len();
    assert(v@.take(v@.len() as int) == v@);
    while i > 0
        invariant
            i <= v@.len(),
            last_index_of(v@, c) == last_index_of(v@.take(i as int), c),
        decreases i,
    {
        let ghost t = v@.take(i as int);
        assert(t.drop_last() == v@.take(i as int - 1));
        if v[i - 1] == c {
            return Some(i - 1);
        }
        i -= 1;
    }
    assert(v@.take(0) =~= Seq::<char>::empty());
    None
}

/// The views of a list of strings.
pub open spec fn strs_view(v: Seq<String>) -> Seq<Seq<char>> {
    v.map_values(|s: String| s@)
}

fn split_words(v: &Vec<char>, from: usize) -> (r: Vec<String>)
    requires
        from <= v@.len(),
    ensures
        strs_view(r@) == words(v@.skip(from as int)),
{
    let ghost s = v@.skip(from as int);
    let mut done: Vec<String> = Vec::new();
    let mut cur = String::new();
    let mut in_word = false;
    let mut i = from;
    assert(s.take(0) =~= Seq::<char>::empty());
    while i < v.len()
        invariant
            from <= i <= v@.len(),
            s == v@.skip(from as int),
            in_word == (i > from && !is_ws(v@[i - 1])),
            words(s.take(i - from)) == if in_word {
                strs_view(done@).push(cur@)
            } else {
                strs_view(done@)
            },
        decreases v@.len() - i,
    {
        let c = v[i];
        let ghost k = (i - from) as int;
        let ghost t1 = s.take(k + 1);
        assert(t1.drop_last() == s.take(k));
        assert(t1.last() == c);
        assert(k >= 1 ==> t1[t1.len() - 2] == v@[i - 1]);
        let ws = crate::text::is_ws_exec(c);
        if ws {
            if in_word {
                let ghost d0 = done@;
                let w = cur;
                cur = String::new();
                done.push(w);
                assert(strs_view(done@) =~= strs_view(d0).push(w@));
            }
            in_word = false;
        } else if in_word {
            let ghost before = strs_view(done@).push(cur@);
            push_char(&mut cur, c);
            assert(before.update(before.len() - 1, before.last().push(c)) =~= strs_view(done@).push(
                cur@,
            ));
        } else {
            cur = String::new();
            push_char(&mut cur, c);
            assert(cur@ =~= seq![c]);
            in_word = true;
        }
        i += 1;
    }
    assert(s.take(s.len() as int) == s);
    if in_word {
        let ghost d0 = done@;
        done.push(cur);
        assert(strs_view(done@) =~= strs_view(d0).push(cur@));
    }
    done
}

/// The core a `/proc/<pid>/stat` text says the process last ran on.
pub fn stat_core_of(stat: &str) -> (r: Option<u32>)
    ensures
        r == stat_core(stat@),
{
    let v = to_chars(stat);
    let k = match last_index(&v, ')') {
        Some(k) => k,
        None => return None,
    };
    let ws = split_words(&v, k + 1);
    if ws.len() <= 36 {
        return None;
    }
    let w = &ws[36];
    assert(w@ == words(stat@.skip(k + 1))[36]);
    match parse_u64_str(w.as_str()) {
        Some(n) => if n <= u32::MAX as u64 {
            Some(n as u32)
        } else {
            None
        },
        None => None,
    }
}

/// The allowed-cores list a `/proc/<pid>/status` text gives, trimmed.
pub fn status_allowed_cores(status: &str) -> (r: Option<String>)
    ensures
        match r {
            Some(x) => allowed_from(status@, 0) == Some(x@),
            None => allowed_from(status@, 0) is None,
        },
{
    let v = to_chars(status);
    let label = to_chars("Cpus_allowed_list:");
    let n = label.len();
    let mut from: usize = 0;
    while from <= v.len()
        invariant
            v@ == status@,
            from <= v@.len() + 1,
            label@ == allowed_label(),
            n == label@.len(),
            allowed_from(v@, 0) == allowed_from(v@, from as nat),
        decreases v@.len() + 1 - from,
    {
        proof {
            lemma_line_end_range(v@, from as nat);
        }
        let e = match find_char(&v, from, v.len(), '\n') {
            Some(p) => p,
            None => v.len(),
        };
        assert(e == line_end(v@, from as nat)) by {
            lemma_line_end_range(v@, from as nat);
            if e < line_end(v@, from as nat) {
                assert(v@[e as int] == '\n');
            }
        }
        let ghost line = v@.subrange(from as int, e as int);
        let mut matches = e - from >= n;
        let mut j: usize = 0;
        while matches && j < n
            invariant
                from <= e <= v@.len(),
                n == label@.len(),
                line == v@.subrange(from as int, e as int),
                j <= n,
                matches ==> line.len() >= n,
                matches ==> forall|t: int| 0 <= t < j ==> line[t] == label@[t],
                !matches ==> !(line.len() >= n && line.take(n as int) == label@),
            decreases n - j,
        {
            if v[from + j] != label[j] {
                matches = false;
                assert(line[j as int] != label@[j as int]);
            }
            j += 1;
        }
        if matches {
            assert(line.take(n as int) =~= label@);
            let s = trimmed_string(&v, from + n, e);
            assert(v@.subrange((from + n) as int, e as int) =~= line.skip(n as int));
            assert(allowed_from(v@, from as nat) == Some(trim(line.skip(n as int))));
            return Some(s);
        }
        if e >= v.len() {
            assert(allowed_from(v@, from as nat) is None);
            return None;
        }
        assert(allowed_from(v@, from as nat) == allowed_from(v@, (e + 1) as nat));
        from = e + 1;
    }
    None
}

} // verus!
