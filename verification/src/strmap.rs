//! An ordered string-to-string map (the `inputs` / `meta` of a run). Keys are
//! kept unique and in ascending string order, so walking the entries gives
//! the same order as a `BTreeMap<String, String>`.

use vstd::prelude::*;

verus! {

/// String order: lexicographic by character (the same order as comparing the
/// UTF-8 bytes).
pub open spec fn str_lt(a: Seq<char>, b: Seq<char>) -> bool
    decreases a.len(),
{
    if a.len() == 0 {
        b.len() > 0
    } else if b.len() == 0 {
        false
    } else if a[0] != b[0] {
        a[0] < b[0]
    } else {
        str_lt(a.drop_first(), b.drop_first())
    }
}

/// Two different strings are ordered one way or the other.
pub proof fn lemma_str_lt_total(a: Seq<char>, b: Seq<char>)
    requires
        a != b,
    ensures
        str_lt(a, b) || str_lt(b, a),
    decreases a.len(),
{
    if a.len() == 0 {
        if b.len() == 0 {
            assert(a =~= b);
        }
    } else if b.len() == 0 {
    } else if a[0] != b[0] {
    } else {
        if a.drop_first() == b.drop_first() {
            assert(a =~= seq![a[0]] + a.drop_first());
            assert(b =~= seq![b[0]] + b.drop_first());
        }
        lemma_str_lt_total(a.drop_first(), b.drop_first());
    }
}

/// No string precedes itself.
pub proof fn lemma_str_lt_irreflexive(a: Seq<char>)
    ensures
        !str_lt(a, a),
    decreases a.len(),
{
    if a.len() > 0 {
        lemma_str_lt_irreflexive(a.drop_first());
    }
}

/// Entries hold unique keys, each key preceding the next.
pub open spec fn entries_wf(e: Seq<(Seq<char>, Seq<char>)>) -> bool {
    &&& forall|i: int, j: int| 0 <= i < j < e.len() ==> #[trigger] e[i].0 != #[trigger] e[j].0
    &&& forall|i: int| 0 <= i < e.len() - 1 ==> str_lt(#[trigger] e[i].0, e[i + 1].0)
}

/// The map the entries stand for.
pub open spec fn entries_map(e: Seq<(Seq<char>, Seq<char>)>) -> Map<Seq<char>, Seq<char>> {
    Map::new(
        |k: Seq<char>| exists|i: int| 0 <= i < e.len() && #[trigger] e[i].0 == k,
        |k: Seq<char>| e[choose|i: int| 0 <= i < e.len() && #[trigger] e[i].0 == k].1,
    )
}

/// The view of the stored entries.
pub open spec fn entry_views(v: Seq<(String, String)>) -> Seq<(Seq<char>, Seq<char>)> {
    v.map_values(|p: (String, String)| (p.0@, p.1@))
}

/// An ordered map from strings to strings.
pub struct StrMap {
    entries: Vec<(String, String)>,
}

impl StrMap {
    #[verifier::type_invariant]
    spec fn inv(self) -> bool {
        entries_wf(entry_views(self.entries@))
    }

    /// The entries in ascending key order.
    pub closed spec fn entries_view(&self) -> Seq<(Seq<char>, Seq<char>)> {
        entry_views(self.entries@)
    }

    /// The map the entries stand for.
    pub open spec fn map_view(&self) -> Map<Seq<char>, Seq<char>> {
        entries_map(self.entries_view())
    }

    /// An empty map.
    pub fn new() -> (m: Self)
        ensures
            m.entries_view() == Seq::<(Seq<char>, Seq<char>)>::empty(),
    {
        let m = StrMap { entries: Vec::new() };
        assert(entry_views(m.entries@) =~= Seq::<(Seq<char>, Seq<char>)>::empty());
        m
    }

    /// Number of entries.
    pub fn len(&self) -> (n: usize)
        ensures
            n == self.entries_view().len(),
    {
        self.entries.len()
    }

    /// `true` when the map holds no entry.
    pub fn is_empty(&self) -> (b: bool)
        ensures
            b == (self.entries_view().len() == 0),
    {
        self.entries.len() == 0
    }

    /// The `i`-th entry in key order.
    pub fn entry(&self, i: usize) -> (kv: (&String, &String))
        requires
            i < self.entries_view().len(),
        ensures
            (kv.0@, kv.1@) == self.entries_view()[i as int],
    {
        let p = &self.entries[i];
        (&p.0, &p.1)
    }

    /// The value stored under `key`, if any.
    pub fn get(&self, key: &str) -> (r: Option<&String>)
        ensures
            match r {
                Some(v) => self.map_view().contains_key(key@) && self.map_view()[key@] == v@,
                None => !self.map_view().contains_key(key@),
            },
    {
        proof {
            use_type_invariant(self);
        }
        let ghost e = self.entries_view();
        let mut i: usize = 0;
        while i < self.entries.len()
            invariant
                i <= self.entries@.len(),
                e == entry_views(self.entries@),
                entries_wf(e),
                forall|j: int| 0 <= j < i ==> #[trigger] e[j].0 != key@,
            decreases self.entries@.len() - i,
        {
            if crate::text::str_eq(self.entries[i].0.as_str(), key) {
                let ghost k = choose|j: int| 0 <= j < e.len() && #[trigger] e[j].0 == key@;
                assert(e[i as int].0 == key@);
                assert(k == i as int);
                return Some(&self.entries[i].1);
            }
            i += 1;
        }
        None
    }

    /// Position at which `key` is stored, if it is.
    fn find(&self, key: &str) -> (r: Option<usize>)
        ensures
            match r {
                Some(i) => i < self.entries_view().len() && self.entries_view()[i as int].0
                    == key@,
                None => forall|j: int|
                    0 <= j < self.entries_view().len() ==> #[trigger] self.entries_view()[j].0
                        != key@,
            },
    {
        let mut i: usize = 0;
        while i < self.entries.len()
            invariant
                i <= self.entries@.len(),
                forall|j: int| 0 <= j < i ==> #[trigger] self.entries_view()[j].0 != key@,
            decreases self.entries@.len() - i,
        {
            if crate::text::str_eq(self.entries[i].0.as_str(), key) {
                return Some(i);
            }
            i += 1;
        }
        None
    }

    /// Insert or replace the value under `key`, keeping key order.
    pub fn insert(&mut self, key: &str, value: &str)
        ensures
            final(self).map_view() == old(self).map_view().insert(key@, value@),
    {
        proof {
            use_type_invariant(&*self);
        }
        let ghost e0 = self.entries_view();
        let found = self.find(key);
        let mut entries: Vec<(String, String)> = Vec::new();
        std::mem::swap(&mut entries, &mut self.entries);
        assert(e0 == entry_views(entries@));
        match found {
            Some(i) => {
                let k = key.to_string();
                let v = value.to_string();
                entries.set(i, (k, v));
                let ghost e1 = entry_views(entries@);
                assert(e1 =~= e0.update(i as int, (key@, value@)));
                assert(entries_wf(e1)) by {
                    assert forall|a: int| 0 <= a < e1.len() - 1 implies str_lt(
                        #[trigger] e1[a].0,
                        e1[a + 1].0,
                    ) by {
                        assert(e0[a].0 == e1[a].0);
                        assert(e0[a + 1].0 == e1[a + 1].0);
                    }
                }
                proof {
                    lemma_map_update(e0, i as int, key@, value@);
                }
            },
            None => {
                let mut p: usize = 0;
                let n = entries.len();
                let kv = crate::text::to_chars(key);
                while p < n && lt_str_chars(entries[p].0.as_str(), &kv)
                    invariant
                        p <= n == entries@.len(),
                        kv@ == key@,
                        e0 == entry_views(entries@),
                        forall|j: int| 0 <= j < p ==> str_lt(#[trigger] e0[j].0, key@),
                    decreases n - p,
                {
                    p += 1;
                }
                let k = key.to_string();
                let v = value.to_string();
                entries.insert(p, (k, v));
                let ghost e1 = entry_views(entries@);
                assert(e1 =~= e0.insert(p as int, (key@, value@)));
                proof {
                    if p < n {
                        assert(e0[p as int].0 != key@);
                        lemma_str_lt_total(e0[p as int].0, key@);
                    }
                    lemma_map_insert(e0, p as int, key@, value@);
                }
            },
        }
        self.entries = entries;
    }

    /// A copy of the map.
    pub fn copy(&self) -> (m: Self)
        ensures
            m.entries_view() == self.entries_view(),
    {
        proof {
            use_type_invariant(self);
        }
        let mut out: Vec<(String, String)> = Vec::new();
        let mut i: usize = 0;
        while i < self.entries.len()
            invariant
                i <= self.entries@.len(),
                entry_views(out@) == entry_views(self.entries@).take(i as int),
            decreases self.entries@.len() - i,
        {
            let k = self.entries[i].0.clone();
            let v = self.entries[i].1.clone();
            let ghost prev = out@;
            out.push((k, v));
            assert(out@ == prev.push((k, v)));
            assert(entry_views(out@) =~= entry_views(prev).push((k@, v@)));
            assert(entry_views(self.entries@).take(i as int + 1) =~= entry_views(self.entries@).take(i as int).push(entry_views(self.entries@)[i as int]));
            assert(k@ == self.entries@[i as int].0@);
            assert(v@ == self.entries@[i as int].1@);
            assert(entry_views(out@) =~= entry_views(self.entries@).take(i as int + 1));
            i += 1;
        }
        assert(entry_views(self.entries@).take(i as int) =~= entry_views(self.entries@));
        StrMap { entries: out }
    }
}

/// Whether `a` comes before the character sequence `b` in string order.
pub fn str_before(a: &str, b: &Vec<char>) -> (r: bool)
    ensures
        r == str_lt(a@, b@),
{
    lt_str_chars(a, b)
}

fn lt_str_chars(a: &str, b: &Vec<char>) -> (r: bool)
    ensures
        r == str_lt(a@, b@),
{
    let av = crate::text::to_chars(a);
    let mut i: usize = 0;
    assert(av@.skip(0) =~= av@);
    assert(b@.skip(0) =~= b@);
    while i < av.len() && i < b.len() && av[i] == b[i]
        invariant
            i <= av@.len(),
            i <= b@.len(),
            str_lt(av@, b@) == str_lt(av@.skip(i as int), b@.skip(i as int)),
        decreases av@.len() - i,
    {
        assert(av@.skip(i as int).drop_first() == av@.skip(i as int + 1));
        assert(b@.skip(i as int).drop_first() == b@.skip(i as int + 1));
        i += 1;
    }
    if i == av.len() {
        i < b.len()
    } else if i == b.len() {
        false
    } else {
        assert(av@.skip(i as int)[0] == av@[i as int]);
        assert(b@.skip(i as int)[0] == b@[i as int]);
        av[i] < b[i]
    }
}

proof fn lemma_map_update(e: Seq<(Seq<char>, Seq<char>)>, i: int, k: Seq<char>, v: Seq<char>)
    requires
        entries_wf(e),
        0 <= i < e.len(),
        e[i].0 == k,
    ensures
        entries_map(e.update(i, (k, v))) == entries_map(e).insert(k, v),
{
    let e1 = e.update(i, (k, v));
    assert forall|key: Seq<char>| #[trigger]
        entries_map(e1).contains_key(key) == entries_map(e).insert(k, v).contains_key(key) by {
        if key == k {
            assert(e1[i].0 == k);
        } else if exists|j: int| 0 <= j < e.len() && #[trigger] e[j].0 == key {
            let j = choose|j: int| 0 <= j < e.len() && #[trigger] e[j].0 == key;
            assert(e1[j].0 == key);
        } else if exists|j: int| 0 <= j < e1.len() && #[trigger] e1[j].0 == key {
            let j = choose|j: int| 0 <= j < e1.len() && #[trigger] e1[j].0 == key;
            assert(e[j].0 == key);
        }
    }
    assert forall|key: Seq<char>| #[trigger] entries_map(e1).contains_key(key) implies entries_map(
        e1,
    )[key] == entries_map(e).insert(k, v)[key] by {
        let j1 = choose|j: int| 0 <= j < e1.len() && #[trigger] e1[j].0 == key;
        if key == k {
            assert(j1 == i);
        } else {
            let j0 = choose|j: int| 0 <= j < e.len() && #[trigger] e[j].0 == key;
            assert(e[j1].0 == key);
            assert(j0 == j1);
        }
    }
    assert(entries_map(e1) =~= entries_map(e).insert(k, v));
}

proof fn lemma_map_insert(e: Seq<(Seq<char>, Seq<char>)>, p: int, k: Seq<char>, v: Seq<char>)
    requires
        entries_wf(e),
        0 <= p <= e.len(),
        forall|j: int| 0 <= j < e.len() ==> #[trigger] e[j].0 != k,
        forall|j: int| 0 <= j < p ==> str_lt(#[trigger] e[j].0, k),
        p < e.len() ==> str_lt(k, e[p].0),
    ensures
        entries_wf(e.insert(p, (k, v))),
        entries_map(e.insert(p, (k, v))) == entries_map(e).insert(k, v),
{
    let e1 = e.insert(p, (k, v));
    assert forall|a: int, b: int| 0 <= a < b < e1.len() implies #[trigger] e1[a].0
        != #[trigger] e1[b].0 by {
        if a < p && b < p {
        } else if a < p && b == p {
        } else if a < p {
            assert(e1[b] == e[b - 1]);
        } else if a == p {
            assert(e1[b] == e[b - 1]);
        } else {
            assert(e1[a] == e[a - 1]);
            assert(e1[b] == e[b - 1]);
        }
    }
    assert forall|a: int| 0 <= a < e1.len() - 1 implies str_lt(#[trigger] e1[a].0, e1[a + 1].0) by {
        if a + 1 < p {
        } else if a + 1 == p {
        } else if a == p {
            assert(e1[a + 1] == e[p]);
        } else {
            assert(e1[a] == e[a - 1]);
            assert(e1[a + 1] == e[a]);
        }
    }
    assert forall|key: Seq<char>| #[trigger]
        entries_map(e1).contains_key(key) == entries_map(e).insert(k, v).contains_key(key) by {
        if key == k {
            assert(e1[p].0 == k);
        } else if exists|j: int| 0 <= j < e.len() && #[trigger] e[j].0 == key {
            let j = choose|j: int| 0 <= j < e.len() && #[trigger] e[j].0 == key;
            if j < p {
                assert(e1[j].0 == key);
            } else {
                assert(e1[j + 1].0 == key);
            }
        } else if exists|j: int| 0 <= j < e1.len() && #[trigger] e1[j].0 == key {
            let j = choose|j: int| 0 <= j < e1.len() && #[trigger] e1[j].0 == key;
            if j < p {
                assert(e[j].0 == key);
            } else if j > p {
                assert(e[j - 1].0 == key);
            }
        }
    }
    assert forall|key: Seq<char>| #[trigger] entries_map(e1).contains_key(key) implies entries_map(
        e1,
    )[key] == entries_map(e).insert(k, v)[key] by {
        let j1 = choose|j: int| 0 <= j < e1.len() && #[trigger] e1[j].0 == key;
        if key == k {
            assert(e1[p].0 == k);
            assert(j1 == p);
        } else {
            let j0 = choose|j: int| 0 <= j < e.len() && #[trigger] e[j].0 == key;
            if j1 < p {
                assert(e[j1].0 == key);
                assert(j0 == j1);
            } else {
                assert(j1 != p);
                assert(e[j1 - 1].0 == key);
                assert(j0 == j1 - 1);
            }
        }
    }
    assert(entries_map(e1) =~= entries_map(e).insert(k, v));
}

} // verus!
