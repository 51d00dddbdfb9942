//! An ordered map from strings to values (the per-stage figures of a
//! feature). Keys are kept unique and in ascending string order, so walking
//! the entries gives the same order as a `BTreeMap<String, V>`.

use vstd::prelude::*;

use crate::strmap::{lemma_str_lt_total, str_lt};

verus! {

/// Entries hold unique keys, each key preceding the next.
pub open spec fn key_entries_wf<V>(e: Seq<(Seq<char>, V)>) -> bool {
    &&& forall|i: int, j: int| 0 <= i < j < e.len() ==> #[trigger] e[i].0 != #[trigger] e[j].0
    &&& forall|i: int| 0 <= i < e.len() - 1 ==> str_lt(#[trigger] e[i].0, e[i + 1].0)
}

/// The map the entries stand for.
pub open spec fn key_entries_map<V>(e: Seq<(Seq<char>, V)>) -> Map<Seq<char>, V> {
    Map::new(
        |k: Seq<char>| exists|i: int| 0 <= i < e.len() && #[trigger] e[i].0 == k,
        |k: Seq<char>| e[choose|i: int| 0 <= i < e.len() && #[trigger] e[i].0 == k].1,
    )
}

/// The view of the stored entries: keys as character sequences.
pub open spec fn key_entry_views<V>(v: Seq<(String, V)>) -> Seq<(Seq<char>, V)> {
    v.map_values(|p: (String, V)| (p.0@, p.1))
}

/// An ordered map from strings to values.
pub struct KeyMap<V> {
    entries: Vec<(String, V)>,
}

impl<V> KeyMap<V> {
    #[verifier::type_invariant]
    spec fn inv(self) -> bool {
        key_entries_wf(key_entry_views(self.entries@))
    }

    /// The entries in ascending key order.
    pub closed spec fn entries_view(&self) -> Seq<(Seq<char>, V)> {
        key_entry_views(self.entries@)
    }

    /// The map the entries stand for.
    pub open spec fn map_view(&self) -> Map<Seq<char>, V> {
        key_entries_map(self.entries_view())
    }

    /// An empty map.
    pub fn new() -> (m: Self)
        ensures
            m.entries_view() == Seq::<(Seq<char>, V)>::empty(),
    {
        let m = KeyMap { entries: Vec::new() };
        assert(key_entry_views(m.entries@) =~= Seq::<(Seq<char>, V)>::empty());
        m
    }

    /// Number of entries.
    pub fn len(&self) -> (n: usize)
        ensures
            n == self.entries_view().len(),
    {
        self.entries.len()
    }

    /// `true` when the map holds no entry.
    pub fn is_empty(&self) -> (b: bool)
        ensures
            b == (self.entries_view().len() == 0),
    {
        self.entries.len() == 0
    }

    /// The `i`-th entry in key order.
    pub fn entry(&self, i: usize) -> (kv: (&String, &V))
        requires
            i < self.entries_view().len(),
        ensures
            (kv.0@, *kv.1) == self.entries_view()[i as int],
    {
        let p = &self.entries[i];
        (&p.0, &p.1)
    }

    /// The value stored under `key`, if any.
    pub fn get(&self, key: &str) -> (r: Option<&V>)
        ensures
            match r {
                Some(v) => self.map_view().contains_key(key@) && self.map_view()[key@] == *v,
                None => !self.map_view().contains_key(key@),
            },
    {
        proof {
            use_type_invariant(self);
        }
        let ghost e = self.entries_view();
        let mut i: usize = 0;
        while i < self.entries.len()
            invariant
                i <= self.entries@.len(),
                e == key_entry_views(self.entries@),
                key_entries_wf(e),
                forall|j: int| 0 <= j < i ==> #[trigger] e[j].0 != key@,
            decreases self.entries@.len() - i,
        {
            if crate::text::str_eq(self.entries[i].0.as_str(), key) {
                let ghost k = choose|j: int| 0 <= j < e.len() && #[trigger] e[j].0 == key@;
                assert(e[i as int].0 == key@);
                assert(k == i as int);
                return Some(&self.entries[i].1);
            }
            i += 1;
        }
        None
    }

    /// Position at which `key` is stored, if it is.
    fn find(&self, key: &str) -> (r: Option<usize>)
        ensures
            match r {
                Some(i) => i < self.entries_view().len() && self.entries_view()[i as int].0
                    == key@,
                None => forall|j: int|
                    0 <= j < self.entries_view().len() ==> #[trigger] self.entries_view()[j].0
                        != key@,
            },
    {
        let mut i: usize = 0;
        while i < self.entries.len()
            invariant
                i <= self.entries@.len(),
                forall|j: int| 0 <= j < i ==> #[trigger] self.entries_view()[j].0 != key@,
            decreases self.entries@.len() - i,
        {
            if crate::text::str_eq(self.entries[i].0.as_str(), key) {
                return Some(i);
            }
            i += 1;
        }
        None
    }

    /// Insert or replace the value under `key`, keeping key order.
    pub fn insert(&mut self, key: &str, value: V)
        ensures
            final(self).map_view() == old(self).map_view().insert(key@, value),
    {
        proof {
            use_type_invariant(&*self);
        }
        let ghost e0 = self.entries_view();
        let found = self.find(key);
        let mut entries: Vec<(String, V)> = Vec::new();
        std::mem::swap(&mut entries, &mut self.entries);
        assert(e0 == key_entry_views(entries@));
        match found {
            Some(i) => {
                let k = key.to_string();
                                entries.set(i, (k, value));
                let ghost e1 = key_entry_views(entries@);
                assert(e1 =~= e0.update(i as int, (key@, value)));
                assert(key_entries_wf(e1)) by {
                    assert forall|a: int| 0 <= a < e1.len() - 1 implies str_lt(
                        #[trigger] e1[a].0,
                        e1[a + 1].0,
                    ) by {
                        assert(e0[a].0 == e1[a].0);
                        assert(e0[a + 1].0 == e1[a + 1].0);
                    }
                }
                proof {
                    lemma_map_update(e0, i as int, key@, value);
                }
            },
            None => {
                let mut p: usize = 0;
                let n = entries.len();
                let kv = crate::text::to_chars(key);
                while p < n && lt_str_chars(entries[p].0.as_str(), &kv)
                    invariant
                        p <= n == entries@.len(),
                        kv@ == key@,
                        e0 == key_entry_views(entries@),
                        forall|j: int| 0 <= j < p ==> str_lt(#[trigger] e0[j].0, key@),
                    decreases n - p,
                {
                    p += 1;
                }
                let k = key.to_string();
                                entries.insert(p, (k, value));
                let ghost e1 = key_entry_views(entries@);
                assert(e1 =~= e0.insert(p as int, (key@, value)));
                proof {
                    if p < n {
                        assert(e0[p as int].0 != key@);
                        lemma_str_lt_total(e0[p as int].0, key@);
                    }
                    lemma_map_insert(e0, p as int, key@, value);
                }
            },
        }
        self.entries = entries;
    }
}

/// Whether `a` comes before the character sequence `b` in string order.
fn lt_str_chars(a: &str, b: &Vec<char>) -> (r: bool)
    ensures
        r == str_lt(a@, b@),
{
    crate::strmap::str_before(a, b)
}

proof fn lemma_map_update<V>(e: Seq<(Seq<char>, V)>, i: int, k: Seq<char>, v: V)
    requires
        key_entries_wf(e),
        0 <= i < e.len(),
        e[i].0 == k,
    ensures
        key_entries_map(e.update(i, (k, v))) == key_entries_map(e).insert(k, v),
{
    let e1 = e.update(i, (k, v));
    assert forall|key: Seq<char>| #[trigger]
        key_entries_map(e1).contains_key(key) == key_entries_map(e).insert(k, v).contains_key(key) by {
        if key == k {
            assert(e1[i].0 == k);
        } else if exists|j: int| 0 <= j < e.len() && #[trigger] e[j].0 == key {
            let j = choose|j: int| 0 <= j < e.len() && #[trigger] e[j].0 == key;
            assert(e1[j].0 == key);
        } else if exists|j: int| 0 <= j < e1.len() && #[trigger] e1[j].0 == key {
            let j = choose|j: int| 0 <= j < e1.len() && #[trigger] e1[j].0 == key;
            assert(e[j].0 == key);
        }
    }
    assert forall|key: Seq<char>| #[trigger] key_entries_map(e1).contains_key(key) implies key_entries_map(
        e1,
    )[key] == key_entries_map(e).insert(k, v)[key] by {
        let j1 = choose|j: int| 0 <= j < e1.len() && #[trigger] e1[j].0 == key;
        if key == k {
            assert(j1 == i);
        } else {
            let j0 = choose|j: int| 0 <= j < e.len() && #[trigger] e[j].0 == key;
            assert(e[j1].0 == key);
            assert(j0 == j1);
        }
    }
    assert(key_entries_map(e1) =~= key_entries_map(e).insert(k, v));
}

#[verifier::spinoff_prover]
#[verifier::rlimit(60)]
proof fn lemma_map_insert<V>(e: Seq<(Seq<char>, V)>, p: int, k: Seq<char>, v: V)
    requires
        key_entries_wf(e),
        0 <= p <= e.len(),
        forall|j: int| 0 <= j < e.len() ==> #[trigger] e[j].0 != k,
        forall|j: int| 0 <= j < p ==> str_lt(#[trigger] e[j].0, k),
        p < e.len() ==> str_lt(k, e[p].0),
    ensures
        key_entries_wf(e.insert(p, (k, v))),
        key_entries_map(e.insert(p, (k, v))) == key_entries_map(e).insert(k, v),
{
    let e1 = e.insert(p, (k, v));
    assert forall|a: int, b: int| 0 <= a < b < e1.len() implies #[trigger] e1[a].0
        != #[trigger] e1[b].0 by {
        if a < p && b < p {
        } else if a < p && b == p {
        } else if a < p {
            assert(e1[b] == e[b - 1]);
        } else if a == p {
            assert(e1[b] == e[b - 1]);
        } else {
            assert(e1[a] == e[a - 1]);
            assert(e1[b] == e[b - 1]);
        }
    }
    assert forall|a: int| 0 <= a < e1.len() - 1 implies str_lt(#[trigger] e1[a].0, e1[a + 1].0) by {
        if a + 1 < p {
        } else if a + 1 == p {
        } else if a == p {
            assert(e1[a + 1] == e[p]);
        } else {
            assert(e1[a] == e[a - 1]);
            assert(e1[a + 1] == e[a]);
        }
    }
    assert forall|key: Seq<char>| #[trigger]
        key_entries_map(e1).contains_key(key) == key_entries_map(e).insert(k, v).contains_key(key) by {
        if key == k {
            assert(e1[p].0 == k);
        } else if exists|j: int| 0 <= j < e.len() && #[trigger] e[j].0 == key {
            let j = choose|j: int| 0 <= j < e.len() && #[trigger] e[j].0 == key;
            if j < p {
                assert(e1[j].0 == key);
            } else {
                assert(e1[j + 1].0 == key);
            }
        } else if exists|j: int| 0 <= j < e1.len() && #[trigger] e1[j].0 == key {
            let j = choose|j: int| 0 <= j < e1.len() && #[trigger] e1[j].0 == key;
            if j < p {
                assert(e[j].0 == key);
            } else if j > p {
                assert(e[j - 1].0 == key);
            }
        }
    }
    assert forall|key: Seq<char>| #[trigger] key_entries_map(e1).contains_key(key) implies key_entries_map(
        e1,
    )[key] == key_entries_map(e).insert(k, v)[key] by {
        let j1 = choose|j: int| 0 <= j < e1.len() && #[trigger] e1[j].0 == key;
        if key == k {
            assert(e1[p].0 == k);
            assert(j1 == p);
        } else {
            let j0 = choose|j: int| 0 <= j < e.len() && #[trigger] e[j].0 == key;
            if j1 < p {
                assert(e[j1].0 == key);
                assert(j0 == j1);
            } else {
                assert(j1 != p);
                assert(e[j1 - 1].0 == key);
                assert(j0 == j1 - 1);
            }
        }
    }
    assert(key_entries_map(e1) =~= key_entries_map(e).insert(k, v));
}

} // verus!
