//! Per-recipe bench configuration: the typed view of a recipe's controls
//! document. Loading, updating and saving keep every field this harness does
//! not own; a setter touches only the key it names. An absent `cpu_pin`
//! means [`SubMsCpuPin::Single`].

use vstd::prelude::*;

use crate::feature::jget;
use crate::json_round_trip::{
    lemma_dec_num_token, lemma_obj_set_ok, lemma_obj_well_formed, lemma_parsed_well_formed,
    lemma_pretty_object_trims, lemma_pretty_parses_back, well_formed,
};
use crate::json::{
    key_index, lemma_key_index_from, lemma_members_view, lemma_obj_set_get, lemma_obj_set_keys,
    member_keys, members_view, obj_get, obj_set, parse_json, set_member, Json, JsonV,
};
use crate::text::{
    dec, lemma_dec_round_trip, lemma_token_of_lower_word, parse_u64_str, parse_unsigned, str_eq,
    token, trim, trimmed, trimmed_lower,
};

verus! {

/// How the bench harness places a recipe's process on the box's CPUs.
#[derive(Copy, Clone, Debug, PartialEq, Eq, Structural)]
pub enum SubMsCpuPin {
    /// One isolated core: a stable single-threaded p99.
    Single,
    /// `cores` dedicated cores, for a multi-threaded recipe.
    Multi,
    /// No pinning.
    Unpinned,
}

impl SubMsCpuPin {
    /// The wire token.
    pub open spec fn spec_str(self) -> Seq<char> {
        match self {
            SubMsCpuPin::Single => "single"@,
            SubMsCpuPin::Multi => "multi"@,
            SubMsCpuPin::Unpinned => "none"@,
        }
    }

    /// `single` / `multi` / `none`.
    pub fn as_str(self) -> (r: &'static str)
        ensures
            r@ == self.spec_str(),
    {
        match self {
            SubMsCpuPin::Single => "single",
            SubMsCpuPin::Multi => "multi",
            SubMsCpuPin::Unpinned => "none",
        }
    }

    /// The mode a (trimmed, lower-cased) token names, legacy booleans
    /// included.
    pub open spec fn from_token(t: Seq<char>) -> Option<SubMsCpuPin> {
        if t == "single"@ || t == "one"@ || t == "true"@ {
            Some(SubMsCpuPin::Single)
        } else if t == "multi"@ || t == "cores"@ {
            Some(SubMsCpuPin::Multi)
        } else if t == "none"@ || t == "off"@ || t == "false"@ {
            Some(SubMsCpuPin::Unpinned)
        } else {
            Option::None
        }
    }

    /// Parse a wire token (trimmed, ASCII case-insensitive): `single` /
    /// `one` / `true`, `multi` / `cores`, `none` / `off` / `false`.
    pub fn from_wire(s: &str) -> (r: Option<Self>)
        ensures
            r == Self::from_token(token(s@)),
    {
        let t = trimmed_lower(s);
        let w = t.as_str();
        if str_eq(w, "single") || str_eq(w, "one") || str_eq(w, "true") {
            Some(SubMsCpuPin::Single)
        } else if str_eq(w, "multi") || str_eq(w, "cores") {
            Some(SubMsCpuPin::Multi)
        } else if str_eq(w, "none") || str_eq(w, "off") || str_eq(w, "false") {
            Some(SubMsCpuPin::Unpinned)
        } else {
            Option::None
        }
    }
}

/// The typed model of a controls document.
pub struct SubMsBenchConfig {
    root: Json,
}

/// The unsigned number stored under `key`, when it is a number whose
/// trimmed text parses.
pub open spec fn u64_field(root: JsonV, key: Seq<char>) -> Option<u64> {
    match jget(root, key) {
        Some(JsonV::Num(n)) => match parse_unsigned(trim(n), u64::MAX as nat) {
            Some(v) => Some(v as u64),
            Option::None => Option::None,
        },
        _ => Option::None,
    }
}

/// The CPU placement a document records: a recognised `cpu_pin` string,
/// `true` as `Single`, `false` as `Unpinned`, anything else `Single`.
pub open spec fn pin_in(root: JsonV) -> SubMsCpuPin {
    match jget(root, "cpu_pin"@) {
        Some(JsonV::Str(s)) => match SubMsCpuPin::from_token(token(s)) {
            Some(p) => p,
            Option::None => SubMsCpuPin::Single,
        },
        Some(JsonV::Bool(b)) => if b {
            SubMsCpuPin::Single
        } else {
            SubMsCpuPin::Unpinned
        },
        _ => SubMsCpuPin::Single,
    }
}

/// The note a document records.
pub open spec fn reason_in(root: JsonV) -> Option<Seq<char>> {
    match jget(root, "reason"@) {
        Some(JsonV::Str(s)) => Some(s),
        _ => Option::None,
    }
}

/// The document `load_str` keeps: a parsed object, or an empty one for
/// blank, malformed or non-object text.
pub open spec fn config_root(text: Seq<char>) -> JsonV {
    let t = trim(text);
    if t.len() == 0 {
        JsonV::Obj(Seq::empty())
    } else {
        match crate::json::parse_doc(t) {
            Ok(JsonV::Obj(p)) => JsonV::Obj(p),
            _ => JsonV::Obj(Seq::empty()),
        }
    }
}

/// What every config document is: a well-formed object.
pub open spec fn config_ok(root: JsonV) -> bool {
    root is Obj && well_formed(root)
}

/// Whatever text it loads, a config is a config document.
pub proof fn lemma_config_root_ok(text: Seq<char>)
    ensures
        config_ok(config_root(text)),
{
    lemma_obj_well_formed(Seq::<(Seq<char>, JsonV)>::empty());
    lemma_parsed_well_formed(trim(text));
}

/// Setting a key to a well-formed value keeps a config document one.
pub proof fn lemma_config_set_ok(root: JsonV, key: Seq<char>, v: JsonV)
    requires
        config_ok(root),
        well_formed(v),
    ensures
        config_ok(config_set(root, key, v)),
{
    let p = root->Obj_0;
    lemma_obj_well_formed(p);
    lemma_obj_set_ok(p, key, v);
    lemma_obj_well_formed(obj_set(p, key, v));
}

/// The document with `key` set (when it is an object).
pub open spec fn config_set(root: JsonV, key: Seq<char>, v: JsonV) -> JsonV {
    match root {
        JsonV::Obj(p) => JsonV::Obj(obj_set(p, key, v)),
        _ => root,
    }
}

impl SubMsBenchConfig {
    /// The document.
    pub closed spec fn root_view(&self) -> JsonV {
        self.root@
    }

    /// An empty config (every accessor gives its default).
    pub fn new() -> (c: Self)
        ensures
            c.root_view() == JsonV::Obj(Seq::empty()),
            config_ok(c.root_view()),
    {
        proof {
            lemma_obj_well_formed(Seq::<(Seq<char>, JsonV)>::empty());
        }
        let v: Vec<(String, Json)> = Vec::new();
        let root = Json::Obj(v);
        assert(root@ == JsonV::Obj(Seq::empty()));
        SubMsBenchConfig { root }
    }

    /// Parse from JSON text; blank, malformed or non-object text gives an
    /// empty config.
    pub fn load_str(text: &str) -> (c: Self)
        ensures
            c.root_view() == config_root(text@),
            config_ok(c.root_view()),
    {
        proof {
            lemma_config_root_ok(text@);
        }
        let t = trimmed(text);
        if t.unicode_len() == 0 {
            return Self::new();
        }
        match parse_json(t.as_str()) {
            Ok(Json::Obj(p)) => SubMsBenchConfig { root: Json::Obj(p) },
            _ => Self::new(),
        }
    }

    /// The document as pretty JSON.
    pub fn to_json(&self) -> (r: String)
        ensures
            r@ == crate::json::pretty(self.root_view(), 0).push('\n'),
            config_ok(self.root_view()) ==> config_root(r@) == self.root_view(),
    {
        let r = self.root.to_pretty();
        proof {
            if config_ok(self.root_view()) {
                lemma_config_round_trip(self.root_view());
            }
        }
        r
    }

    /// The CPU placement: a recognised `cpu_pin` string, `true` as `Single`,
    /// `false` as `Unpinned`; anything else (absent included) `Single`.
    pub fn cpu_pin(&self) -> (r: SubMsCpuPin)
        ensures
            r == pin_in(self.root_view()),
    {
        match self.root.get("cpu_pin") {
            Some(Json::Str(s)) => match SubMsCpuPin::from_wire(s.as_str()) {
                Some(p) => p,
                Option::None => SubMsCpuPin::Single,
            },
            Some(Json::Bool(b)) => if *b {
                SubMsCpuPin::Single
            } else {
                SubMsCpuPin::Unpinned
            },
            _ => SubMsCpuPin::Single,
        }
    }

    fn get_u64(&self, key: &str) -> (r: Option<u64>)
        ensures
            r == u64_field(self.root_view(), key@),
    {
        match self.root.get(key) {
            Some(Json::Num(n)) => {
                let t = trimmed(n.as_str());
                parse_u64_str(t.as_str())
            },
            _ => Option::None,
        }
    }

    /// How many cores a `Multi` recipe wants pinned, if given.
    pub fn cores(&self) -> (r: Option<u64>)
        ensures
            r == u64_field(self.root_view(), "cores"@),
    {
        self.get_u64("cores")
    }

    /// The per-op sample cap the capture should raise the harness to, if
    /// given.
    pub fn sample_cap(&self) -> (r: Option<u64>)
        ensures
            r == u64_field(self.root_view(), "sample_cap"@),
    {
        self.get_u64("sample_cap")
    }

    /// The free-text note on why the config is set this way.
    pub fn reason(&self) -> (r: Option<&str>)
        ensures
            match reason_in(self.root_view()) {
                Some(s) => r matches Some(x) && x@ == s,
                Option::None => r is None,
            },
    {
        match self.root.get("reason") {
            Some(Json::Str(s)) => Some(s.as_str()),
            _ => Option::None,
        }
    }

    fn set(&mut self, key: &str, val: Json)
        ensures
            final(self).root_view() == config_set(old(self).root_view(), key@, val@),
    {
        let mut r = Json::Null;
        std::mem::swap(&mut r, &mut self.root);
        match r {
            Json::Obj(mut p) => {
                proof {
                    lemma_members_view(p@);
                }
                set_member(&mut p, key, val);
                proof {
                    lemma_members_view(p@);
                }
                self.root = Json::Obj(p);
            },
            other => {
                self.root = other;
            },
        }
    }

    /// Set `cpu_pin` to the mode's token.
    pub fn set_cpu_pin(&mut self, mode: SubMsCpuPin) -> (r: &mut Self)
        ensures
            r.root_view() == config_set(old(self).root_view(), "cpu_pin"@, JsonV::Str(mode.spec_str())),
            *final(self) == *final(r),
            config_ok(old(self).root_view()) ==> config_ok(r.root_view()),
    {
        proof {
            if config_ok(self.root_view()) {
                lemma_config_set_ok(self.root_view(), "cpu_pin"@, JsonV::Str(mode.spec_str()));
            }
        }
        self.set("cpu_pin", Json::Str(mode.as_str().to_string()));
        self
    }

    /// Set `cores` to the number.
    pub fn set_cores(&mut self, cores: u64) -> (r: &mut Self)
        ensures
            r.root_view() == config_set(old(self).root_view(), "cores"@, JsonV::Num(crate::text::dec(cores as nat))),
            *final(self) == *final(r),
            config_ok(old(self).root_view()) ==> config_ok(r.root_view()),
    {
        proof {
            if config_ok(self.root_view()) {
                lemma_dec_num_token(cores as nat);
                lemma_config_set_ok(self.root_view(), "cores"@, JsonV::Num(crate::text::dec(cores as nat)));
            }
        }
        self.set("cores", Json::Num(crate::text::dec_string(cores)));
        self
    }

    /// Set `sample_cap` to the number.
    pub fn set_sample_cap(&mut self, cap: u64) -> (r: &mut Self)
        ensures
            r.root_view() == config_set(old(self).root_view(), "sample_cap"@, JsonV::Num(crate::text::dec(cap as nat))),
            *final(self) == *final(r),
            config_ok(old(self).root_view()) ==> config_ok(r.root_view()),
    {
        proof {
            if config_ok(self.root_view()) {
                lemma_dec_num_token(cap as nat);
                lemma_config_set_ok(self.root_view(), "sample_cap"@, JsonV::Num(crate::text::dec(cap as nat)));
            }
        }
        self.set("sample_cap", Json::Num(crate::text::dec_string(cap)));
        self
    }

    /// Set `reason` to the text.
    pub fn set_reason(&mut self, reason: &str) -> (r: &mut Self)
        ensures
            r.root_view() == config_set(old(self).root_view(), "reason"@, JsonV::Str(reason@)),
            *final(self) == *final(r),
            config_ok(old(self).root_view()) ==> config_ok(r.root_view()),
    {
        proof {
            if config_ok(self.root_view()) {
                lemma_config_set_ok(self.root_view(), "reason"@, JsonV::Str(reason@));
            }
        }
        self.set("reason", Json::Str(reason.to_string()));
        self
    }
}

impl Default for SubMsBenchConfig {
    fn default() -> (c: Self)
        ensures
            c.root_view() == JsonV::Obj(Seq::empty()),
    {
        Self::new()
    }
}


/// Every placement survives the trip through its wire token.
pub proof fn lemma_pin_wire_round_trip(mode: SubMsCpuPin)
    ensures
        SubMsCpuPin::from_token(token(mode.spec_str())) == Some(mode),
{
    reveal_strlit("single");
    reveal_strlit("multi");
    reveal_strlit("none");
    reveal_strlit("one");
    reveal_strlit("true");
    reveal_strlit("cores");
    let s = mode.spec_str();
    assert forall|i: int| 0 <= i < s.len() implies 'a' <= #[trigger] s[i] <= 'z' by {
        match mode {
            SubMsCpuPin::Single => {
                assert(s == seq!['s', 'i', 'n', 'g', 'l', 'e']);
            },
            SubMsCpuPin::Multi => {
                assert(s == seq!['m', 'u', 'l', 't', 'i']);
            },
            SubMsCpuPin::Unpinned => {
                assert(s == seq!['n', 'o', 'n', 'e']);
            },
        }
    }
    lemma_token_of_lower_word(s);
    assert("multi"@.len() != "single"@.len());
    assert("multi"@[0] != "one"@[0] && "multi"@[0] != "true"@[0]);
    assert("none"@.len() != "single"@.len() && "none"@[0] != "one"@[0] && "none"@[0] != "true"@[0]);
    assert("none"@[0] != "multi"@[0] && "none"@.len() != "cores"@.len());
}

/// Read after write for the config: what a setter stores is what its
/// getter then reads.
pub proof fn lemma_config_set_reads_back(root: JsonV, mode: SubMsCpuPin, cores: u64, cap: u64, reason: Seq<char>)
    requires
        root is Obj,
    ensures
        pin_in(config_set(root, "cpu_pin"@, JsonV::Str(mode.spec_str()))) == mode,
        u64_field(config_set(root, "cores"@, JsonV::Num(dec(cores as nat))), "cores"@) == Some(cores),
        u64_field(config_set(root, "sample_cap"@, JsonV::Num(dec(cap as nat))), "sample_cap"@) == Some(cap),
        reason_in(config_set(root, "reason"@, JsonV::Str(reason))) == Some(reason),
{
    let p = root->Obj_0;
    lemma_obj_set_get(p, "cpu_pin"@, JsonV::Str(mode.spec_str()), "cpu_pin"@);
    lemma_obj_set_get(p, "cores"@, JsonV::Num(dec(cores as nat)), "cores"@);
    lemma_obj_set_get(p, "sample_cap"@, JsonV::Num(dec(cap as nat)), "sample_cap"@);
    lemma_obj_set_get(p, "reason"@, JsonV::Str(reason), "reason"@);
    lemma_pin_wire_round_trip(mode);
    lemma_dec_round_trip(cores as nat, u64::MAX as nat);
    lemma_dec_round_trip(cap as nat, u64::MAX as nat);
}

/// A setter touches only the key it names: every other field reads as
/// before.
pub proof fn lemma_config_set_keeps_others(root: JsonV, key: Seq<char>, v: JsonV, other: Seq<char>)
    requires
        other != key,
    ensures
        jget(config_set(root, key, v), other) == jget(root, other),
{
    if let JsonV::Obj(p) = root {
        lemma_obj_set_get(p, key, v, other);
    }
}

/// Save then load: the text a config writes reads back as the same
/// document, so every field, foreign ones included, survives.
pub proof fn lemma_config_round_trip(root: JsonV)
    requires
        config_ok(root),
    ensures
        config_root(crate::json::pretty(root, 0).push('\n')) == root,
{
    lemma_pretty_object_trims(root);
    lemma_pretty_parses_back(root);
}


/// Whether a name is `key`.
pub open spec fn same_as(key: Seq<char>) -> spec_fn(Seq<char>) -> bool {
    |k: Seq<char>| k == key
}

/// How many members of `p` are named `key`.
pub open spec fn times_named(p: Seq<(Seq<char>, JsonV)>, key: Seq<char>) -> nat {
    member_keys(p).filter(same_as(key)).len()
}

proof fn lemma_times_named(p: Seq<(Seq<char>, JsonV)>, key: Seq<char>)
    ensures
        obj_get(p, key) is Some <==> times_named(p, key) >= 1,
{
    let ks = member_keys(p);
    let f = ks.filter(same_as(key));
    lemma_key_index_from(p, key, 0);
    match key_index(p, key) {
        Some(i) => {
            assert(ks[i] == key);
            ks.lemma_filter_contains(same_as(key), i);
            assert(f.contains(ks[i]));
            let w = choose|w: int| 0 <= w < f.len() && f[w] == ks[i];
            assert(f.len() >= 1);
        },
        None => {
            if f.len() > 0 {
                ks.lemma_filter_pred(same_as(key), 0);
                assert(same_as(key)(f[0]));
                assert(f[0] == key);
                assert(f.contains(f[0]));
                ks.lemma_filter_contains_rev(same_as(key), f[0]);
                let t = choose|t: int| 0 <= t < ks.len() && ks[t] == f[0];
                assert(ks[t] == p[t].0);
                assert(p[t].0 == key);
            }
        },
    }
}

/// Setters are positional and idempotent: a field already there keeps its
/// place and a new one is appended; setting the same value again changes
/// nothing; and a document with at most one member of that name has
/// exactly one afterwards.
pub proof fn lemma_config_set_positional(root: JsonV, key: Seq<char>, v: JsonV)
    requires
        root is Obj,
    ensures
        member_keys(config_set(root, key, v)->Obj_0) == if jget(root, key) is Some {
            member_keys(root->Obj_0)
        } else {
            member_keys(root->Obj_0).push(key)
        },
        config_set(config_set(root, key, v), key, v) == config_set(root, key, v),
        times_named(root->Obj_0, key) <= 1 ==> times_named(config_set(root, key, v)->Obj_0, key)
            == 1,
{
    let p = root->Obj_0;
    let q = obj_set(p, key, v);
    lemma_obj_set_keys(p, key, v);
    lemma_obj_set_get(p, key, v, key);
    lemma_times_named(p, key);
    lemma_times_named(q, key);
    lemma_key_index_from(q, key, 0);
    let j = key_index(q, key)->0;
    assert(q.update(j, (key, v)) =~= q);
    if obj_get(p, key) is None {
        member_keys(p).lemma_filter_push(key, same_as(key));
    }
}

} // verus!
