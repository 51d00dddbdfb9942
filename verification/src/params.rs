//! Parameter parsing from a `key=value` map.

use vstd::prelude::*;

use crate::recipe::SubMsBenchParams;
use crate::strmap::StrMap;
use crate::text::{
    ascii_lower, lower, parse_u64_str, parse_unsigned, parse_usize_str, str_eq,
};

verus! {

/// The `usize` stored under `key` when it parses, else `default`.
pub open spec fn usize_or(args: Map<Seq<char>, Seq<char>>, key: Seq<char>, default: usize) -> usize {
    if args.contains_key(key) {
        match parse_unsigned(args[key], usize::MAX as nat) {
            Some(v) => v as usize,
            None => default,
        }
    } else {
        default
    }
}

/// The `u64` stored under `key` when it parses, else `default`.
pub open spec fn u64_or(args: Map<Seq<char>, Seq<char>>, key: Seq<char>, default: u64) -> u64 {
    if args.contains_key(key) {
        match parse_unsigned(args[key], u64::MAX as nat) {
            Some(v) => v as u64,
            None => default,
        }
    } else {
        default
    }
}

/// Parse a `usize`; falls back to `default` if missing or unparseable.
pub fn parse_usize(args: &StrMap, key: &str, default: usize) -> (r: usize)
    ensures
        r == usize_or(args.map_view(), key@, default),
{
    match args.get(key) {
        Some(v) => match parse_usize_str(v.as_str()) {
            Some(x) => x,
            None => default,
        },
        None => default,
    }
}

/// Parse a `u64`; falls back to `default` if missing or unparseable.
pub fn parse_u64(args: &StrMap, key: &str, default: u64) -> (r: u64)
    ensures
        r == u64_or(args.map_view(), key@, default),
{
    match args.get(key) {
        Some(v) => match parse_u64_str(v.as_str()) {
            Some(x) => x,
            None => default,
        },
        None => default,
    }
}

/// Read a string; falls back to `default` if absent.
pub fn parse_string(args: &StrMap, key: &str, default: &str) -> (r: String)
    ensures
        r@ == if args.map_view().contains_key(key@) {
            args.map_view()[key@]
        } else {
            default@
        },
{
    match args.get(key) {
        Some(v) => v.clone(),
        None => default.to_string(),
    }
}

/// Words read as `true` (after ASCII lower-casing).
pub open spec fn truthy(s: Seq<char>) -> bool {
    s == "1"@ || s == "true"@ || s == "on"@ || s == "yes"@
}

/// Words read as `false` (after ASCII lower-casing).
pub open spec fn falsy(s: Seq<char>) -> bool {
    s == "0"@ || s == "false"@ || s == "off"@ || s == "no"@
}

/// Accepts `1`/`true`/`on`/`yes` and `0`/`false`/`off`/`no`, ASCII
/// case-insensitively; anything else, or a missing key, gives `default`.
pub fn parse_bool(args: &StrMap, key: &str, default: bool) -> (r: bool)
    ensures
        r == if args.map_view().contains_key(key@) && truthy(ascii_lower(args.map_view()[key@])) {
            true
        } else if args.map_view().contains_key(key@) && falsy(ascii_lower(args.map_view()[key@])) {
            false
        } else {
            default
        },
{
    match args.get(key) {
        Some(v) => {
            let l = lower(v.as_str());
            let s = l.as_str();
            if str_eq(s, "1") || str_eq(s, "true") || str_eq(s, "on") || str_eq(s, "yes") {
                true
            } else if str_eq(s, "0") || str_eq(s, "false") || str_eq(s, "off") || str_eq(s, "no") {
                false
            } else {
                default
            }
        },
        None => default,
    }
}

impl SubMsBenchParams {
    /// Reads `entries` / `warmup` / `seed` / `sample_cap`, each falling back
    /// to its default when missing or unparseable.
    pub fn from_map(args: &StrMap) -> (p: Self)
        ensures
            p.entries == usize_or(args.map_view(), "entries"@, 50000),
            p.warmup == usize_or(args.map_view(), "warmup"@, 5000),
            p.seed == u64_or(args.map_view(), "seed"@, 0),
            p.sample_cap == usize_or(args.map_view(), "sample_cap"@, 500),
    {
        let d = SubMsBenchParams::default();
        SubMsBenchParams {
            entries: parse_usize(args, "entries", d.entries),
            warmup: parse_usize(args, "warmup", d.warmup),
            seed: parse_u64(args, "seed", d.seed),
            sample_cap: parse_usize(args, "sample_cap", d.sample_cap),
        }
    }
}

} // verus!
