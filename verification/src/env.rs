//! Deployment-context enums and the small environment-value surface. The
//! process environment is read by the caller; these functions decide what a
//! value (or its absence) means. An empty value counts as absent.

use vstd::prelude::*;

use crate::text::{
    lemma_token_of_lower_word, parse_i64_spec, parse_i64_str, parse_u64_str, parse_unsigned, str_eq,
    token, trim, trimmed_lower,
};

verus! {

/// Deployment environment: `Local` when unset, empty or unrecognised.
#[derive(Debug, Clone, Copy, PartialEq, Eq, Hash, Default, Structural)]
pub enum SubMsAppEnv {
    #[default]
    Local,
    Dev,
    Uat,
    Prod,
}

/// The environment a (trimmed, lower-cased) word names.
pub open spec fn app_env_of(t: Seq<char>) -> SubMsAppEnv {
    if t == "local"@ {
        SubMsAppEnv::Local
    } else if t == "dev"@ || t == "development"@ {
        SubMsAppEnv::Dev
    } else if t == "uat"@ || t == "staging"@ || t == "stage"@ {
        SubMsAppEnv::Uat
    } else if t == "prod"@ || t == "production"@ {
        SubMsAppEnv::Prod
    } else {
        SubMsAppEnv::Local
    }
}

/// A present, non-empty value.
pub open spec fn present(v: Option<Seq<char>>) -> bool {
    v matches Some(s) && s.len() > 0
}

/// The view of an optional string.
pub open spec fn opt_view(v: Option<&str>) -> Option<Seq<char>> {
    match v {
        Some(s) => Some(s@),
        None => None,
    }
}

impl SubMsAppEnv {
    /// The environment named by `APP_ENV`'s value (`None` when unset):
    /// `Local` when absent or empty.
    pub fn from_env(value: Option<&str>) -> (r: Self)
        ensures
            r == if present(opt_view(value)) {
                app_env_of(token(value.unwrap()@))
            } else {
                SubMsAppEnv::Local
            },
    {
        match value {
            Some(v) => {
                if v.unicode_len() == 0 {
                    SubMsAppEnv::Local
                } else {
                    Self::parse(v)
                }
            },
            None => SubMsAppEnv::Local,
        }
    }

    /// Trimmed, ASCII case-insensitive: `local`; `dev`/`development`;
    /// `uat`/`staging`/`stage`; `prod`/`production`; anything else `Local`.
    pub fn parse(s: &str) -> (r: Self)
        ensures
            r == app_env_of(token(s@)),
    {
        let t = trimmed_lower(s);
        let w = t.as_str();
        if str_eq(w, "local") {
            SubMsAppEnv::Local
        } else if str_eq(w, "dev") || str_eq(w, "development") {
            SubMsAppEnv::Dev
        } else if str_eq(w, "uat") || str_eq(w, "staging") || str_eq(w, "stage") {
            SubMsAppEnv::Uat
        } else if str_eq(w, "prod") || str_eq(w, "production") {
            SubMsAppEnv::Prod
        } else {
            SubMsAppEnv::Local
        }
    }

    /// The wire name.
    pub open spec fn spec_str(self) -> Seq<char> {
        match self {
            SubMsAppEnv::Local => "local"@,
            SubMsAppEnv::Dev => "dev"@,
            SubMsAppEnv::Uat => "uat"@,
            SubMsAppEnv::Prod => "prod"@,
        }
    }

    /// `local` / `dev` / `uat` / `prod`.
    pub fn as_str(&self) -> (r: &'static str)
        ensures
            r@ == self.spec_str(),
    {
        match self {
            SubMsAppEnv::Local => "local",
            SubMsAppEnv::Dev => "dev",
            SubMsAppEnv::Uat => "uat",
            SubMsAppEnv::Prod => "prod",
        }
    }

    /// The wire name as an owned string (what `Display` prints).
    pub fn to_string(&self) -> (r: String)
        ensures
            r@ == self.spec_str(),
    {
        self.as_str().to_string()
    }
}

/// Deployment region: `Unknown` when unset, empty or unrecognised.
#[derive(Debug, Clone, Copy, PartialEq, Eq, Hash, Default, Structural)]
pub enum SubMsAppRegion {
    Na,
    Latam,
    Emea,
    Apac,
    #[default]
    Unknown,
}

/// The region a (trimmed, lower-cased) word names.
pub open spec fn app_region_of(t: Seq<char>) -> SubMsAppRegion {
    if t == "na"@ || t == "north-america"@ || t == "north_america"@ || t == "namer"@ {
        SubMsAppRegion::Na
    } else if t == "latam"@ || t == "lat-am"@ || t == "latin-america"@ || t == "latin_america"@ {
        SubMsAppRegion::Latam
    } else if t == "emea"@ {
        SubMsAppRegion::Emea
    } else if t == "apac"@ || t == "asia-pacific"@ || t == "asia_pacific"@ {
        SubMsAppRegion::Apac
    } else {
        SubMsAppRegion::Unknown
    }
}

impl SubMsAppRegion {
    /// The region named by `APP_REGION`'s value (`None` when unset):
    /// `Unknown` when absent or empty.
    pub fn from_env(value: Option<&str>) -> (r: Self)
        ensures
            r == if present(opt_view(value)) {
                app_region_of(token(value.unwrap()@))
            } else {
                SubMsAppRegion::Unknown
            },
    {
        match value {
            Some(v) => {
                if v.unicode_len() == 0 {
                    SubMsAppRegion::Unknown
                } else {
                    Self::parse(v)
                }
            },
            None => SubMsAppRegion::Unknown,
        }
    }

    /// Trimmed, ASCII case-insensitive: `na`/`north-america`/`north_america`/
    /// `namer`; `latam`/`lat-am`/`latin-america`/`latin_america`; `emea`;
    /// `apac`/`asia-pacific`/`asia_pacific`; anything else `Unknown`.
    pub fn parse(s: &str) -> (r: Self)
        ensures
            r == app_region_of(token(s@)),
    {
        let t = trimmed_lower(s);
        let w = t.as_str();
        if str_eq(w, "na") || str_eq(w, "north-america") || str_eq(w, "north_america") || str_eq(
            w,
            "namer",
        ) {
            SubMsAppRegion::Na
        } else if str_eq(w, "latam") || str_eq(w, "lat-am") || str_eq(w, "latin-america")
            || str_eq(w, "latin_america") {
            SubMsAppRegion::Latam
        } else if str_eq(w, "emea") {
            SubMsAppRegion::Emea
        } else if str_eq(w, "apac") || str_eq(w, "asia-pacific") || str_eq(w, "asia_pacific") {
            SubMsAppRegion::Apac
        } else {
            SubMsAppRegion::Unknown
        }
    }

    /// The wire name.
    pub open spec fn spec_str(self) -> Seq<char> {
        match self {
            SubMsAppRegion::Na => "na"@,
            SubMsAppRegion::Latam => "latam"@,
            SubMsAppRegion::Emea => "emea"@,
            SubMsAppRegion::Apac => "apac"@,
            SubMsAppRegion::Unknown => "unknown"@,
        }
    }

    /// `na` / `latam` / `emea` / `apac` / `unknown`.
    pub fn as_str(&self) -> (r: &'static str)
        ensures
            r@ == self.spec_str(),
    {
        match self {
            SubMsAppRegion::Na => "na",
            SubMsAppRegion::Latam => "latam",
            SubMsAppRegion::Emea => "emea",
            SubMsAppRegion::Apac => "apac",
            SubMsAppRegion::Unknown => "unknown",
        }
    }

    /// The wire name as an owned string (what `Display` prints).
    pub fn to_string(&self) -> (r: String)
        ensures
            r@ == self.spec_str(),
    {
        self.as_str().to_string()
    }
}

/// The value of a variable, or `default` when it is unset or empty.
pub fn env_or(value: Option<&str>, default: &str) -> (r: String)
    ensures
        r@ == if present(opt_view(value)) {
            value.unwrap()@
        } else {
            default@
        },
{
    match value {
        Some(v) => {
            if v.unicode_len() == 0 {
                default.to_string()
            } else {
                v.to_string()
            }
        },
        None => default.to_string(),
    }
}

/// A flag: trimmed, ASCII case-insensitive `true`/`1`/`yes`/`on` or
/// `false`/`0`/`no`/`off`; unset, empty or anything else gives `default`.
pub fn env_bool(value: Option<&str>, default: bool) -> (r: bool)
    ensures
        r == if present(opt_view(value)) && crate::params::truthy(token(value.unwrap()@)) {
            true
        } else if present(opt_view(value)) && crate::params::falsy(token(value.unwrap()@)) {
            false
        } else {
            default
        },
{
    match value {
        Some(v) => {
            if v.unicode_len() == 0 {
                return default;
            }
            let t = trimmed_lower(v);
            let w = t.as_str();
            if str_eq(w, "true") || str_eq(w, "1") || str_eq(w, "yes") || str_eq(w, "on") {
                true
            } else if str_eq(w, "false") || str_eq(w, "0") || str_eq(w, "no") || str_eq(w, "off") {
                false
            } else {
                default
            }
        },
        None => default,
    }
}

/// A signed integer (trimmed, `str::parse::<i64>` rules); unset, empty or
/// unparseable gives `default`.
pub fn env_i64(value: Option<&str>, default: i64) -> (r: i64)
    ensures
        r == if present(opt_view(value)) {
            match parse_i64_spec(trim(value.unwrap()@)) {
                Some(x) => x as i64,
                None => default,
            }
        } else {
            default
        },
{
    match value {
        Some(v) => {
            if v.unicode_len() == 0 {
                return default;
            }
            let t = crate::text::trimmed(v);
            match parse_i64_str(t.as_str()) {
                Some(x) => x,
                None => default,
            }
        },
        None => default,
    }
}

/// An unsigned integer (trimmed, `str::parse::<u64>` rules); unset, empty or
/// unparseable gives `default`.
pub fn env_u64(value: Option<&str>, default: u64) -> (r: u64)
    ensures
        r == if present(opt_view(value)) {
            match parse_unsigned(trim(value.unwrap()@), u64::MAX as nat) {
                Some(x) => x as u64,
                None => default,
            }
        } else {
            default
        },
{
    match value {
        Some(v) => {
            if v.unicode_len() == 0 {
                return default;
            }
            let t = crate::text::trimmed(v);
            match parse_u64_str(t.as_str()) {
                Some(x) => x,
                None => default,
            }
        },
        None => default,
    }
}


/// Every environment survives the trip through its wire name.
pub proof fn lemma_app_env_round_trip(e: SubMsAppEnv)
    ensures
        app_env_of(token(e.spec_str())) == e,
{
    reveal_strlit("local");
    reveal_strlit("dev");
    reveal_strlit("development");
    reveal_strlit("uat");
    reveal_strlit("staging");
    reveal_strlit("stage");
    reveal_strlit("prod");
    reveal_strlit("production");
    let s = e.spec_str();
    assert forall|i: int| 0 <= i < s.len() implies 'a' <= #[trigger] s[i] <= 'z' by {
        match e {
            SubMsAppEnv::Local => assert(s == seq!['l', 'o', 'c', 'a', 'l']),
            SubMsAppEnv::Dev => assert(s == seq!['d', 'e', 'v']),
            SubMsAppEnv::Uat => assert(s == seq!['u', 'a', 't']),
            SubMsAppEnv::Prod => assert(s == seq!['p', 'r', 'o', 'd']),
        }
    }
    lemma_token_of_lower_word(s);
}

/// Every region survives the trip through its wire name.
pub proof fn lemma_app_region_round_trip(r: SubMsAppRegion)
    ensures
        app_region_of(token(r.spec_str())) == r,
{
    reveal_strlit("na");
    reveal_strlit("north-america");
    reveal_strlit("north_america");
    reveal_strlit("namer");
    reveal_strlit("latam");
    reveal_strlit("lat-am");
    reveal_strlit("latin-america");
    reveal_strlit("latin_america");
    reveal_strlit("emea");
    reveal_strlit("apac");
    reveal_strlit("asia-pacific");
    reveal_strlit("asia_pacific");
    reveal_strlit("unknown");
    let s = r.spec_str();
    assert forall|i: int| 0 <= i < s.len() implies 'a' <= #[trigger] s[i] <= 'z' by {
        match r {
            SubMsAppRegion::Na => assert(s == seq!['n', 'a']),
            SubMsAppRegion::Latam => assert(s == seq!['l', 'a', 't', 'a', 'm']),
            SubMsAppRegion::Emea => assert(s == seq!['e', 'm', 'e', 'a']),
            SubMsAppRegion::Apac => assert(s == seq!['a', 'p', 'a', 'c']),
            SubMsAppRegion::Unknown => assert(s == seq!['u', 'n', 'k', 'n', 'o', 'w', 'n']),
        }
    }
    lemma_token_of_lower_word(s);
}

} // verus!
