//! Configuration of the storage client, read from the process environment.
//!
//! The environment is handed in as its (name, value) pairs, in the order the
//! process holds them; a name is looked up as `std::env::var` does, by its
//! first occurrence.
use vstd::prelude::*;

use crate::error::{S3Error, S3Result};
use crate::text::{trim, trim_string};

verus! {

/// Configuration for the S3-compatible storage client.
/// Supports custom endpoints (MinIO, RustFS, Ceph, etc.).
#[derive(Debug, Clone)]
pub struct S3Config {
    /// Full URL of the S3-compatible endpoint, e.g. `http://localhost:9000`.
    pub endpoint_url: String,
    /// AWS/S3 region string. MinIO accepts any non-empty value; `"us-east-1"` is safe.
    pub region: String,
    /// Access key ID.
    pub access_key: String,
    /// Secret access key.
    pub secret_key: String,
    /// Bucket name.
    pub bucket: String,
    pub api_key: Option<String>,
}

/// The views of the environment's (name, value) pairs.
pub open spec fn env_view(env: Seq<(String, String)>) -> Seq<(Seq<char>, Seq<char>)> {
    env.map_values(|p: (String, String)| (p.0@, p.1@))
}

/// The value of the first pair named `key`, if any.
pub open spec fn lookup(env: Seq<(Seq<char>, Seq<char>)>, key: Seq<char>) -> Option<Seq<char>>
    decreases env.len(),
{
    if env.len() == 0 {
        None
    } else if env[0].0 == key {
        Some(env[0].1)
    } else {
        lookup(env.drop_first(), key)
    }
}

/// The setting named `key`: its value without surrounding whitespace, or
/// nothing when it is unset, empty or only whitespace.
pub open spec fn setting(env: Seq<(Seq<char>, Seq<char>)>, key: Seq<char>) -> Option<Seq<char>> {
    match lookup(env, key) {
        Some(v) => if trim(v).len() == 0 {
            None
        } else {
            Some(trim(v))
        },
        None => None,
    }
}

/// The view of an optional string.
pub open spec fn opt_str_view(o: Option<String>) -> Option<Seq<char>> {
    match o {
        Some(s) => Some(s@),
        None => None,
    }
}

/// The raw value of the first pair named `key`.
fn lookup_value(env: &[(String, String)], key: &str) -> (res: Option<String>)
    ensures
        opt_str_view(res) == lookup(env_view(env@), key@),
{
    let ghost ev = env_view(env@);
    let target = String::from_str(key);
    let mut i: usize = 0;
    assert(ev.subrange(0, ev.len() as int) =~= ev);
    while i < env.len()
        invariant
            i <= env.len(),
            ev == env_view(env@),
            target@ == key@,
            lookup(ev, key@) == lookup(ev.subrange(i as int, ev.len() as int), key@),
        decreases env.len() - i,
    {
        let ghost rest = ev.subrange(i as int, ev.len() as int);
        assert(rest[0] == ev[i as int]);
        if env[i].0 == target {
            return Some(env[i].1.clone());
        }
        assert(rest.drop_first() =~= ev.subrange(i + 1, ev.len() as int));
        i = i + 1;
    }
    None
}

/// An unset variable and an empty/whitespace one are treated the same.
pub fn optional(env: &[(String, String)], key: &str) -> (res: Option<String>)
    ensures
        opt_str_view(res) == setting(env_view(env@), key@),
{
    match lookup_value(env, key) {
        Some(v) => {
            let t = trim_string(v.as_str());
            if t.as_str().unicode_len() == 0 {
                None
            } else {
                Some(t)
            }
        },
        None => None,
    }
}

/// The setting named `key`, which must be there.
pub fn required(env: &[(String, String)], key: &str) -> (res: S3Result<String>)
    ensures
        match setting(env_view(env@), key@) {
            Some(v) => res matches Ok(s) && s@ == v,
            None => res matches Err(S3Error::MissingEnv(k)) && k@ == key@,
        },
{
    match optional(env, key) {
        Some(v) => Ok(v),
        None => Err(S3Error::MissingEnv(String::from_str(key))),
    }
}

/// The names of the settings, in the order they are read.
pub open spec fn endpoint_var() -> Seq<char> {
    "S3_ENDPOINT_URL"@
}

pub open spec fn region_var() -> Seq<char> {
    "S3_REGION"@
}

pub open spec fn access_key_var() -> Seq<char> {
    "S3_ACCESS_KEY"@
}

pub open spec fn secret_key_var() -> Seq<char> {
    "S3_SECRET_KEY"@
}

pub open spec fn bucket_var() -> Seq<char> {
    "S3_BUCKET"@
}

pub open spec fn api_key_var() -> Seq<char> {
    "S3_API_KEY"@
}

/// The region used when `S3_REGION` is not set.
pub open spec fn fallback_region() -> Seq<char> {
    "us-east-1"@
}

/// The required settings, in the order they are checked.
pub open spec fn required_vars() -> Seq<Seq<char>> {
    seq![endpoint_var(), access_key_var(), secret_key_var(), bucket_var()]
}

impl S3Config {
    /// Read the config from the environment. Load a `.env` file into the
    /// environment first if you want values from it to be picked up.
    ///
    /// Required: `S3_ENDPOINT_URL`, `S3_ACCESS_KEY`, `S3_SECRET_KEY`, `S3_BUCKET`.
    /// Optional: `S3_REGION` (defaults to `us-east-1`), `S3_API_KEY`.
    /// The first required one that is missing is reported.
    pub fn from_env(env: &[(String, String)]) -> (res: S3Result<S3Config>)
        ensures
            ({
                let e = env_view(env@);
                match res {
                    Ok(cfg) => {
                        &&& setting(e, endpoint_var()) == Some(cfg.endpoint_url@)
                        &&& setting(e, access_key_var()) == Some(cfg.access_key@)
                        &&& setting(e, secret_key_var()) == Some(cfg.secret_key@)
                        &&& setting(e, bucket_var()) == Some(cfg.bucket@)
                        &&& cfg.region@ == match setting(e, region_var()) {
                            Some(r) => r,
                            None => fallback_region(),
                        }
                        &&& opt_str_view(cfg.api_key) == setting(e, api_key_var())
                    },
                    Err(err) => exists|i: int|
                        0 <= i < required_vars().len() && setting(e, #[trigger] required_vars()[i])
                            is None && (forall|j: int|
                            0 <= j < i ==> setting(e, required_vars()[j]) is Some) && (err matches S3Error::MissingEnv(
                            k,
                        ) && k@ == required_vars()[i]),
                }
            }),
    {
        let endpoint_url = match required(env, "S3_ENDPOINT_URL") {
            Ok(v) => v,
            Err(e) => {
                assert(required_vars()[0] == endpoint_var());
                return Err(e);
            },
        };
        let region = match optional(env, "S3_REGION") {
            Some(r) => r,
            None => String::from_str("us-east-1"),
        };
        let access_key = match required(env, "S3_ACCESS_KEY") {
            Ok(v) => v,
            Err(e) => {
                assert(required_vars()[1] == access_key_var());
                return Err(e);
            },
        };
        let secret_key = match required(env, "S3_SECRET_KEY") {
            Ok(v) => v,
            Err(e) => {
                assert(required_vars()[2] == secret_key_var());
                return Err(e);
            },
        };
        let bucket = match required(env, "S3_BUCKET") {
            Ok(v) => v,
            Err(e) => {
                assert(required_vars()[3] == bucket_var());
                return Err(e);
            },
        };
        let api_key = optional(env, "S3_API_KEY");
        Ok(S3Config { endpoint_url, region, access_key, secret_key, bucket, api_key })
    }
}

/// An unset variable and an empty or whitespace-only one are treated the
/// same: neither gives a setting.
pub proof fn lemma_blank_is_unset(env: Seq<(Seq<char>, Seq<char>)>, key: Seq<char>)
    ensures
        setting(env, key) is None <==> (lookup(env, key) is None || trim(lookup(env, key)->0).len()
            == 0),
{
}

/// A setting that is there never has whitespace around it and is never empty.
pub proof fn lemma_setting_is_trimmed(env: Seq<(Seq<char>, Seq<char>)>, key: Seq<char>)
    requires
        setting(env, key) is Some,
    ensures
        setting(env, key)->0.len() > 0,
        !crate::text::is_whitespace(setting(env, key)->0[0]),
        !crate::text::is_whitespace(setting(env, key)->0.last()),
{
    let v = lookup(env, key)->0;
    crate::text::lemma_trim_bounds(v);
}

} // verus!
