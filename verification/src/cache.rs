//! The cache store's verified core: the key a source URL maps to, the
//! time-to-live judgement, and the decision between reusing a cached
//! status document and fetching a fresh one. Reading and writing the
//! cache file itself is persistent-storage work and runs outside the
//! engine, against these contracts.

use vstd::prelude::*;
use base64::prelude::{Engine, BASE64_URL_SAFE};
use crate::strutil::str_eq;
use vstd::string::{StringExecFns, StringSliceAdditionalSpecFns};

verus! {

/// An entry written at `time` is stale at `now` when more than `timeout`
/// seconds have passed; instants in the future of `now` count as age zero.
pub open spec fn stale(time: u64, now: u64, timeout: u64) -> bool {
    time < now && now - time > timeout
}

/// True when `timeout` seconds have passed since `time`, judged at `now`.
pub fn invalidated(time: u64, now: u64, timeout: u64) -> (r: bool)
    ensures
        r == stale(time, now, timeout),
{
    time < now && now - time > timeout
}

/// What to do about the cache: read the entry back, or fetch anew.
#[derive(Clone, Copy, Debug, PartialEq, Eq, Structural)]
pub enum CachePlan {
    UseCache,
    Refetch,
}

/// Decides between the cached document and a fresh fetch: a missing entry
/// and an expired one are treated identically, and every entry older than
/// the timeout is refetched.
pub fn cache_plan(fetched_at: Option<u64>, now: u64, timeout: u64) -> (r: CachePlan)
    ensures
        (r == CachePlan::Refetch) == (fetched_at is None || stale(fetched_at->0, now, timeout)),
        (fetched_at matches Some(t) && t < now && now - t > timeout) ==> r == CachePlan::Refetch,
        (fetched_at matches Some(t) && !stale(t, now, timeout)) ==> r == CachePlan::UseCache,
{
    match fetched_at {
        Some(t) => {
            if invalidated(t, now, timeout) {
                CachePlan::Refetch
            } else {
                CachePlan::UseCache
            }
        },
        None => CachePlan::Refetch,
    }
}

/// The URL-safe base64 encoding of `bytes`, with padding; a function of
/// the bytes alone, as the base64 crate computes it.
pub uninterp spec fn base64_url_of(bytes: Seq<u8>) -> Seq<char>;

/// A character the URL-safe base64 alphabet can emit: the RFC 4648
/// alphabet `A-Z a-z 0-9 - _` and the `=` padding, so never a path
/// separator; this is what makes the encoding filesystem-safe.
pub open spec fn base64_url_char(c: char) -> bool {
    ||| ('A' <= c && c <= 'Z')
    ||| ('a' <= c && c <= 'z')
    ||| ('0' <= c && c <= '9')
    ||| c == '-'
    ||| c == '_'
    ||| c == '='
}

/// Relies on base64's BASE64_URL_SAFE engine: Engine::encode returns the
/// padded URL-safe base64 encoding of the input bytes and nothing else
/// decides it; every output character comes from the engine's alphabet
/// (`A-Z a-z 0-9 - _`) or is the `=` padding. The length bound keeps the
/// input clear of the engine's output-size overflow.
#[verifier::external_body]
fn base64_url(data: &[u8]) -> (r: String)
    requires
        data@.len() <= usize::MAX / 4,
    ensures
        r@ == base64_url_of(data@),
        forall|k: int| 0 <= k < r@.len() ==> base64_url_char(#[trigger] r@[k]),
{
    BASE64_URL_SAFE.encode(data)
}

/// The well-known source mapped to a fixed cache file name.
pub open spec fn default_url_chars() -> Seq<char> {
    "https://archlinux.org/mirrors/status/json/"@
}

pub fn default_url() -> (r: &'static str)
    ensures
        r@ == default_url_chars(),
{
    "https://archlinux.org/mirrors/status/json/"
}

/// The cache file, relative to the platform cache directory: the default
/// endpoint maps to a fixed name; any other URL maps to a product
/// directory holding a filesystem-safe encoding of the URL itself.
pub open spec fn cache_key_of(url_chars: Seq<char>, url_bytes: Seq<u8>) -> Seq<char> {
    if url_chars == default_url_chars() {
        "mirrorstatus.json"@
    } else {
        "Reflector-rs/"@ + base64_url_of(url_bytes) + ".json"@
    }
}

/// Derives the cache file name for a source URL.
pub fn cache_key(url: &str) -> (r: String)
    requires
        url.spec_bytes().len() <= usize::MAX / 4,
    ensures
        r@ == cache_key_of(url@, url.spec_bytes()),
{
    if str_eq(url, default_url()) {
        let r = "mirrorstatus.json".to_owned();
        r
    } else {
        let mut s = "Reflector-rs/".to_owned();
        let enc = base64_url(url.as_bytes());
        s.append(enc.as_str());
        s.append(".json");
        s
    }
}

} // verus!
