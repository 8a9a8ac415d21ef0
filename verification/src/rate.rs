//! The rating subsystem's verified core: which candidates are probed, how
//! a probe's bytes and elapsed time become a throughput, and how rated
//! candidates are ranked. The probes themselves are network transfers and
//! run outside the engine; each hands back its byte count and elapsed
//! milliseconds, or nothing when it timed out or failed.

use vstd::prelude::*;
use crate::sort::rate_key_of;
use crate::status::Mirror;

verus! {

/// A candidate paired with its measured throughput in bytes per second,
/// or `None` when the probe did not complete.
pub struct RatedMirror {
    pub mirror: Mirror,
    pub rate: Option<u64>,
}

/// Throughput in bytes per second from a probe's byte count and elapsed
/// milliseconds. A completed probe always yields a rate: the value
/// saturates at the greatest representable rate, and a probe too quick to
/// measure counts as maximally fast, never as a failure.
pub open spec fn throughput_of(bytes: u64, millis: u64) -> u64 {
    if millis == 0 {
        u64::MAX
    } else if bytes * 1000 / (millis as int) > u64::MAX {
        u64::MAX
    } else {
        (bytes * 1000 / (millis as int)) as u64
    }
}

pub fn throughput(bytes: u64, millis: u64) -> (r: u64)
    ensures
        r == throughput_of(bytes, millis),
{
    if millis == 0 {
        u64::MAX
    } else {
        let q: u128 = (bytes as u128) * 1000 / (millis as u128);
        if q > u64::MAX as u128 {
            u64::MAX
        } else {
            q as u64
        }
    }
}

/// The candidates handed to the rating pool: the first `limit` of them in
/// feed order when the fastest-n filter is given, all of them otherwise.
pub fn probe_selection(candidates: Vec<Mirror>, limit: Option<usize>) -> (r: Vec<Mirror>)
    ensures
        r@ == match limit {
            Some(n) => if n <= candidates@.len() {
                candidates@.take(n as int)
            } else {
                candidates@
            },
            None => candidates@,
        },
{
    match limit {
        Some(n) => crate::sort::truncate_number(candidates, n),
        None => candidates,
    }
}

/// Rated candidates in rate order: fastest first, failed probes last.
pub open spec fn sorted_rated(s: Seq<RatedMirror>) -> bool {
    forall|i: int, j: int|
        0 <= i < j < s.len() ==> rate_key_of((#[trigger] s[i]).rate) <= rate_key_of(
            (#[trigger] s[j]).rate,
        )
}

/// Sorts rated candidates by measured throughput, fastest first; probes
/// that failed or timed out come after every measured one.
pub fn rank_rated(arr0: Vec<RatedMirror>) -> (r: Vec<RatedMirror>)
    ensures
        r@.len() == arr0@.len(),
        r@.to_multiset() == arr0@.to_multiset(),
        sorted_rated(r@),
{
    let mut arr = arr0;
    let ghost orig = arr@;
    if arr.len() <= 1 {
        return arr;
    }
    let mut i: usize = 1;
    while i < arr.len()
        invariant
            1 <= i <= arr@.len(),
            arr@.len() == orig.len(),
            arr@.to_multiset() == orig.to_multiset(),
            forall|x: int, y: int|
                0 <= x < y < i ==> rate_key_of((#[trigger] arr@[x]).rate) <= rate_key_of(
                    (#[trigger] arr@[y]).rate,
                ),
        decreases arr@.len() - i,
    {
        let mut p: usize = 0;
        while p < i && rate_key(&arr[p]) <= rate_key(&arr[i])
            invariant
                p <= i < arr@.len(),
                forall|k: int|
                    0 <= k < p ==> rate_key_of((#[trigger] arr@[k]).rate) <= rate_key_of(
                        arr@[i as int].rate,
                    ),
            decreases i - p,
        {
            p += 1;
        }
        if p < i {
            let ghost prev = arr@;
            let x = arr.remove(i);
            proof {
                broadcast use vstd::seq_lib::group_to_multiset_ensures;
            }
            arr.insert(p, x);
            proof {
                let mid = prev.remove(i as int);
                crate::sort::lemma_to_multiset_insert(mid, p as int, x);
                assert(arr@.to_multiset() =~= orig.to_multiset());
                mid.insert_ensures(p as int, x);
                assert forall|a: int, b: int|
                    0 <= a < b < i + 1 implies rate_key_of((#[trigger] arr@[a]).rate)
                    <= rate_key_of((#[trigger] arr@[b]).rate) by {
                    let pi = p as int;
                    let av = if a < pi {
                        prev[a]
                    } else if a == pi {
                        x
                    } else {
                        prev[a - 1]
                    };
                    let bv = if b < pi {
                        prev[b]
                    } else if b == pi {
                        x
                    } else {
                        prev[b - 1]
                    };
                    assert(arr@[a] == av);
                    assert(arr@[b] == bv);
                    if a < pi && b > pi && a == b - 1 {
                        assert(a == pi - 1 && b == pi + 1);
                    }
                }
            }
        }
        i += 1;
    }
    arr
}

/// Once one failed probe appears in a rate-ranked list, everything after
/// it is a failed probe too: every measured mirror precedes every failed
/// one, whatever the order among the failed.
pub proof fn lemma_failed_probes_last(s: Seq<RatedMirror>)
    requires
        sorted_rated(s),
    ensures
        forall|i: int, j: int|
            0 <= i < j < s.len() && (#[trigger] s[i]).rate is None ==> (#[trigger] s[j]).rate
                is None,
{
    assert forall|i: int, j: int|
        0 <= i < j < s.len() && (#[trigger] s[i]).rate is None implies (#[trigger] s[j]).rate
        is None by {
        assert(rate_key_of(s[i].rate) <= rate_key_of(s[j].rate));
        if s[j].rate is Some {
            assert(rate_key_of(s[j].rate) < u64::MAX);
            assert(rate_key_of(s[i].rate) == u64::MAX);
        }
    }
}

/// The record sequence a rated list carries, in its order.
pub open spec fn mirrors_of_rated(s: Seq<RatedMirror>) -> Seq<Mirror> {
    s.map_values(|p: RatedMirror| p.mirror)
}

/// The records of a rated list, in its order, the rates dropped.
pub fn strip_rated(rated: Vec<RatedMirror>) -> (r: Vec<Mirror>)
    ensures
        r@ == mirrors_of_rated(rated@),
{
    let ghost grated = rated@;
    let mut rest = rated;
    let mut out: Vec<Mirror> = Vec::new();
    while rest.len() > 0
        invariant
            out@.len() + rest@.len() == grated.len(),
            rest@ == grated.skip(out@.len() as int),
            out@ == grated.take(out@.len() as int).map_values(|p: RatedMirror| p.mirror),
        decreases rest@.len(),
    {
        let ghost prev_rest = rest@;
        let e = rest.remove(0);
        out.push(e.mirror);
        proof {
            assert(prev_rest.drop_first() =~= rest@);
            assert(prev_rest[0] == grated[out@.len() - 1]);
            assert(rest@ =~= grated.skip(out@.len() as int));
            assert(out@ =~= grated.take(out@.len() as int).map_values(
                |p: RatedMirror| p.mirror,
            ));
        }
    }
    proof {
        assert(grated.take(grated.len() as int) =~= grated);
    }
    out
}

fn rate_key(p: &RatedMirror) -> (r: u64)
    ensures
        r == rate_key_of(p.rate),
{
    match p.rate {
        Some(v) => if v >= u64::MAX - 1 {
            0
        } else {
            u64::MAX - 1 - v
        },
        None => u64::MAX,
    }
}

} // verus!
