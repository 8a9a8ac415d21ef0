//! The selection pipeline: filters, pre-restriction limits, the sort, and
//! the final cap, composed in the order the configuration asks for. The
//! unrated path runs entirely in here; the rated path pauses at the probe
//! boundary and resumes with the measured rates.
//!
//! Each stage's effect is stated by a predicate of its own (`limit_stage`,
//! `sort_stage`, `cap_stage`), and the two entry points promise the chain
//! of exactly the stages the configuration enables, so no enabled stage
//! can be skipped.

use vstd::prelude::*;
use crate::config::{valid_config, valid_now, FilterConfig, SortKey};
use crate::errors::EngineError;
use crate::filters::{apply_filters, filtered, patterns_ok};
use crate::rate::{mirrors_of_rated, rank_rated, sorted_rated, strip_rated, RatedMirror};
use crate::sort::{sort_mirrors, sorted_run, truncate_number, wildcard_only};
use crate::status::{valid_catalog, valid_mirror, Mirror, MirrorStatus};

verus! {

/// `a` holds no record more often than `b` does: every stage only drops.
pub open spec fn within_counts(a: Seq<Mirror>, b: Seq<Mirror>) -> bool {
    forall|x: Mirror| #[trigger] a.to_multiset().count(x) <= b.to_multiset().count(x)
}

/// Whether the configuration calls for the rating subsystem at all: the
/// fastest-n filter or the rate sort, and nothing else, requires probes.
pub open spec fn rating_requested(cfg: FilterConfig, sort: Option<SortKey>) -> bool {
    cfg.fastest is Some || sort == Some(SortKey::Rate)
}

pub fn needs_rating(cfg: &FilterConfig, sort: Option<SortKey>) -> (r: bool)
    ensures
        r == rating_requested(*cfg, sort),
{
    cfg.fastest.is_some() || matches!(sort, Some(SortKey::Rate))
}

/// One pre-restriction: `out` is the front (at most `n` records) of some
/// arrangement of `input` in the order of `key`, so it keeps the `n` best
/// by that criterion.
pub open spec fn limit_stage(
    input: Seq<Mirror>,
    key: SortKey,
    n: usize,
    now: i64,
    out: Seq<Mirror>,
) -> bool {
    exists|w: Seq<Mirror>|
        #![auto]
        w.to_multiset() == input.to_multiset() && sorted_run(
            w,
            key,
            Seq::<Seq<char>>::empty(),
            now,
        ) && out == (if n <= w.len() {
            w.take(n as int)
        } else {
            w
        })
}

/// The sort stage: a wildcard-only country sort is an order hint naming no
/// country and keeps the order unchanged; every other sort yields a
/// permutation in the key's order.
pub open spec fn sort_stage(
    input: Seq<Mirror>,
    key: SortKey,
    sels: Seq<Seq<char>>,
    now: i64,
    out: Seq<Mirror>,
) -> bool {
    if key == SortKey::Country && wildcard_only(sels) {
        out == input
    } else {
        out.to_multiset() == input.to_multiset() && sorted_run(out, key, sels, now)
    }
}

/// The final cap: exactly the first `n` records, or all of them when
/// fewer.
pub open spec fn cap_stage(input: Seq<Mirror>, n: usize, out: Seq<Mirror>) -> bool {
    out == if n <= input.len() {
        input.take(n as int)
    } else {
        input
    }
}

/// The latest-n stage, or a pass-through when it is not configured.
pub open spec fn latest_ok(
    base: Seq<Mirror>,
    cfg: FilterConfig,
    now: i64,
    s1: Seq<Mirror>,
) -> bool {
    match cfg.latest {
        Some(n) => limit_stage(base, SortKey::Age, n, now, s1),
        None => s1 == base,
    }
}

/// The score-n stage, or a pass-through when it is not configured.
pub open spec fn score_ok(
    s1: Seq<Mirror>,
    cfg: FilterConfig,
    now: i64,
    s2: Seq<Mirror>,
) -> bool {
    match cfg.score {
        Some(n) => limit_stage(s1, SortKey::Score, n, now, s2),
        None => s2 == s1,
    }
}

/// The sort stage, or a pass-through when no sort is requested.
pub open spec fn sort_ok(
    s2: Seq<Mirror>,
    cfg: FilterConfig,
    sort: Option<SortKey>,
    now: i64,
    s3: Seq<Mirror>,
) -> bool {
    match sort {
        Some(k) => sort_stage(s2, k, cfg.countries.deep_view(), now, s3),
        None => s3 == s2,
    }
}

/// The number-n cap, or a pass-through when it is not configured.
pub open spec fn cap_ok(s3: Seq<Mirror>, cfg: FilterConfig, out: Seq<Mirror>) -> bool {
    match cfg.number {
        Some(n) => cap_stage(s3, n, out),
        None => out == s3,
    }
}

/// The whole post-filter pipeline, stage by stage: `out` is what the
/// enabled latest-n, score-n, sort and number-n stages, in that order,
/// make of `base`, each disabled stage passing its input through.
pub open spec fn staged(
    base: Seq<Mirror>,
    cfg: FilterConfig,
    sort: Option<SortKey>,
    now: i64,
    out: Seq<Mirror>,
) -> bool {
    exists|s1: Seq<Mirror>, s2: Seq<Mirror>, s3: Seq<Mirror>|
        #![trigger latest_ok(base, cfg, now, s1), score_ok(s1, cfg, now, s2), sort_ok(s2, cfg, sort, now, s3)]
        latest_ok(base, cfg, now, s1) && score_ok(s1, cfg, now, s2) && sort_ok(
            s2,
            cfg,
            sort,
            now,
            s3,
        ) && cap_ok(s3, cfg, out)
}

/// A prefix holds no record more often than the whole.
pub proof fn lemma_take_counts(s: Seq<Mirror>, n: int)
    requires
        0 <= n <= s.len(),
    ensures
        within_counts(s.take(n), s),
{
    broadcast use vstd::multiset::group_multiset_axioms;

    assert(s =~= s.take(n) + s.skip(n));
    vstd::seq_lib::lemma_multiset_commutative(s.take(n), s.skip(n));
    assert forall|x: Mirror| #[trigger]
        s.take(n).to_multiset().count(x) <= s.to_multiset().count(x) by {
        assert(s.to_multiset().count(x) == s.take(n).to_multiset().count(x)
            + s.skip(n).to_multiset().count(x));
    }
}

/// Keeps the `n` most recently synchronized records: the front of some
/// age-ordered arrangement of the candidates.
pub fn take_latest(v: Vec<Mirror>, n: usize, now: i64) -> (r: Vec<Mirror>)
    requires
        valid_catalog(v@),
        valid_now(now),
    ensures
        limit_stage(v@, SortKey::Age, n, now, r@),
        within_counts(r@, v@),
        r@.len() == if n <= v@.len() {
            n as int
        } else {
            v@.len() as int
        },
{
    let empty_sels: Vec<String> = Vec::new();
    let sorted = sort_mirrors(v, SortKey::Age, &empty_sels, now);
    let ghost w = sorted@;
    let r = truncate_number(sorted, n);
    proof {
        assert(empty_sels.deep_view() =~= Seq::<Seq<char>>::empty());
        assert(sorted_run(w, SortKey::Age, Seq::<Seq<char>>::empty(), now));
        if n <= w.len() {
            lemma_take_counts(w, n as int);
        } else {
            broadcast use vstd::multiset::group_multiset_axioms;

        }
    }
    r
}

/// Keeps the `n` best-scored records: the front of some score-ordered
/// arrangement of the candidates.
pub fn take_score(v: Vec<Mirror>, n: usize, now: i64) -> (r: Vec<Mirror>)
    requires
        valid_catalog(v@),
        valid_now(now),
    ensures
        limit_stage(v@, SortKey::Score, n, now, r@),
        within_counts(r@, v@),
        r@.len() == if n <= v@.len() {
            n as int
        } else {
            v@.len() as int
        },
{
    let empty_sels: Vec<String> = Vec::new();
    let sorted = sort_mirrors(v, SortKey::Score, &empty_sels, now);
    let ghost w = sorted@;
    let r = truncate_number(sorted, n);
    proof {
        assert(empty_sels.deep_view() =~= Seq::<Seq<char>>::empty());
        assert(sorted_run(w, SortKey::Score, Seq::<Seq<char>>::empty(), now));
        if n <= w.len() {
            lemma_take_counts(w, n as int);
        } else {
            broadcast use vstd::multiset::group_multiset_axioms;

        }
    }
    r
}

/// A pre-restriction never multiplies a record.
pub proof fn lemma_limit_counts(
    input: Seq<Mirror>,
    key: SortKey,
    n: usize,
    now: i64,
    out: Seq<Mirror>,
)
    requires
        limit_stage(input, key, n, now, out),
    ensures
        within_counts(out, input),
{
    broadcast use vstd::multiset::group_multiset_axioms;

    let w = choose|w: Seq<Mirror>|
        #![auto]
        w.to_multiset() == input.to_multiset() && sorted_run(
            w,
            key,
            Seq::<Seq<char>>::empty(),
            now,
        ) && out == (if n <= w.len() {
            w.take(n as int)
        } else {
            w
        });
    if n <= w.len() {
        lemma_take_counts(w, n as int);
    }
}

/// Validity survives every stage that only drops or reorders records.
pub proof fn lemma_counts_valid(a: Seq<Mirror>, b: Seq<Mirror>)
    requires
        within_counts(a, b),
        valid_catalog(b),
    ensures
        valid_catalog(a),
{
    broadcast use vstd::seq_lib::group_to_multiset_ensures;

    assert forall|i: int| 0 <= i < a.len() implies valid_mirror(#[trigger] a[i]) by {
        assert(a.contains(a[i]));
        assert(a.to_multiset().count(a[i]) > 0);
        assert(b.to_multiset().count(a[i]) > 0);
        assert(b.contains(a[i]));
        let j = choose|j: int| 0 <= j < b.len() && b[j] == a[i];
        assert(valid_mirror(b[j]));
    }
}

/// Runs the whole pipeline when no rating is requested: filters, the
/// latest-n and score-n pre-restrictions, the configured sort, and the
/// final cap, in that order; `staged` in the contract pins every enabled
/// stage. Fails exactly when a configured pattern is not a well-formed
/// regular expression.
pub fn select_unrated(
    status: MirrorStatus,
    cfg: &FilterConfig,
    sort: Option<SortKey>,
    now: i64,
) -> (r: Result<Vec<Mirror>, EngineError>)
    requires
        valid_config(*cfg),
        valid_now(now),
        crate::status::valid_status(status),
        cfg.fastest is None,
        sort != Some(SortKey::Rate),
    ensures
        (r is Ok) == patterns_ok(*cfg),
        r matches Err(e) ==> e == EngineError::Validation,
        r matches Ok(v) ==> staged(filtered(status.urls@, *cfg, now), *cfg, sort, now, v@),
        r matches Ok(v) ==> within_counts(v@, filtered(status.urls@, *cfg, now)),
        r matches Ok(v) ==> (cfg.number matches Some(nn) ==> v@.len() <= nn),
        r matches Ok(v) ==> ((cfg.latest is None && cfg.score is None && cfg.number is None
            && sort is None) ==> v@ == filtered(status.urls@, *cfg, now)),
{
    let ghost base = filtered(status.urls@, *cfg, now);
    let candidates = match apply_filters(status.urls, cfg, now) {
        Ok(c) => c,
        Err(e) => {
            return Err(e);
        },
    };
    proof {
        broadcast use vstd::multiset::group_multiset_axioms;

        crate::filters::lemma_filtered_counts(status.urls@, *cfg, now);
        lemma_counts_valid(candidates@, status.urls@);
    }
    let mut cur = candidates;
    match cfg.latest {
        Some(n) => {
            cur = take_latest(cur, n, now);
            proof {
                lemma_counts_valid(cur@, base);
            }
        },
        None => {},
    }
    let ghost g1 = cur@;
    proof {
        assert(latest_ok(base, *cfg, now, g1));
    }
    match cfg.score {
        Some(n) => {
            cur = take_score(cur, n, now);
            proof {
                lemma_limit_counts(g1, SortKey::Score, n, now, cur@);
                lemma_counts_valid(cur@, base);
            }
        },
        None => {},
    }
    let ghost g2 = cur@;
    proof {
        assert(score_ok(g1, *cfg, now, g2));
    }
    match sort {
        Some(k) => {
            if !matches!(k, SortKey::Rate) {
                cur = sort_mirrors(cur, k, &cfg.countries, now);
            }
        },
        None => {},
    }
    let ghost g3 = cur@;
    proof {
        broadcast use vstd::multiset::group_multiset_axioms;

        assert(sort_ok(g2, *cfg, sort, now, g3));
    }
    match cfg.number {
        Some(n) => {
            let ghost before = cur@;
            cur = truncate_number(cur, n);
            proof {
                if n <= before.len() {
                    lemma_take_counts(before, n as int);
                }
            }
        },
        None => {},
    }
    proof {
        broadcast use vstd::multiset::group_multiset_axioms;

        assert(cap_ok(g3, *cfg, cur@));
        assert(staged(base, *cfg, sort, now, cur@));
    }
    Ok(cur)
}

/// Records with equal rated multisets carry equal record multisets.
proof fn lemma_strip_multiset(a: Seq<RatedMirror>, b: Seq<RatedMirror>)
    requires
        a.to_multiset() == b.to_multiset(),
    ensures
        mirrors_of_rated(a).to_multiset() == mirrors_of_rated(b).to_multiset(),
    decreases a.len(),
{
    broadcast use vstd::seq_lib::group_to_multiset_ensures;
    broadcast use vstd::multiset::group_multiset_axioms;

    let pa = mirrors_of_rated(a);
    let pb = mirrors_of_rated(b);
    if a.len() == 0 {
        assert(b.to_multiset().len() == 0);
        assert(b.len() == 0);
        assert(pa =~= pb);
    } else {
        let x = a[0];
        assert(a.contains(x));
        assert(b.to_multiset().count(x) > 0);
        assert(b.contains(x));
        let j = choose|j: int| 0 <= j < b.len() && b[j] == x;
        assert(a.remove(0).to_multiset() =~= a.to_multiset().remove(x));
        assert(b.remove(j).to_multiset() =~= b.to_multiset().remove(x));
        lemma_strip_multiset(a.remove(0), b.remove(j));
        assert(mirrors_of_rated(a.remove(0)) =~= pa.remove(0));
        assert(mirrors_of_rated(b.remove(j)) =~= pb.remove(j));
        assert(pa.remove(0).to_multiset() =~= pa.to_multiset().remove(x.mirror));
        assert(pb.remove(j).to_multiset() =~= pb.to_multiset().remove(x.mirror));
        assert(pa[0] == x.mirror);
        assert(pa.contains(x.mirror));
        assert(pa.to_multiset().count(x.mirror) > 0);
        assert(pb[j] == x.mirror);
        assert(pb.contains(x.mirror));
        assert(pb.to_multiset().count(x.mirror) > 0);
        assert forall|e: Mirror| true implies pa.to_multiset().count(e) == pb.to_multiset().count(
            e,
        ) by {
            assert(pa.to_multiset().remove(x.mirror).count(e) == pb.to_multiset().remove(
                x.mirror,
            ).count(e));
        }
        assert(pa.to_multiset() =~= pb.to_multiset());
    }
}

/// The sort step of the rated path: the rate sort keeps the ranked order
/// that `rank_rated` already established; any other sort re-orders it.
pub open spec fn rated_sort_ok(
    ranked: Seq<Mirror>,
    cfg: FilterConfig,
    sort: Option<SortKey>,
    now: i64,
    s3: Seq<Mirror>,
) -> bool {
    match sort {
        Some(k) => if k == SortKey::Rate {
            s3 == ranked
        } else {
            sort_stage(ranked, k, cfg.countries.deep_view(), now, s3)
        },
        None => s3 == ranked,
    }
}

/// The whole post-probe pipeline: the rated candidates are ranked by
/// throughput (failed probes last), a configured non-rate sort re-orders
/// the records, and the number-n cap truncates; a disabled stage passes
/// its input through.
pub open spec fn staged_rated(
    rated: Seq<RatedMirror>,
    cfg: FilterConfig,
    sort: Option<SortKey>,
    now: i64,
    out: Seq<Mirror>,
) -> bool {
    exists|w: Seq<RatedMirror>, s3: Seq<Mirror>|
        #![trigger sorted_rated(w), rated_sort_ok(mirrors_of_rated(w), cfg, sort, now, s3)]
        w.to_multiset() == rated.to_multiset() && sorted_rated(w) && rated_sort_ok(
            mirrors_of_rated(w),
            cfg,
            sort,
            now,
            s3,
        ) && cap_ok(s3, cfg, out)
}

/// Finishes the pipeline after the probes: ranks the rated candidates by
/// throughput, applies a non-rate sort where one is configured, and caps
/// the result; `staged_rated` in the contract pins every stage.
pub fn select_rated(
    rated: Vec<RatedMirror>,
    cfg: &FilterConfig,
    sort: Option<SortKey>,
    now: i64,
) -> (r: Vec<Mirror>)
    requires
        valid_config(*cfg),
        valid_now(now),
        valid_catalog(mirrors_of_rated(rated@)),
    ensures
        staged_rated(rated@, *cfg, sort, now, r@),
        within_counts(r@, mirrors_of_rated(rated@)),
        cfg.number matches Some(nn) ==> r@.len() <= nn,
{
    let ghost orig_mirrors = mirrors_of_rated(rated@);
    let ghost grated = rated@;
    let ranked = rank_rated(rated);
    let ghost w = ranked@;
    let stripped = strip_rated(ranked);
    proof {
        broadcast use vstd::multiset::group_multiset_axioms;

        lemma_strip_multiset(w, grated);
        lemma_counts_valid(stripped@, orig_mirrors);
    }
    let mut cur = stripped;
    match sort {
        Some(k) => {
            if !matches!(k, SortKey::Rate) {
                cur = sort_mirrors(cur, k, &cfg.countries, now);
            }
        },
        None => {},
    }
    let ghost g3 = cur@;
    proof {
        broadcast use vstd::multiset::group_multiset_axioms;

        assert(rated_sort_ok(mirrors_of_rated(w), *cfg, sort, now, g3));
    }
    match cfg.number {
        Some(n) => {
            let ghost before = cur@;
            cur = truncate_number(cur, n);
            proof {
                if n <= before.len() {
                    lemma_take_counts(before, n as int);
                }
            }
        },
        None => {},
    }
    proof {
        broadcast use vstd::multiset::group_multiset_axioms;

        assert(cap_ok(g3, *cfg, cur@));
        assert(sorted_rated(w));
        assert(staged_rated(grated, *cfg, sort, now, cur@));
    }
    cur
}

} // verus!
