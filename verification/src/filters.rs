//! The filter pipeline: every enabled criterion is a pure predicate over a
//! mirror record, and a record survives only when it satisfies all of them.

use vstd::prelude::*;
use crate::config::{valid_config, valid_now, FilterConfig};
use crate::country::{country_ok, country_passes};
use crate::errors::EngineError;
use crate::status::{valid_catalog, valid_mirror, Mirror, Protocol};

verus! {

/// Whether `pattern` is a well-formed regular expression; decided by the
/// regex crate, by the pattern alone.
pub uninterp spec fn regex_ok(pattern: Seq<char>) -> bool;

/// Whether `pattern` matches somewhere in `text`; decided by the regex
/// crate, by the pattern and the text alone.
pub uninterp spec fn regex_match_of(pattern: Seq<char>, text: Seq<char>) -> bool;

/// Relies on regex::Regex::new and regex::Regex::is_match: compilation
/// succeeds or fails by the pattern alone, and whether a compiled pattern
/// matches a haystack is a function of the pattern and the haystack alone.
#[verifier::external_body]
fn regex_is_match(pattern: &str, text: &str) -> (r: Option<bool>)
    ensures
        (r is Some) == regex_ok(pattern@),
        r is Some ==> r->0 == regex_match_of(pattern@, text@),
{
    match regex::Regex::new(pattern) {
        Ok(re) => Some(re.is_match(text)),
        Err(_) => None,
    }
}

/// Both configured patterns, where given, are well-formed.
pub open spec fn patterns_ok(cfg: FilterConfig) -> bool {
    &&& (cfg.must_match matches Some(p) ==> regex_ok(p@))
    &&& (cfg.exclude matches Some(p) ==> regex_ok(p@))
}

/// Whether `pattern` matches the record's url or its details field.
pub open spec fn pattern_hits(pattern: Seq<char>, m: Mirror) -> bool {
    regex_match_of(pattern, m.url@) || regex_match_of(pattern, m.details@)
}

/// The whole pipeline's predicate: `m` survives exactly when every enabled
/// criterion accepts it.
pub open spec fn passes(cfg: FilterConfig, now: i64, m: Mirror) -> bool {
    &&& (cfg.age matches Some(a) ==> (m.last_sync matches Some(t) && now - t <= a))
    &&& (cfg.delay matches Some(dmax) ==> (m.delay matches Some(d) && d <= dmax))
    &&& country_ok(cfg.countries.deep_view(), m)
    &&& (cfg.must_match matches Some(p) ==> pattern_hits(p@, m))
    &&& (cfg.exclude matches Some(p) ==> !pattern_hits(p@, m))
    &&& (cfg.protocols matches Some(ps) ==> ps@.contains(m.protocol))
    &&& m.completion_pct >= cfg.completion_percent
    &&& (cfg.isos ==> m.isos)
    &&& (cfg.ipv4 ==> m.ipv4)
    &&& (cfg.ipv6 ==> m.ipv6)
}

/// The records of `s` that pass, in their original order.
pub open spec fn filtered(s: Seq<Mirror>, cfg: FilterConfig, now: i64) -> Seq<Mirror>
    decreases s.len(),
{
    if s.len() == 0 {
        Seq::empty()
    } else {
        (if passes(cfg, now, s[0]) {
            seq![s[0]]
        } else {
            Seq::empty()
        }) + filtered(s.drop_first(), cfg, now)
    }
}

/// Appending one record to the input appends it to the output or not,
/// according to the predicate.
pub proof fn lemma_filtered_push(s: Seq<Mirror>, cfg: FilterConfig, now: i64, x: Mirror)
    ensures
        filtered(s.push(x), cfg, now) == filtered(s, cfg, now) + (if passes(cfg, now, x) {
            seq![x]
        } else {
            Seq::<Mirror>::empty()
        }),
    decreases s.len(),
{
    let tail = if passes(cfg, now, x) {
        seq![x]
    } else {
        Seq::<Mirror>::empty()
    };
    if s.len() == 0 {
        assert(s.push(x).drop_first() =~= Seq::<Mirror>::empty());
        assert(s.push(x)[0] == x);
        assert(filtered(Seq::<Mirror>::empty(), cfg, now) == Seq::<Mirror>::empty());
        assert(filtered(s, cfg, now) == Seq::<Mirror>::empty());
        assert(filtered(s.push(x), cfg, now) == tail + filtered(Seq::<Mirror>::empty(), cfg, now));
        assert(filtered(s.push(x), cfg, now) =~= filtered(s, cfg, now) + tail);
    } else {
        lemma_filtered_push(s.drop_first(), cfg, now, x);
        assert(s.push(x).drop_first() =~= s.drop_first().push(x));
        assert(s.push(x)[0] == s[0]);
        let head = if passes(cfg, now, s[0]) {
            seq![s[0]]
        } else {
            Seq::<Mirror>::empty()
        };
        assert(filtered(s.push(x), cfg, now) == head + filtered(s.drop_first().push(x), cfg, now));
        assert(filtered(s.drop_first().push(x), cfg, now) == filtered(s.drop_first(), cfg, now)
            + tail);
        assert(filtered(s, cfg, now) == head + filtered(s.drop_first(), cfg, now));
        assert(filtered(s.push(x), cfg, now) =~= filtered(s, cfg, now) + tail);
    }
}

/// No filter adds mirrors: the output is drawn from the input, no longer
/// than it, and made exactly of the records that pass.
pub proof fn lemma_filtered_subset(s: Seq<Mirror>, cfg: FilterConfig, now: i64)
    ensures
        filtered(s, cfg, now).len() <= s.len(),
        forall|k: int| #![trigger filtered(s, cfg, now)[k]]
            0 <= k < filtered(s, cfg, now).len() ==> exists|i: int|
                0 <= i < s.len() && filtered(s, cfg, now)[k] == s[i],
        forall|k: int|
            0 <= k < filtered(s, cfg, now).len() ==> passes(
                cfg,
                now,
                #[trigger] filtered(s, cfg, now)[k],
            ),
        forall|x: Mirror| filtered(s, cfg, now).contains(x) ==> s.contains(x),
    decreases s.len(),
{
    let f = filtered(s, cfg, now);
    if s.len() > 0 {
        lemma_filtered_subset(s.drop_first(), cfg, now);
        let fd = filtered(s.drop_first(), cfg, now);
        assert forall|k: int| #![trigger f[k]]
            0 <= k < f.len() implies exists|i: int| 0 <= i < s.len() && f[k] == s[i] by {
            if passes(cfg, now, s[0]) {
                if k == 0 {
                    assert(f[0] == s[0]);
                } else {
                    assert(f[k] == fd[k - 1]);
                    let i = choose|i: int|
                        0 <= i < s.drop_first().len() && fd[k - 1] == s.drop_first()[i];
                    assert(f[k] == s[i + 1]);
                }
            } else {
                assert(f[k] == fd[k]);
                let i = choose|i: int|
                    0 <= i < s.drop_first().len() && fd[k] == s.drop_first()[i];
                assert(f[k] == s[i + 1]);
            }
        }
        assert forall|k: int|
            0 <= k < f.len() implies passes(cfg, now, #[trigger] f[k]) by {
            if passes(cfg, now, s[0]) {
                if k > 0 {
                    assert(f[k] == fd[k - 1]);
                }
            } else {
                assert(f[k] == fd[k]);
            }
        }
    }
    assert forall|x: Mirror| f.contains(x) implies s.contains(x) by {
        let k = choose|k: int| 0 <= k < f.len() && f[k] == x;
        let i = choose|i: int| 0 <= i < s.len() && f[k] == s[i];
        assert(s[i] == x);
    }
}

/// Whether `list` contains the protocol `p`.
fn contains_protocol(list: &Vec<Protocol>, p: Protocol) -> (r: bool)
    ensures
        r == list@.contains(p),
{
    let mut i: usize = 0;
    while i < list.len()
        invariant
            i <= list@.len(),
            forall|k: int| 0 <= k < i ==> list@[k] != p,
        decreases list@.len() - i,
    {
        if list[i] == p {
            return true;
        }
        i += 1;
    }
    false
}

/// Whether the pattern matches the record's url or details. The pattern
/// must already be known well-formed.
fn text_matches(pattern: &str, m: &Mirror) -> (r: bool)
    requires
        regex_ok(pattern@),
    ensures
        r == pattern_hits(pattern@, *m),
{
    let on_url = match regex_is_match(pattern, m.url.as_str()) {
        Some(b) => b,
        None => {
            proof {
                assert(false);
            }
            false
        },
    };
    if on_url {
        return true;
    }
    match regex_is_match(pattern, m.details.as_str()) {
        Some(b) => b,
        None => {
            proof {
                assert(false);
            }
            false
        },
    }
}

/// Whether one record survives every enabled criterion.
pub fn mirror_passes(cfg: &FilterConfig, now: i64, m: &Mirror) -> (r: bool)
    requires
        valid_config(*cfg),
        valid_now(now),
        valid_mirror(*m),
        patterns_ok(*cfg),
    ensures
        r == passes(*cfg, now, *m),
{
    let age_ok = match cfg.age {
        Some(a) => match m.last_sync {
            Some(t) => now - t <= a,
            None => false,
        },
        None => true,
    };
    let delay_ok = match cfg.delay {
        Some(dmax) => match m.delay {
            Some(d) => d <= dmax,
            None => false,
        },
        None => true,
    };
    let cty_ok = country_passes(&cfg.countries, m);
    let inc_ok = match &cfg.must_match {
        Some(p) => text_matches(p.as_str(), m),
        None => true,
    };
    let exc_ok = match &cfg.exclude {
        Some(p) => !text_matches(p.as_str(), m),
        None => true,
    };
    let proto_ok = match &cfg.protocols {
        Some(ps) => contains_protocol(ps, m.protocol),
        None => true,
    };
    let completion_ok = m.completion_pct >= cfg.completion_percent;
    let flags_ok = (!cfg.isos || m.isos) && (!cfg.ipv4 || m.ipv4) && (!cfg.ipv6 || m.ipv6);
    age_ok && delay_ok && cty_ok && inc_ok && exc_ok && proto_ok && completion_ok && flags_ok
}

/// Tests that a configured pattern compiles; decided by the pattern alone.
fn pattern_compiles(pattern: &str) -> (r: bool)
    ensures
        r == regex_ok(pattern@),
{
    regex_is_match(pattern, "").is_some()
}

/// Applies the whole pipeline: returns the surviving records in feed order,
/// or a validation error exactly when a configured pattern is not a
/// well-formed regular expression.
pub fn apply_filters(catalog: Vec<Mirror>, cfg: &FilterConfig, now: i64) -> (r: Result<
    Vec<Mirror>,
    EngineError,
>)
    requires
        valid_config(*cfg),
        valid_now(now),
        valid_catalog(catalog@),
    ensures
        (r is Ok) == patterns_ok(*cfg),
        r matches Ok(v) ==> v@ == filtered(catalog@, *cfg, now),
        r matches Err(e) ==> e == EngineError::Validation,
{
    match &cfg.must_match {
        Some(p) => {
            if !pattern_compiles(p.as_str()) {
                return Err(EngineError::Validation);
            }
        },
        None => {},
    }
    match &cfg.exclude {
        Some(p) => {
            if !pattern_compiles(p.as_str()) {
                return Err(EngineError::Validation);
            }
        },
        None => {},
    }
    let ghost all: Seq<Mirror> = catalog@;
    let ghost done: Seq<Mirror> = Seq::empty();
    let mut rest = catalog;
    let mut out: Vec<Mirror> = Vec::new();
    proof {
        assert(filtered(done, *cfg, now) =~= Seq::<Mirror>::empty());
        assert(out@ =~= filtered(done, *cfg, now));
    }
    while rest.len() > 0
        invariant
            all == done + rest@,
            out@ == filtered(done, *cfg, now),
            valid_config(*cfg),
            valid_now(now),
            valid_catalog(all),
            patterns_ok(*cfg),
        decreases rest@.len(),
    {
        let ghost prev_rest = rest@;
        let m = rest.remove(0);
        let ghost prev_done = done;
        proof {
            done = done.push(m);
            assert(prev_rest.drop_first() =~= rest@);
            assert(all =~= done + rest@);
            assert(all[prev_done.len() as int] == m);
            assert(valid_mirror(m));
        }
        if mirror_passes(cfg, now, &m) {
            out.push(m);
        }
        proof {
            lemma_filtered_push(prev_done, *cfg, now, m);
            assert(out@ =~= filtered(done, *cfg, now));
        }
    }
    proof {
        assert(all =~= done);
    }
    Ok(out)
}


/// In multiset terms: filtering never multiplies a record.
pub proof fn lemma_filtered_counts(s: Seq<Mirror>, cfg: FilterConfig, now: i64)
    ensures
        forall|x: Mirror| #[trigger]
            filtered(s, cfg, now).to_multiset().count(x) <= s.to_multiset().count(x),
    decreases s.len(),
{
    broadcast use vstd::seq_lib::group_to_multiset_ensures;
    broadcast use vstd::multiset::group_multiset_axioms;

    if s.len() > 0 {
        lemma_filtered_counts(s.drop_first(), cfg, now);
        let f = filtered(s, cfg, now);
        let fd = filtered(s.drop_first(), cfg, now);
        let head = if passes(cfg, now, s[0]) {
            seq![s[0]]
        } else {
            Seq::<Mirror>::empty()
        };
        assert(f == head + fd);
        vstd::seq_lib::lemma_multiset_commutative(head, fd);
        assert(s =~= seq![s[0]] + s.drop_first());
        vstd::seq_lib::lemma_multiset_commutative(seq![s[0]], s.drop_first());
        assert forall|x: Mirror| #[trigger]
            f.to_multiset().count(x) <= s.to_multiset().count(x) by {
            assert(f.to_multiset().count(x) == head.to_multiset().count(x)
                + fd.to_multiset().count(x));
            assert(s.to_multiset().count(x) == seq![s[0]].to_multiset().count(x)
                + s.drop_first().to_multiset().count(x));
            assert(head.to_multiset().count(x) <= seq![s[0]].to_multiset().count(x));
        }
    }
}

} // verus!
