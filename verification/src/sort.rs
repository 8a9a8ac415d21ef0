//! The sort and limit stage: a verified insertion sort over keyed entries,
//! the key for each configured sort, and the pre-restriction limits.
//!
//! Every sort boils down to one ordering: an unsigned key, then a name
//! compared lexicographically (used only by the country sort). Absent
//! values (no last_sync, no score, no delay, a failed probe) take the
//! greatest key, so they always come last.

use vstd::prelude::*;
use vstd::seq_lib::lemma_multiset_commutative;
use crate::config::{valid_now, SortKey};
use crate::country::{country_rank, is_wild, rank_of};
use crate::status::{valid_catalog, valid_mirror, Mirror};
use crate::strutil::{lemma_lex_lt_trans, lemma_lex_trichotomy, lex_leq, lex_lt, str_lt};

verus! {

/// One record paired with its sort key.
pub struct Entry {
    pub key: u64,
    pub name: String,
    pub m: Mirror,
}

/// The total order on entries: by key, then by name, with full ties
/// ordered either way.
pub open spec fn entry_le(a: Entry, b: Entry) -> bool {
    ||| a.key < b.key
    ||| (a.key == b.key && lex_lt(a.name@, b.name@))
    ||| (a.key == b.key && a.name@ == b.name@)
}

pub proof fn lemma_entry_le_total(a: Entry, b: Entry)
    ensures
        entry_le(a, b) || entry_le(b, a),
{
    lemma_lex_trichotomy(a.name@, b.name@);
}

pub proof fn lemma_entry_le_trans(a: Entry, b: Entry, c: Entry)
    requires
        entry_le(a, b),
        entry_le(b, c),
    ensures
        entry_le(a, c),
{
    if a.key == b.key && b.key == c.key {
        if lex_lt(a.name@, b.name@) && lex_lt(b.name@, c.name@) {
            lemma_lex_lt_trans(a.name@, b.name@, c.name@);
        }
    }
}

fn le_entries(a: &Entry, b: &Entry) -> (r: bool)
    ensures
        r == entry_le(*a, *b),
{
    if a.key < b.key {
        true
    } else if b.key < a.key {
        false
    } else if a.name == b.name {
        true
    } else {
        str_lt(a.name.as_str(), b.name.as_str())
    }
}

/// Inserting an element anywhere inserts it into the multiset.
pub proof fn lemma_to_multiset_insert<A>(s: Seq<A>, p: int, x: A)
    requires
        0 <= p <= s.len(),
    ensures
        s.insert(p, x).to_multiset() == s.to_multiset().insert(x),
{
    broadcast use vstd::seq_lib::group_to_multiset_ensures;
    broadcast use vstd::multiset::group_multiset_axioms;

    let a = s.subrange(0, p);
    let b = s.subrange(p, s.len() as int);
    assert(s =~= a + b);
    lemma_multiset_commutative(a.push(x), b);
    lemma_multiset_commutative(a, b);
    assert(a.push(x).to_multiset() =~= a.to_multiset().insert(x));
    assert(s.insert(p, x) == a.push(x) + b);
    assert(s.insert(p, x).to_multiset() =~= s.to_multiset().insert(x));
}

/// Sorts the entries by `entry_le`: the result is a permutation of the
/// input and runs in non-decreasing order.
pub fn sort_entries(arr0: Vec<Entry>) -> (r: Vec<Entry>)
    ensures
        r@.len() == arr0@.len(),
        r@.to_multiset() == arr0@.to_multiset(),
        forall|x: int, y: int| 0 <= x < y < r@.len() ==> entry_le(r@[x], r@[y]),
{
    let mut arr = arr0;
    let ghost orig = arr@;
    if arr.len() <= 1 {
        return arr;
    }
    let mut i: usize = 1;
    while i < arr.len()
        invariant
            1 <= i <= arr@.len(),
            arr@.len() == orig.len(),
            arr@.to_multiset() == orig.to_multiset(),
            forall|x: int, y: int| 0 <= x < y < i ==> entry_le(arr@[x], arr@[y]),
        decreases arr@.len() - i,
    {
        let mut p: usize = 0;
        while p < i && le_entries(&arr[p], &arr[i])
            invariant
                p <= i < arr@.len(),
                forall|k: int| 0 <= k < p ==> entry_le(arr@[k], arr@[i as int]),
            decreases i - p,
        {
            p += 1;
        }
        if p < i {
            let ghost prev = arr@;
            let x = arr.remove(i);
            proof {
                broadcast use vstd::seq_lib::group_to_multiset_ensures;
            }
            arr.insert(p, x);
            proof {
                let mid = prev.remove(i as int);
                lemma_to_multiset_insert(mid, p as int, x);
                assert(arr@.to_multiset() =~= orig.to_multiset());
                mid.insert_ensures(p as int, x);
                lemma_entry_le_total(prev[p as int], x);
                assert(entry_le(x, prev[p as int]));
                // the new prefix 0..=i is sorted
                assert forall|a: int, b: int|
                    0 <= a < b < i + 1 implies entry_le(arr@[a], arr@[b]) by {
                    let pi = p as int;
                    let av = if a < pi {
                        prev[a]
                    } else if a == pi {
                        x
                    } else {
                        prev[a - 1]
                    };
                    let bv = if b < pi {
                        prev[b]
                    } else if b == pi {
                        x
                    } else {
                        prev[b - 1]
                    };
                    assert(arr@[a] == av);
                    assert(arr@[b] == bv);
                    if a < pi && b < pi {
                    } else if a < pi && b == pi {
                    } else if a < pi && b > pi {
                        if a < b - 1 {
                        } else {
                            assert(a == pi - 1 && b == pi + 1);
                        }
                    } else if a == pi {
                        assert(bv == prev[b - 1]);
                        if b - 1 > pi {
                            assert(entry_le(prev[pi], prev[b - 1]));
                            lemma_entry_le_trans(x, prev[pi], prev[b - 1]);
                        }
                    } else {
                    }
                }
            }
        }
        i += 1;
    }
    arr
}

/// The elapsed-time key of the age sort: seconds since the last
/// synchronization, zero for one in the future, greatest when unknown.
pub open spec fn age_key_of(now: i64, m: Mirror) -> u64 {
    match m.last_sync {
        Some(t) => if t >= now {
            0u64
        } else {
            (now - t) as u64
        },
        None => u64::MAX,
    }
}

/// The key of the score sort: the feed score itself, lower first,
/// greatest when absent.
pub open spec fn score_key_of(m: Mirror) -> u64 {
    match m.score {
        Some(s) => s as u64,
        None => u64::MAX,
    }
}

/// The key of the delay sort: the reported delay, lower first, greatest
/// when absent.
pub open spec fn delay_key_of(m: Mirror) -> u64 {
    match m.delay {
        Some(d) => d as u64,
        None => u64::MAX,
    }
}

/// The key of the rate sort: throughput reversed, so the fastest mirror
/// takes the least key; a failed probe takes the greatest key, strictly
/// above every measured one.
pub open spec fn rate_key_of(rate: Option<u64>) -> u64 {
    match rate {
        Some(r) => if r >= u64::MAX - 1 {
            0u64
        } else {
            (u64::MAX - 1 - r) as u64
        },
        None => u64::MAX,
    }
}

/// The key of each configured sort. The rate sort carries its key in a
/// rated pair instead and is keyed as zero here.
pub open spec fn sort_key_of(key: SortKey, sels: Seq<Seq<char>>, now: i64, m: Mirror) -> u64 {
    match key {
        SortKey::Age => age_key_of(now, m),
        SortKey::Rate => 0u64,
        SortKey::Country => country_rank(sels, m) as u64,
        SortKey::Score => score_key_of(m),
        SortKey::Delay => delay_key_of(m),
    }
}

/// The secondary name: the country's display name under the country sort,
/// empty elsewhere.
pub open spec fn sort_name_of(key: SortKey, m: Mirror) -> Seq<char> {
    if key == SortKey::Country {
        m.country@
    } else {
        Seq::empty()
    }
}

/// The record order a finished sort guarantees: by key, then name.
pub open spec fn mirror_le(key: SortKey, sels: Seq<Seq<char>>, now: i64, a: Mirror, b: Mirror) -> bool {
    ||| sort_key_of(key, sels, now, a) < sort_key_of(key, sels, now, b)
    ||| (sort_key_of(key, sels, now, a) == sort_key_of(key, sels, now, b) && lex_leq(
        sort_name_of(key, a),
        sort_name_of(key, b),
    ))
}

/// The whole sequence runs in the configured order.
pub open spec fn sorted_run(s: Seq<Mirror>, key: SortKey, sels: Seq<Seq<char>>, now: i64) -> bool {
    forall|i: int, j: int|
        0 <= i < j < s.len() ==> mirror_le(key, sels, now, #[trigger] s[i], #[trigger] s[j])
}

/// A selector list of wildcards only: an order hint that distinguishes
/// nothing, so the country sort leaves the feed order untouched.
pub open spec fn wildcard_only(sels: Seq<Seq<char>>) -> bool {
    sels.len() > 0 && forall|k: int| 0 <= k < sels.len() ==> is_wild(#[trigger] sels[k])
}

fn wildcard_only_exec(sels: &Vec<String>) -> (r: bool)
    ensures
        r == wildcard_only(sels.deep_view()),
{
    let ghost gsels = sels.deep_view();
    if sels.len() == 0 {
        return false;
    }
    let mut i: usize = 0;
    while i < sels.len()
        invariant
            gsels == sels.deep_view(),
            gsels.len() == sels@.len(),
            forall|k: int| 0 <= k < gsels.len() ==> gsels[k] == sels@[k]@,
            i <= gsels.len(),
            forall|k: int| 0 <= k < i ==> is_wild(#[trigger] gsels[k]),
        decreases gsels.len() - i,
    {
        if !crate::country::is_wildcard(sels[i].as_str()) {
            proof {
                assert(gsels[i as int] == sels@[i as int]@);
                assert(!is_wild(gsels[i as int]));
            }
            return false;
        }
        i += 1;
    }
    true
}

/// The record sequence the entries carry.
pub open spec fn mirrors_of(s: Seq<Entry>) -> Seq<Mirror> {
    s.map_values(|e: Entry| e.m)
}

/// Entry sequences with equal multisets carry equal record multisets.
proof fn lemma_mirrors_multiset(a: Seq<Entry>, b: Seq<Entry>)
    requires
        a.to_multiset() == b.to_multiset(),
    ensures
        mirrors_of(a).to_multiset() == mirrors_of(b).to_multiset(),
    decreases a.len(),
{
    broadcast use vstd::seq_lib::group_to_multiset_ensures;
    broadcast use vstd::multiset::group_multiset_axioms;

    if a.len() == 0 {
        assert(b.to_multiset().len() == 0);
        assert(b.len() == 0);
        assert(mirrors_of(a) =~= mirrors_of(b));
    } else {
        let x = a[0];
        assert(a.contains(x));
        assert(b.to_multiset().count(x) > 0);
        assert(b.contains(x));
        let j = choose|j: int| 0 <= j < b.len() && b[j] == x;
        assert(a.remove(0).to_multiset() =~= a.to_multiset().remove(x));
        assert(b.remove(j).to_multiset() =~= b.to_multiset().remove(x));
        lemma_mirrors_multiset(a.remove(0), b.remove(j));
        assert(mirrors_of(a.remove(0)) =~= mirrors_of(a).remove(0));
        assert(mirrors_of(b.remove(j)) =~= mirrors_of(b).remove(j));
        assert(mirrors_of(a).remove(0).to_multiset() =~= mirrors_of(a).to_multiset().remove(
            x.m,
        ));
        assert(mirrors_of(b).remove(j).to_multiset() =~= mirrors_of(b).to_multiset().remove(
            x.m,
        ));
        let ma = mirrors_of(a).to_multiset();
        let mb = mirrors_of(b).to_multiset();
        assert(mirrors_of(a)[0] == x.m);
        assert(mirrors_of(a).contains(x.m));
        assert(ma.count(x.m) > 0);
        assert(mirrors_of(b)[j] == x.m);
        assert(mirrors_of(b).contains(x.m));
        assert(mb.count(x.m) > 0);
        assert(ma.remove(x.m) == mb.remove(x.m));
        assert forall|e: Mirror| true implies ma.count(e) == mb.count(e) by {
            assert(ma.remove(x.m).count(e) == mb.remove(x.m).count(e));
            if e == x.m {
                assert(ma.remove(x.m).count(e) == ma.count(e) - 1);
                assert(mb.remove(x.m).count(e) == mb.count(e) - 1);
            } else {
                assert(ma.remove(x.m).count(e) == ma.count(e));
                assert(mb.remove(x.m).count(e) == mb.count(e));
            }
        }
        assert(ma =~= mb);
    }
}

/// Sorts the records by the configured key. A wildcard-only country sort
/// is an order hint that names no country, so it returns the feed order
/// unchanged; every other sort yields a permutation in the key's order.
pub fn sort_mirrors(v: Vec<Mirror>, key: SortKey, sels: &Vec<String>, now: i64) -> (r: Vec<
    Mirror,
>)
    requires
        key != SortKey::Rate,
        valid_catalog(v@),
        valid_now(now),
    ensures
        r@.len() == v@.len(),
        r@.to_multiset() == v@.to_multiset(),
        (key == SortKey::Country && wildcard_only(sels.deep_view())) ==> r@ == v@,
        !(key == SortKey::Country && wildcard_only(sels.deep_view())) ==> sorted_run(
            r@,
            key,
            sels.deep_view(),
            now,
        ),
{
    let ghost gsels = sels.deep_view();
    if key == SortKey::Country && wildcard_only_exec(sels) {
        proof {
            broadcast use vstd::seq_lib::group_to_multiset_ensures;
        }
        return v;
    }
    let ghost orig = v@;
    let mut rest = v;
    let mut entries: Vec<Entry> = Vec::new();
    proof {
        assert(mirrors_of(entries@) =~= orig.take(0));
    }
    while rest.len() > 0
        invariant
            gsels == sels.deep_view(),
            valid_now(now),
            valid_catalog(orig),
            entries@.len() + rest@.len() == orig.len(),
            rest@ == orig.skip(entries@.len() as int),
            mirrors_of(entries@) == orig.take(entries@.len() as int),
            forall|k: int|
                0 <= k < entries@.len() ==> (#[trigger] entries@[k]).key == sort_key_of(
                    key,
                    gsels,
                    now,
                    entries@[k].m,
                ) && entries@[k].name@ == sort_name_of(key, entries@[k].m),
        decreases rest@.len(),
    {
        let ghost prev_rest = rest@;
        let ghost prev_entries = entries@;
        let m = rest.remove(0);
        proof {
            assert(prev_rest[0] == orig[prev_entries.len() as int]);
            assert(valid_mirror(m));
        }
        let kv: u64 = match key {
            SortKey::Age => match m.last_sync {
                Some(t) => if t >= now {
                    0
                } else {
                    (now - t) as u64
                },
                None => u64::MAX,
            },
            SortKey::Rate => 0,
            SortKey::Country => rank_of(sels, &m) as u64,
            SortKey::Score => match m.score {
                Some(s) => s as u64,
                None => u64::MAX,
            },
            SortKey::Delay => match m.delay {
                Some(d) => d as u64,
                None => u64::MAX,
            },
        };
        let name: String = if key == SortKey::Country {
            m.country.clone()
        } else {
            String::new()
        };
        let e = Entry { key: kv, name, m };
        entries.push(e);
        proof {
            assert(prev_rest.drop_first() =~= rest@);
            assert(rest@ =~= orig.skip(entries@.len() as int));
            assert(mirrors_of(entries@) =~= orig.take(entries@.len() as int));
        }
    }
    proof {
        assert(mirrors_of(entries@) =~= orig);
    }
    let ghost efinal = entries@;
    let sorted = sort_entries(entries);
    proof {
        lemma_mirrors_multiset(sorted@, efinal);
        // each sorted entry is keyed right, being one of the input entries
        broadcast use vstd::seq_lib::group_to_multiset_ensures;

        assert forall|k: int|
            0 <= k < sorted@.len() implies (#[trigger] sorted@[k]).key == sort_key_of(
            key,
            gsels,
            now,
            sorted@[k].m,
        ) && sorted@[k].name@ == sort_name_of(key, sorted@[k].m) by {
            assert(sorted@.contains(sorted@[k]));
            assert(sorted@.to_multiset().count(sorted@[k]) > 0);
            assert(efinal.contains(sorted@[k]));
            let j = choose|j: int| 0 <= j < efinal.len() && efinal[j] == sorted@[k];
            assert(efinal[j].key == sort_key_of(key, gsels, now, efinal[j].m));
        }
    }
    let ghost gsorted = sorted@;
    let mut rest2 = sorted;
    let mut out: Vec<Mirror> = Vec::new();
    proof {
        assert(out@ + mirrors_of(rest2@) =~= mirrors_of(gsorted));
    }
    while rest2.len() > 0
        invariant
            out@.len() + rest2@.len() == gsorted.len(),
            out@ + mirrors_of(rest2@) == mirrors_of(gsorted),
            rest2@ == gsorted.skip(out@.len() as int),
        decreases rest2@.len(),
    {
        let ghost prev_rest2 = rest2@;
        let e = rest2.remove(0);
        out.push(e.m);
        proof {
            assert(prev_rest2.drop_first() =~= rest2@);
            assert(prev_rest2[0] == gsorted[out@.len() - 1]);
            assert(rest2@ =~= gsorted.skip(out@.len() as int));
            assert(out@ + mirrors_of(rest2@) =~= mirrors_of(gsorted));
        }
    }
    proof {
        assert(out@ =~= mirrors_of(gsorted));
        assert(out@.to_multiset() == orig.to_multiset());
        assert forall|i: int, j: int|
            0 <= i < j < out@.len() implies mirror_le(
            key,
            gsels,
            now,
            #[trigger] out@[i],
            #[trigger] out@[j],
        ) by {
            assert(entry_le(gsorted[i], gsorted[j]));
            assert(out@[i] == gsorted[i].m);
            assert(out@[j] == gsorted[j].m);
        }
    }
    out
}

/// Under the country sort, earlier records never rank later in the
/// selector order, and within one rank the country names run
/// alphabetically: the selector groups come out contiguous and ordered.
pub proof fn lemma_country_groups(s: Seq<Mirror>, sels: Seq<Seq<char>>, now: i64)
    requires
        sorted_run(s, SortKey::Country, sels, now),
        sels.len() <= u64::MAX,
    ensures
        forall|i: int, j: int|
            0 <= i < j < s.len() ==> country_rank(sels, #[trigger] s[i]) <= country_rank(
                sels,
                #[trigger] s[j],
            ),
        forall|i: int, j: int|
            0 <= i < j < s.len() && country_rank(sels, #[trigger] s[i]) == country_rank(
                sels,
                #[trigger] s[j],
            ) ==> lex_leq(s[i].country@, s[j].country@),
{
    assert forall|i: int, j: int|
        0 <= i < j < s.len() implies country_rank(sels, #[trigger] s[i]) <= country_rank(
        sels,
        #[trigger] s[j],
    ) by {
        crate::country::lemma_first_match(sels, s[i]);
        crate::country::lemma_first_match(sels, s[j]);
        crate::country::lemma_first_wild(sels);
        assert(0 <= country_rank(sels, s[i]) <= sels.len());
        assert(0 <= country_rank(sels, s[j]) <= sels.len());
        assert(mirror_le(SortKey::Country, sels, now, s[i], s[j]));
    }
    assert forall|i: int, j: int|
        0 <= i < j < s.len() && country_rank(sels, #[trigger] s[i]) == country_rank(
        sels,
        #[trigger] s[j],
    ) implies lex_leq(s[i].country@, s[j].country@) by {
        crate::country::lemma_first_match(sels, s[i]);
        crate::country::lemma_first_match(sels, s[j]);
        crate::country::lemma_first_wild(sels);
        assert(0 <= country_rank(sels, s[i]) <= sels.len());
        assert(0 <= country_rank(sels, s[j]) <= sels.len());
        assert(mirror_le(SortKey::Country, sels, now, s[i], s[j]));
    }
}

/// Caps the list at `n` records, keeping the front.
pub fn truncate_number(v: Vec<Mirror>, n: usize) -> (r: Vec<Mirror>)
    ensures
        r@ == if n <= v@.len() {
            v@.take(n as int)
        } else {
            v@
        },
{
    let mut out = v;
    if n < out.len() {
        out.truncate(n);
    }
    proof {
        if n >= out@.len() {
        }
    }
    out
}

} // verus!
