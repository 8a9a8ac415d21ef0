//! Country selectors: matching a mirror against a selector list, the
//! preference rank used by the country sort, and the read-only listing of
//! countries with their mirror counts.

use vstd::prelude::*;
use vstd::pervasive::VecAdditionalExecFns;
use vstd::string::StrSliceExecFns;
use crate::status::Mirror;
use crate::strutil::{ci_eq, eq_ci};

verus! {

/// The wildcard selector: a lone `*`, standing for every country that no
/// other selector names.
pub open spec fn is_wild(s: Seq<char>) -> bool {
    s.len() == 1 && s[0] == '*'
}

/// Whether selector `sel` names the mirror's country, by display name or by
/// code, ASCII case ignored.
pub open spec fn sel_matches(sel: Seq<char>, m: Mirror) -> bool {
    ci_eq(sel, m.country@) || ci_eq(sel, m.country_code@)
}

/// Index of the first non-wildcard selector naming `m`'s country, or
/// `sels.len()` when none does.
pub open spec fn first_match(sels: Seq<Seq<char>>, m: Mirror) -> int
    decreases sels.len(),
{
    if sels.len() == 0 {
        0
    } else if !is_wild(sels[0]) && sel_matches(sels[0], m) {
        0
    } else {
        1 + first_match(sels.drop_first(), m)
    }
}

/// Index of the first wildcard selector, or `sels.len()` when there is none.
pub open spec fn first_wild(sels: Seq<Seq<char>>) -> int
    decreases sels.len(),
{
    if sels.len() == 0 {
        0
    } else if is_wild(sels[0]) {
        0
    } else {
        1 + first_wild(sels.drop_first())
    }
}

pub open spec fn has_wild(sels: Seq<Seq<char>>) -> bool {
    exists|k: int| 0 <= k < sels.len() && is_wild(#[trigger] sels[k])
}

/// Whether some non-wildcard selector names `m`'s country.
pub open spec fn matches_literal(sels: Seq<Seq<char>>, m: Mirror) -> bool {
    exists|k: int|
        0 <= k < sels.len() && !is_wild(#[trigger] sels[k]) && sel_matches(sels[k], m)
}

/// The country criterion excludes mirrors only when countries are named and
/// no wildcard is present; a wildcard matches everything not otherwise
/// named, so with one present every mirror survives.
pub open spec fn country_filter_active(sels: Seq<Seq<char>>) -> bool {
    sels.len() > 0 && !has_wild(sels)
}

/// Whether `m` survives the country criterion under selectors `sels`.
pub open spec fn country_ok(sels: Seq<Seq<char>>, m: Mirror) -> bool {
    country_filter_active(sels) ==> matches_literal(sels, m)
}

/// The sort rank of `m` under `sels`: the position of the first selector
/// naming its country; for countries not named, the position of the
/// wildcard; `sels.len()` when neither exists.
pub open spec fn country_rank(sels: Seq<Seq<char>>, m: Mirror) -> int {
    if first_match(sels, m) < sels.len() {
        first_match(sels, m)
    } else if first_wild(sels) < sels.len() {
        first_wild(sels)
    } else {
        sels.len() as int
    }
}

pub proof fn lemma_first_match(sels: Seq<Seq<char>>, m: Mirror)
    ensures
        0 <= first_match(sels, m) <= sels.len(),
        first_match(sels, m) < sels.len() ==> !is_wild(sels[first_match(sels, m)])
            && sel_matches(sels[first_match(sels, m)], m),
        forall|k: int|
            0 <= k < first_match(sels, m) ==> !(!is_wild(#[trigger] sels[k]) && sel_matches(
                sels[k],
                m,
            )),
        (first_match(sels, m) < sels.len()) == matches_literal(sels, m),
    decreases sels.len(),
{
    if sels.len() > 0 && !(!is_wild(sels[0]) && sel_matches(sels[0], m)) {
        lemma_first_match(sels.drop_first(), m);
        assert forall|k: int|
            0 <= k < first_match(sels, m) implies !(!is_wild(#[trigger] sels[k]) && sel_matches(
            sels[k],
            m,
        )) by {
            if k > 0 {
                assert(sels.drop_first()[k - 1] == sels[k]);
            }
        }
        if first_match(sels.drop_first(), m) < sels.drop_first().len() {
            assert(sels.drop_first()[first_match(sels.drop_first(), m)]
                == sels[first_match(sels, m)]);
        }
        if matches_literal(sels, m) {
            let k = choose|k: int|
                0 <= k < sels.len() && !is_wild(#[trigger] sels[k]) && sel_matches(sels[k], m);
            assert(k > 0);
            assert(sels.drop_first()[k - 1] == sels[k]);
            assert(matches_literal(sels.drop_first(), m));
        }
        if matches_literal(sels.drop_first(), m) {
            let k = choose|k: int|
                0 <= k < sels.drop_first().len() && !is_wild(#[trigger] sels.drop_first()[k])
                    && sel_matches(sels.drop_first()[k], m);
            assert(sels.drop_first()[k] == sels[k + 1]);
            assert(matches_literal(sels, m));
        }
    }
}

pub proof fn lemma_first_wild(sels: Seq<Seq<char>>)
    ensures
        0 <= first_wild(sels) <= sels.len(),
        first_wild(sels) < sels.len() ==> is_wild(sels[first_wild(sels)]),
        forall|k: int| 0 <= k < first_wild(sels) ==> !is_wild(#[trigger] sels[k]),
        (first_wild(sels) < sels.len()) == has_wild(sels),
    decreases sels.len(),
{
    if sels.len() > 0 && !is_wild(sels[0]) {
        lemma_first_wild(sels.drop_first());
        assert forall|k: int| 0 <= k < first_wild(sels) implies !is_wild(#[trigger] sels[k]) by {
            if k > 0 {
                assert(sels.drop_first()[k - 1] == sels[k]);
            }
        }
        if first_wild(sels.drop_first()) < sels.drop_first().len() {
            assert(sels.drop_first()[first_wild(sels.drop_first())] == sels[first_wild(sels)]);
        }
        if has_wild(sels) {
            let k = choose|k: int| 0 <= k < sels.len() && is_wild(#[trigger] sels[k]);
            assert(k > 0);
            assert(sels.drop_first()[k - 1] == sels[k]);
            assert(has_wild(sels.drop_first()));
        }
        if has_wild(sels.drop_first()) {
            let k = choose|k: int|
                0 <= k < sels.drop_first().len() && is_wild(#[trigger] sels.drop_first()[k]);
            assert(sels.drop_first()[k] == sels[k + 1]);
            assert(has_wild(sels));
        }
    }
}

/// Recursion reaches the first hit: a comma-free prefix pins `first_match`.
proof fn lemma_first_match_at(sels: Seq<Seq<char>>, m: Mirror, i: int)
    requires
        0 <= i <= sels.len(),
        forall|k: int|
            0 <= k < i ==> !(!is_wild(#[trigger] sels[k]) && sel_matches(sels[k], m)),
        i < sels.len() ==> !is_wild(sels[i]) && sel_matches(sels[i], m),
    ensures
        first_match(sels, m) == i,
    decreases i,
{
    if i > 0 {
        lemma_first_match_at(sels.drop_first(), m, i - 1);
    }
}

proof fn lemma_first_wild_at(sels: Seq<Seq<char>>, i: int)
    requires
        0 <= i <= sels.len(),
        forall|k: int| 0 <= k < i ==> !is_wild(#[trigger] sels[k]),
        i < sels.len() ==> is_wild(sels[i]),
    ensures
        first_wild(sels) == i,
    decreases i,
{
    if i > 0 {
        lemma_first_wild_at(sels.drop_first(), i - 1);
    }
}

/// Whether `s` is the wildcard selector.
pub fn is_wildcard(s: &str) -> (r: bool)
    ensures
        r == is_wild(s@),
{
    s.unicode_len() == 1 && s.get_char(0) == '*'
}

/// Whether selector `sel` names `m`'s country.
pub fn matches_selector(sel: &str, m: &Mirror) -> (r: bool)
    ensures
        r == sel_matches(sel@, *m),
{
    eq_ci(sel, m.country.as_str()) || eq_ci(sel, m.country_code.as_str())
}

/// The sort rank of `m` under the selector list, and on the side whether a
/// non-wildcard selector names it.
pub fn rank_of(sels: &Vec<String>, m: &Mirror) -> (r: usize)
    ensures
        r == country_rank(sels.deep_view(), *m),
        r <= sels@.len(),
{
    let ghost gsels = sels.deep_view();
    let n = sels.len();
    let mut wild: Option<usize> = None;
    let mut i: usize = 0;
    while i < n
        invariant
            i <= n,
            gsels == sels.deep_view(),
            n == gsels.len(),
            gsels.len() == sels@.len(),
            forall|k: int| 0 <= k < gsels.len() ==> gsels[k] == sels@[k]@,
            forall|k: int|
                0 <= k < i ==> !(!is_wild(#[trigger] gsels[k]) && sel_matches(gsels[k], *m)),
            match wild {
                Some(w) => w < i && is_wild(gsels[w as int]) && (forall|k: int|
                    0 <= k < w ==> !is_wild(#[trigger] gsels[k])),
                None => forall|k: int| 0 <= k < i ==> !is_wild(#[trigger] gsels[k]),
            },
        decreases n - i,
    {
        let wilds = is_wildcard(sels[i].as_str());
        if !wilds && matches_selector(sels[i].as_str(), m) {
            proof {
                assert(gsels[i as int] == sels@[i as int]@);
                assert(!is_wild(gsels[i as int]) && sel_matches(gsels[i as int], *m));
                lemma_first_match_at(gsels, *m, i as int);
                assert(first_match(gsels, *m) == i);
                assert(country_rank(gsels, *m) == i);
            }
            return i;
        }
        proof {
            assert(gsels[i as int] == sels@[i as int]@);
        }
        if wilds && wild.is_none() {
            wild = Some(i);
        }
        i += 1;
    }
    proof {
        lemma_first_match_at(gsels, *m, n as int);
    }
    match wild {
        Some(w) => {
            proof {
                lemma_first_wild_at(gsels, w as int);
            }
            w
        },
        None => {
            proof {
                lemma_first_wild_at(gsels, n as int);
            }
            n
        },
    }
}

/// Whether `m` survives the country criterion.
pub fn country_passes(sels: &Vec<String>, m: &Mirror) -> (r: bool)
    ensures
        r == country_ok(sels.deep_view(), *m),
{
    let ghost gsels = sels.deep_view();
    let n = sels.len();
    if n == 0 {
        return true;
    }
    let mut any_wild: bool = false;
    let mut any_match: bool = false;
    let mut i: usize = 0;
    while i < n
        invariant
            i <= n,
            gsels == sels.deep_view(),
            n == gsels.len(),
            gsels.len() == sels@.len(),
            forall|k: int| 0 <= k < gsels.len() ==> gsels[k] == sels@[k]@,
            any_wild == exists|k: int| 0 <= k < i && is_wild(#[trigger] gsels[k]),
            any_match == exists|k: int|
                0 <= k < i && !is_wild(#[trigger] gsels[k]) && sel_matches(gsels[k], *m),
        decreases n - i,
    {
        let wilds = is_wildcard(sels[i].as_str());
        proof {
            assert(gsels[i as int] == sels@[i as int]@);
        }
        if wilds {
            any_wild = true;
            proof {
                assert(is_wild(gsels[i as int]));
            }
        } else if matches_selector(sels[i].as_str(), m) {
            any_match = true;
            proof {
                assert(!is_wild(gsels[i as int]) && sel_matches(gsels[i as int], *m));
            }
        }
        i += 1;
        proof {
            assert forall|k: int| 0 <= k < i && is_wild(#[trigger] gsels[k]) implies any_wild by {}
            assert forall|k: int|
                0 <= k < i && !is_wild(#[trigger] gsels[k]) && sel_matches(gsels[k], *m)
                implies any_match by {}
        }
    }
    any_wild || any_match
}

/// One row of the country table: a country, its code, and how many mirrors
/// of the catalog lie there.
pub struct CountryCount {
    pub country: String,
    pub code: String,
    pub count: u64,
}

/// How many records of `s` carry exactly the country name `name`.
pub open spec fn count_name(s: Seq<Mirror>, name: Seq<char>) -> int
    decreases s.len(),
{
    if s.len() == 0 {
        0int
    } else {
        (if s[0].country@ == name {
            1int
        } else {
            0int
        }) + count_name(s.drop_first(), name)
    }
}

pub proof fn lemma_count_name_push(s: Seq<Mirror>, name: Seq<char>, x: Mirror)
    ensures
        count_name(s.push(x), name) == count_name(s, name) + (if x.country@ == name {
            1int
        } else {
            0int
        }),
        count_name(s, name) >= 0,
        count_name(s, name) <= s.len(),
    decreases s.len(),
{
    if s.len() == 0 {
        assert(s.push(x).drop_first() =~= Seq::<Mirror>::empty());
        assert(s.push(x)[0] == x);
        assert(count_name(Seq::<Mirror>::empty(), name) == 0);
        assert(count_name(s, name) == 0);
    } else {
        lemma_count_name_push(s.drop_first(), name, x);
        assert(s.push(x).drop_first() =~= s.drop_first().push(x));
        assert(s.push(x)[0] == s[0]);
        assert(count_name(s.push(x), name) == (if s[0].country@ == name {
            1int
        } else {
            0int
        }) + count_name(s.drop_first().push(x), name));
        assert(count_name(s, name) == (if s[0].country@ == name {
            1int
        } else {
            0int
        }) + count_name(s.drop_first(), name));
    }
}

/// Some record of `catalog` carries exactly this row's country name and code.
pub open spec fn row_has_source(catalog: Seq<Mirror>, row: CountryCount) -> bool {
    exists|b: int|
        0 <= b < catalog.len() && (#[trigger] catalog[b]).country@ == row.country@
            && catalog[b].country_code@ == row.code@
}

/// Some row of `rows` carries this country name.
pub open spec fn name_listed(rows: Seq<CountryCount>, name: Seq<char>) -> bool {
    exists|a: int| 0 <= a < rows.len() && (#[trigger] rows[a]).country@ == name
}

/// The distinct countries of the catalog with their codes and mirror
/// counts: every country of the catalog appears exactly once, with the code
/// of one of its mirrors and the exact number of records naming it.
pub fn count_countries(catalog: &Vec<Mirror>) -> (r: Vec<CountryCount>)
    ensures
        forall|i: int, j: int|
            0 <= i < j < r@.len() ==> r@[i].country@ != r@[j].country@,
        forall|i: int|
            0 <= i < r@.len() ==> r@[i].count == count_name(catalog@, #[trigger] r@[i].country@),
        forall|i: int| 0 <= i < r@.len() ==> row_has_source(catalog@, #[trigger] r@[i]),
        forall|j: int|
            0 <= j < catalog@.len() ==> name_listed(r@, (#[trigger] catalog@[j]).country@),
{
    let mut out: Vec<CountryCount> = Vec::new();
    let n = catalog.len();
    let mut j: usize = 0;
    while j < n
        invariant
            j <= n,
            n == catalog@.len(),
            forall|a: int, b: int|
                0 <= a < b < out@.len() ==> out@[a].country@ != out@[b].country@,
            forall|a: int|
                0 <= a < out@.len() ==> out@[a].count == count_name(
                    catalog@.take(j as int),
                    #[trigger] out@[a].country@,
                ),
            forall|a: int| 0 <= a < out@.len() ==> row_has_source(catalog@, #[trigger] out@[a]),
            forall|b: int|
                0 <= b < j ==> name_listed(out@, (#[trigger] catalog@[b]).country@),
            forall|a: int| 0 <= a < out@.len() ==> 0 <= (#[trigger] out@[a]).count <= j,
        decreases n - j,
    {
        let m = &catalog[j];
        let mut found: bool = false;
        let mut idx: usize = 0;
        let mut i: usize = 0;
        while i < out.len() && !found
            invariant
                i <= out@.len(),
                found ==> idx < out@.len() && out@[idx as int].country@ == m.country@,
                !found ==> forall|a: int|
                    0 <= a < i ==> (#[trigger] out@[a]).country@ != m.country@,
            decreases out@.len() - i + (if found { 0int } else { 1int }),
        {
            if out[i].country == m.country {
                found = true;
                idx = i;
            } else {
                i += 1;
            }
        }
        proof {
            assert(catalog@.take(j as int).push(catalog@[j as int])
                =~= catalog@.take(j + 1));
        }
        if found {
            let ghost before = out@;
            let prev = &out[idx];
            let row = CountryCount {
                country: prev.country.clone(),
                code: prev.code.clone(),
                count: prev.count + 1,
            };
            proof {
                assert(row.country@ == before[idx as int].country@);
                assert(row.code@ == before[idx as int].code@);
            }
            out.set(idx, row);
            proof {
                assert forall|a: int| 0 <= a < out@.len() implies (#[trigger] out@[a]).country@
                    == before[a].country@ && out@[a].code@ == before[a].code@ by {}
                assert(out@[idx as int].country@ == catalog@[j as int].country@);
                assert forall|a: int| 0 <= a < out@.len() implies out@[a].count == count_name(
                    catalog@.take(j + 1),
                    #[trigger] out@[a].country@,
                ) by {
                    lemma_count_name_push(catalog@.take(j as int), out@[a].country@, catalog@[j as int]);
                    if a != idx as int {
                        assert(out@[a].country@ != out@[idx as int].country@);
                        assert(out@[a].count == before[a].count);
                    }
                }
                assert forall|b: int| 0 <= b < j + 1 implies name_listed(
                    out@,
                    (#[trigger] catalog@[b]).country@,
                ) by {
                    if b < j {
                        let a = choose|a: int|
                            0 <= a < before.len() && (#[trigger] before[a]).country@
                                == catalog@[b].country@;
                        assert(out@[a].country@ == catalog@[b].country@);
                    } else {
                        assert(out@[idx as int].country@ == catalog@[b].country@);
                    }
                }
                assert forall|a: int| 0 <= a < out@.len() implies row_has_source(
                    catalog@,
                    #[trigger] out@[a],
                ) by {
                    assert(row_has_source(catalog@, before[a]));
                    let b = choose|b: int|
                        0 <= b < catalog@.len() && (#[trigger] catalog@[b]).country@
                            == before[a].country@ && catalog@[b].country_code@ == before[a].code@;
                    assert(catalog@[b].country@ == out@[a].country@
                        && catalog@[b].country_code@ == out@[a].code@);
                }
            }
        } else {
            let row = CountryCount {
                country: m.country.clone(),
                code: m.country_code.clone(),
                count: 1,
            };
            let ghost before = out@;
            out.push(row);
            proof {
                assert forall|k: int|
                    0 <= k < j implies (#[trigger] catalog@[k]).country@ != m.country@ by {
                    if catalog@[k].country@ == m.country@ {
                        assert(name_listed(before, catalog@[k].country@));
                        let a = choose|a: int|
                            0 <= a < before.len() && (#[trigger] before[a]).country@
                                == catalog@[k].country@;
                        assert(before[a].country@ == m.country@);
                    }
                }
                assert forall|k: int|
                    0 <= k < catalog@.take(j as int).len() implies (#[trigger] catalog@.take(
                    j as int,
                )[k]).country@ != m.country@ by {
                    assert(catalog@.take(j as int)[k] == catalog@[k]);
                }
                assert(out@[out@.len() - 1].country@ == catalog@[j as int].country@);
                assert(out@[out@.len() - 1].code@ == catalog@[j as int].country_code@);
                assert forall|a: int| 0 <= a < out@.len() implies out@[a].count == count_name(
                    catalog@.take(j + 1),
                    #[trigger] out@[a].country@,
                ) by {
                    lemma_count_name_push(catalog@.take(j as int), out@[a].country@, catalog@[j as int]);
                    if a == out@.len() - 1 {
                        lemma_count_name_zero(catalog@.take(j as int), out@[a].country@);
                    } else {
                        assert(out@[a] == before[a]);
                        assert(out@[a].country@ != m.country@);
                    }
                }
                assert forall|b: int| 0 <= b < j + 1 implies name_listed(
                    out@,
                    (#[trigger] catalog@[b]).country@,
                ) by {
                    if b < j {
                        let a = choose|a: int|
                            0 <= a < before.len() && (#[trigger] before[a]).country@
                                == catalog@[b].country@;
                        assert(out@[a].country@ == catalog@[b].country@);
                    } else {
                        assert(out@[out@.len() - 1].country@ == catalog@[b].country@);
                    }
                }
                assert forall|a: int| 0 <= a < out@.len() implies row_has_source(
                    catalog@,
                    #[trigger] out@[a],
                ) by {
                    if a < out@.len() - 1 {
                        assert(row_has_source(catalog@, before[a]));
                        let b = choose|b: int|
                            0 <= b < catalog@.len() && (#[trigger] catalog@[b]).country@
                                == before[a].country@ && catalog@[b].country_code@ == before[a].code@;
                        assert(catalog@[b].country@ == out@[a].country@
                            && catalog@[b].country_code@ == out@[a].code@);
                    } else {
                        assert(catalog@[j as int].country@ == out@[a].country@
                            && catalog@[j as int].country_code@ == out@[a].code@);
                    }
                }
            }
        }
        j += 1;
    }
    proof {
        assert(catalog@.take(n as int) =~= catalog@);
    }
    out
}

/// A name carried by no record of `s` is counted zero times.
proof fn lemma_count_name_zero(s: Seq<Mirror>, name: Seq<char>)
    requires
        forall|k: int| 0 <= k < s.len() ==> (#[trigger] s[k]).country@ != name,
    ensures
        count_name(s, name) == 0,
    decreases s.len(),
{
    if s.len() > 0 {
        assert(s[0].country@ != name);
        assert forall|k: int| 0 <= k < s.drop_first().len() implies (#[trigger] s.drop_first()[k]).country@
            != name by {
            assert(s.drop_first()[k] == s[k + 1]);
        }
        lemma_count_name_zero(s.drop_first(), name);
    }
}

} // verus!
