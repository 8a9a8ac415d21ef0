use reflector_rs::config::{FilterConfig, SortKey};
use reflector_rs::country::count_countries;
use reflector_rs::errors::EngineError;
use reflector_rs::rate::{probe_selection, rank_rated, strip_rated, throughput, RatedMirror};
use reflector_rs::select::{needs_rating, select_rated, select_unrated, take_latest, take_score};
use reflector_rs::sort::{sort_mirrors, truncate_number};
use reflector_rs::status::{Mirror, MirrorStatus, Protocol};
use reflector_rs::strutil::split_list_args;
use reflector_rs::timeparse::parse_timestamp;

fn mk(url: &str, protocol: Protocol, country: &str, code: &str) -> Mirror {
    Mirror {
        url: url.to_string(),
        protocol,
        last_sync: Some(1_000_000),
        completion_pct: 10000,
        delay: Some(60),
        duration_avg: Some(500),
        duration_stddev: Some(100),
        score: Some(150),
        active: true,
        country: country.to_string(),
        country_code: code.to_string(),
        isos: true,
        ipv4: true,
        ipv6: true,
        details: String::new(),
    }
}

fn status_of(urls: Vec<Mirror>) -> MirrorStatus {
    MirrorStatus {
        cutoff: 86400,
        last_check: "2024-01-01T00:00:00Z".to_string(),
        num_checks: 10,
        check_frequency: 3600,
        version: 3,
        urls,
    }
}

const NOW: i64 = 1_003_600;

#[test]
fn filters_never_add_mirrors() {
    let a = mk("https://a.example/", Protocol::Https, "Sweden", "SE");
    let b = mk("http://b.example/", Protocol::Http, "Denmark", "DK");
    let c = mk("rsync://c.example/", Protocol::Rsync, "Germany", "DE");
    let input = vec![a.clone(), b.clone(), c.clone()];
    let mut cfg = FilterConfig::unfiltered();
    cfg.protocols = Some(vec![Protocol::Https, Protocol::Http]);
    cfg.ipv6 = true;
    let out = select_unrated(status_of(input.clone()), &cfg, None, NOW).unwrap();
    for m in &out {
        assert!(input.contains(m));
    }
    assert!(out.len() <= input.len());
}

#[test]
fn completion_threshold_keeps_only_full_mirrors() {
    let mut low = mk("https://low.example/", Protocol::Https, "Sweden", "SE");
    low.completion_pct = 9990; // 99.90%
    let full = mk("https://full.example/", Protocol::Https, "Sweden", "SE");
    let mut cfg = FilterConfig::unfiltered();
    cfg.completion_percent = 10000; // 100.00%
    let out = select_unrated(status_of(vec![low, full.clone()]), &cfg, None, NOW).unwrap();
    assert_eq!(out, vec![full]);
}

#[test]
fn age_filter_excludes_stale_mirrors() {
    let mut old = mk("https://old.example/", Protocol::Https, "Sweden", "SE");
    old.last_sync = Some(NOW - 7200); // two hours old
    let mut fresh = mk("https://fresh.example/", Protocol::Https, "Sweden", "SE");
    fresh.last_sync = Some(NOW - 1800); // half an hour old
    let mut unknown = mk("https://unknown.example/", Protocol::Https, "Sweden", "SE");
    unknown.last_sync = None;
    let mut cfg = FilterConfig::unfiltered();
    cfg.age = Some(3600); // one hour
    let out =
        select_unrated(status_of(vec![old, fresh.clone(), unknown]), &cfg, None, NOW).unwrap();
    assert_eq!(out, vec![fresh]);
}

#[test]
fn delay_filter_requires_known_small_delay() {
    let mut quick = mk("https://quick.example/", Protocol::Https, "Sweden", "SE");
    quick.delay = Some(900);
    let mut slow = mk("https://slow.example/", Protocol::Https, "Sweden", "SE");
    slow.delay = Some(7200);
    let mut unknown = mk("https://unknown.example/", Protocol::Https, "Sweden", "SE");
    unknown.delay = None;
    let mut cfg = FilterConfig::unfiltered();
    cfg.delay = Some(900);
    let out =
        select_unrated(status_of(vec![quick.clone(), slow, unknown]), &cfg, None, NOW).unwrap();
    assert_eq!(out, vec![quick]);
}

#[test]
fn country_filter_matches_name_or_code_case_insensitively() {
    let se = mk("https://se.example/", Protocol::Https, "Sweden", "SE");
    let dk = mk("https://dk.example/", Protocol::Https, "Denmark", "DK");
    let de = mk("https://de.example/", Protocol::Https, "Germany", "DE");
    let mut cfg = FilterConfig::unfiltered();
    cfg.countries = vec!["sweden".to_string(), "dk".to_string()];
    let out = select_unrated(
        status_of(vec![se.clone(), dk.clone(), de]),
        &cfg,
        None,
        NOW,
    )
    .unwrap();
    assert_eq!(out, vec![se, dk]);
}

#[test]
fn wildcard_selector_filters_nothing() {
    let se = mk("https://se.example/", Protocol::Https, "Sweden", "SE");
    let dk = mk("https://dk.example/", Protocol::Https, "Denmark", "DK");
    let mut cfg = FilterConfig::unfiltered();
    cfg.countries = vec!["se".to_string(), "*".to_string()];
    let out = select_unrated(status_of(vec![se.clone(), dk.clone()]), &cfg, None, NOW).unwrap();
    assert_eq!(out, vec![se, dk]);
}

#[test]
fn regex_include_and_exclude() {
    let https = mk("https://a.example/", Protocol::Https, "Sweden", "SE");
    let http = mk("http://b.example/", Protocol::Http, "Sweden", "SE");
    let mut cfg = FilterConfig::unfiltered();
    cfg.must_match = Some("^https://".to_string());
    let out = select_unrated(
        status_of(vec![https.clone(), http.clone()]),
        &cfg,
        None,
        NOW,
    )
    .unwrap();
    assert_eq!(out, vec![https.clone()]);

    let mut cfg2 = FilterConfig::unfiltered();
    cfg2.exclude = Some("b\\.example".to_string());
    let out2 = select_unrated(status_of(vec![https.clone(), http]), &cfg2, None, NOW).unwrap();
    assert_eq!(out2, vec![https]);
}

#[test]
fn invalid_regex_is_a_validation_error() {
    let m = mk("https://a.example/", Protocol::Https, "Sweden", "SE");
    let mut cfg = FilterConfig::unfiltered();
    cfg.must_match = Some("(".to_string());
    let out = select_unrated(status_of(vec![m]), &cfg, None, NOW);
    assert_eq!(out.unwrap_err(), EngineError::Validation);
}

#[test]
fn country_sort_follows_selector_order_with_wildcard() {
    let se1 = mk("https://se1.example/", Protocol::Https, "Sweden", "SE");
    let se2 = mk("https://se2.example/", Protocol::Https, "Sweden", "SE");
    let us = mk("https://us.example/", Protocol::Https, "United States", "US");
    let de = mk("https://de.example/", Protocol::Https, "Germany", "DE");
    let dk = mk("https://dk.example/", Protocol::Https, "Denmark", "DK");
    let sels = vec!["se".to_string(), "*".to_string(), "dk".to_string()];
    let input = vec![dk.clone(), us.clone(), se1.clone(), de.clone(), se2.clone()];
    let out = sort_mirrors(input, SortKey::Country, &sels, NOW);
    // Swedish first, then the wildcard group alphabetically by country,
    // Danish last.
    assert_eq!(out.len(), 5);
    assert_eq!(out[0].country, "Sweden");
    assert_eq!(out[1].country, "Sweden");
    assert_eq!(out[2].country, "Germany");
    assert_eq!(out[3].country, "United States");
    assert_eq!(out[4].country, "Denmark");
}

#[test]
fn wildcard_only_country_sort_keeps_feed_order() {
    let us = mk("https://us.example/", Protocol::Https, "United States", "US");
    let de = mk("https://de.example/", Protocol::Https, "Germany", "DE");
    let dk = mk("https://dk.example/", Protocol::Https, "Denmark", "DK");
    let sels = vec!["*".to_string()];
    let input = vec![us.clone(), de.clone(), dk.clone()];
    let out = sort_mirrors(input.clone(), SortKey::Country, &sels, NOW);
    assert_eq!(out, input);
}

#[test]
fn country_sort_without_selectors_is_alphabetical() {
    let us = mk("https://us.example/", Protocol::Https, "United States", "US");
    let de = mk("https://de.example/", Protocol::Https, "Germany", "DE");
    let dk = mk("https://dk.example/", Protocol::Https, "Denmark", "DK");
    let sels: Vec<String> = Vec::new();
    let out = sort_mirrors(vec![us, de, dk], SortKey::Country, &sels, NOW);
    assert_eq!(out[0].country, "Denmark");
    assert_eq!(out[1].country, "Germany");
    assert_eq!(out[2].country, "United States");
}

#[test]
fn age_sort_puts_most_recent_first_and_unknown_last() {
    let mut oldm = mk("https://old.example/", Protocol::Https, "Sweden", "SE");
    oldm.last_sync = Some(NOW - 7200);
    let mut fresh = mk("https://fresh.example/", Protocol::Https, "Sweden", "SE");
    fresh.last_sync = Some(NOW - 60);
    let mut unknown = mk("https://unknown.example/", Protocol::Https, "Sweden", "SE");
    unknown.last_sync = None;
    let sels: Vec<String> = Vec::new();
    let out = sort_mirrors(
        vec![oldm.clone(), unknown.clone(), fresh.clone()],
        SortKey::Age,
        &sels,
        NOW,
    );
    assert_eq!(out, vec![fresh, oldm, unknown]);
}

#[test]
fn score_sort_is_ascending_with_missing_last() {
    let mut good = mk("https://good.example/", Protocol::Https, "Sweden", "SE");
    good.score = Some(100);
    let mut bad = mk("https://bad.example/", Protocol::Https, "Sweden", "SE");
    bad.score = Some(900);
    let mut none = mk("https://none.example/", Protocol::Https, "Sweden", "SE");
    none.score = None;
    let sels: Vec<String> = Vec::new();
    let out = sort_mirrors(
        vec![bad.clone(), none.clone(), good.clone()],
        SortKey::Score,
        &sels,
        NOW,
    );
    assert_eq!(out, vec![good, bad, none]);
}

#[test]
fn delay_sort_is_ascending_with_missing_last() {
    let mut quick = mk("https://quick.example/", Protocol::Https, "Sweden", "SE");
    quick.delay = Some(30);
    let mut slow = mk("https://slow.example/", Protocol::Https, "Sweden", "SE");
    slow.delay = Some(4000);
    let mut none = mk("https://none.example/", Protocol::Https, "Sweden", "SE");
    none.delay = None;
    let sels: Vec<String> = Vec::new();
    let out = sort_mirrors(
        vec![none.clone(), slow.clone(), quick.clone()],
        SortKey::Delay,
        &sels,
        NOW,
    );
    assert_eq!(out, vec![quick, slow, none]);
}

#[test]
fn failed_probes_rank_after_every_measured_mirror() {
    let a = mk("https://a.example/", Protocol::Https, "Sweden", "SE");
    let b = mk("https://b.example/", Protocol::Https, "Sweden", "SE");
    let c = mk("https://c.example/", Protocol::Https, "Sweden", "SE");
    let d = mk("https://d.example/", Protocol::Https, "Sweden", "SE");
    let rated = vec![
        RatedMirror { mirror: a.clone(), rate: None },
        RatedMirror { mirror: b.clone(), rate: Some(50_000) },
        RatedMirror { mirror: c.clone(), rate: None },
        RatedMirror { mirror: d.clone(), rate: Some(900_000) },
    ];
    let ranked = rank_rated(rated);
    assert_eq!(ranked[0].rate, Some(900_000));
    assert_eq!(ranked[1].rate, Some(50_000));
    assert_eq!(ranked[2].rate, None);
    assert_eq!(ranked[3].rate, None);
    let out = strip_rated(ranked);
    assert_eq!(out[0], d);
    assert_eq!(out[1], b);
}

#[test]
fn select_rated_applies_rate_order_and_cap() {
    let a = mk("https://a.example/", Protocol::Https, "Sweden", "SE");
    let b = mk("https://b.example/", Protocol::Https, "Denmark", "DK");
    let c = mk("https://c.example/", Protocol::Https, "Germany", "DE");
    let rated = vec![
        RatedMirror { mirror: a.clone(), rate: Some(10) },
        RatedMirror { mirror: b.clone(), rate: Some(30) },
        RatedMirror { mirror: c.clone(), rate: None },
    ];
    let mut cfg = FilterConfig::unfiltered();
    cfg.number = Some(2);
    let out = select_rated(rated, &cfg, Some(SortKey::Rate), NOW);
    assert_eq!(out, vec![b, a]);
}

#[test]
fn probe_selection_takes_the_feed_prefix() {
    let a = mk("https://a.example/", Protocol::Https, "Sweden", "SE");
    let b = mk("https://b.example/", Protocol::Https, "Denmark", "DK");
    let c = mk("https://c.example/", Protocol::Https, "Germany", "DE");
    let out = probe_selection(vec![a.clone(), b.clone(), c], Some(2));
    assert_eq!(out, vec![a, b]);
}

#[test]
fn take_latest_and_take_score_keep_the_best_n() {
    let mut a = mk("https://a.example/", Protocol::Https, "Sweden", "SE");
    a.last_sync = Some(NOW - 50);
    a.score = Some(500);
    let mut b = mk("https://b.example/", Protocol::Https, "Denmark", "DK");
    b.last_sync = Some(NOW - 5000);
    b.score = Some(100);
    let mut c = mk("https://c.example/", Protocol::Https, "Germany", "DE");
    c.last_sync = Some(NOW - 500);
    c.score = Some(300);
    let latest = take_latest(vec![a.clone(), b.clone(), c.clone()], 2, NOW);
    assert_eq!(latest, vec![a.clone(), c.clone()]);
    let best = take_score(vec![a, b.clone(), c.clone()], 2, NOW);
    assert_eq!(best, vec![b, c]);
}

#[test]
fn number_caps_the_final_list() {
    let a = mk("https://a.example/", Protocol::Https, "Sweden", "SE");
    let b = mk("https://b.example/", Protocol::Https, "Denmark", "DK");
    let out = truncate_number(vec![a.clone(), b], 1);
    assert_eq!(out, vec![a]);
}

#[test]
fn throughput_is_bytes_per_second() {
    assert_eq!(throughput(2000, 500), 4000);
    assert_eq!(throughput(1, 1000), 1);
    // a probe too quick to measure counts as maximally fast, not failed
    assert_eq!(throughput(12345, 0), u64::MAX);
}

#[test]
fn split_list_args_splits_on_commas() {
    let out = split_list_args(vec!["se,no".to_string(), "dk".to_string()]);
    assert_eq!(out, vec!["se".to_string(), "no".to_string(), "dk".to_string()]);
}

#[test]
fn count_countries_reports_distinct_countries_with_counts() {
    let se1 = mk("https://se1.example/", Protocol::Https, "Sweden", "SE");
    let se2 = mk("https://se2.example/", Protocol::Https, "Sweden", "SE");
    let dk = mk("https://dk.example/", Protocol::Https, "Denmark", "DK");
    let table = count_countries(&vec![se1, dk, se2]);
    assert_eq!(table.len(), 2);
    assert_eq!(table[0].country, "Sweden");
    assert_eq!(table[0].code, "SE");
    assert_eq!(table[0].count, 2);
    assert_eq!(table[1].country, "Denmark");
    assert_eq!(table[1].count, 1);
}

#[test]
fn protocol_parses_scheme_names_case_insensitively() {
    assert_eq!(Protocol::from_scheme("https"), Some(Protocol::Https));
    assert_eq!(Protocol::from_scheme("HTTP"), Some(Protocol::Http));
    assert_eq!(Protocol::from_scheme("rsync"), Some(Protocol::Rsync));
    assert_eq!(Protocol::from_scheme("Ftp"), Some(Protocol::Ftp));
    assert_eq!(Protocol::from_scheme("gopher"), None);
    assert_eq!(Protocol::Https.name(), "https");
}

#[test]
fn error_kinds_have_stable_labels() {
    assert_eq!(EngineError::Network.label(), "network");
    assert_eq!(EngineError::Storage.label(), "storage");
    assert_eq!(EngineError::Decode.label(), "decode");
    assert_eq!(EngineError::Validation.label(), "validation");
}

#[test]
fn empty_catalog_selects_nothing() {
    let cfg = FilterConfig::unfiltered();
    let out = select_unrated(status_of(Vec::new()), &cfg, Some(SortKey::Age), NOW).unwrap();
    assert!(out.is_empty());
}

#[test]
fn feed_timestamps_parse_to_epoch_seconds() {
    assert_eq!(parse_timestamp("2024-01-01 00:00:00"), Some(1_704_067_200));
    assert_eq!(parse_timestamp("2024-02-02T10:00:00.000Z"), Some(1_706_868_000));
    assert_eq!(parse_timestamp("1970-01-01 00:00:01"), Some(1));
    assert_eq!(parse_timestamp("not a timestamp"), None);
    assert_eq!(parse_timestamp("2024-13-01 00:00:00"), None);
    assert_eq!(parse_timestamp("2024-01-01"), None);
}

#[test]
fn limits_compose_with_sort_and_cap() {
    let mut a = mk("https://a.example/", Protocol::Https, "Sweden", "SE");
    a.last_sync = Some(NOW - 60);
    a.score = Some(900);
    let mut b = mk("https://b.example/", Protocol::Https, "Denmark", "DK");
    b.last_sync = Some(NOW - 600);
    b.score = Some(100);
    let mut c = mk("https://c.example/", Protocol::Https, "Germany", "DE");
    c.last_sync = Some(NOW - 6000);
    c.score = Some(500);
    // keep the two most recent (a, b), sort them by score (b, a), cap at 1
    let mut cfg = FilterConfig::unfiltered();
    cfg.latest = Some(2);
    cfg.number = Some(1);
    let out = select_unrated(
        status_of(vec![c, a.clone(), b.clone()]),
        &cfg,
        Some(SortKey::Score),
        NOW,
    )
    .unwrap();
    assert_eq!(out, vec![b.clone()]);

    // number alone keeps the front of the filtered feed order
    let cfg2 = {
        let mut cfg2 = FilterConfig::unfiltered();
        cfg2.number = Some(2);
        cfg2
    };
    let out2 = select_unrated(status_of(vec![a.clone(), b.clone()]), &cfg2, None, NOW).unwrap();
    assert_eq!(out2, vec![a, b]);
}

#[test]
fn rating_runs_only_for_fastest_or_rate_sort() {
    let plain = FilterConfig::unfiltered();
    assert!(!needs_rating(&plain, None));
    assert!(!needs_rating(&plain, Some(SortKey::Country)));
    assert!(needs_rating(&plain, Some(SortKey::Rate)));
    let mut with_fastest = FilterConfig::unfiltered();
    with_fastest.fastest = Some(5);
    assert!(needs_rating(&with_fastest, None));
}
