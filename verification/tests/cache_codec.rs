use base64::prelude::{Engine, BASE64_URL_SAFE};
use reflector_rs::cache::{cache_key, cache_plan, invalidated, CachePlan};
use reflector_rs::codec::{decode_status, encode_status};
use reflector_rs::status::{Mirror, MirrorStatus, Protocol};

fn sample_status() -> MirrorStatus {
    let m1 = Mirror {
        url: "https://mirror.se.example/archlinux/".to_string(),
        protocol: Protocol::Https,
        last_sync: Some(1_700_000_000),
        completion_pct: 10000,
        delay: Some(1200),
        duration_avg: Some(350),
        duration_stddev: None,
        score: Some(123),
        active: true,
        country: "Sweden".to_string(),
        country_code: "SE".to_string(),
        isos: true,
        ipv4: true,
        ipv6: false,
        details: "primary".to_string(),
    };
    let m2 = Mirror {
        url: "rsync://mirror.re.example/arch/".to_string(),
        protocol: Protocol::Rsync,
        last_sync: None,
        completion_pct: 9875,
        delay: None,
        duration_avg: None,
        duration_stddev: None,
        score: None,
        active: false,
        country: "R\u{e9}union".to_string(),
        country_code: "RE".to_string(),
        isos: false,
        ipv4: true,
        ipv6: true,
        details: String::new(),
    };
    MirrorStatus {
        cutoff: 86400,
        last_check: "2024-02-02T10:00:00.000Z".to_string(),
        num_checks: -3,
        check_frequency: 3600,
        version: 3,
        urls: vec![m1, m2],
    }
}

#[test]
fn cache_round_trip_returns_the_same_document() {
    let st = sample_status();
    let bytes = encode_status(&st);
    let back = decode_status(&bytes).expect("a fresh encoding must decode");
    assert_eq!(back, st);
}

#[test]
fn empty_document_round_trips_too() {
    let st = MirrorStatus {
        cutoff: 0,
        last_check: String::new(),
        num_checks: 0,
        check_frequency: 0,
        version: 0,
        urls: Vec::new(),
    };
    let bytes = encode_status(&st);
    assert_eq!(decode_status(&bytes), Some(st));
}

#[test]
fn malformed_cache_bytes_are_rejected() {
    assert_eq!(decode_status(&vec![1u8, 2, 3]), None);
    let st = sample_status();
    let mut truncated = encode_status(&st);
    truncated.pop();
    assert_eq!(decode_status(&truncated), None);
    let mut padded = encode_status(&st);
    padded.push(0);
    assert_eq!(decode_status(&padded), None);
}

#[test]
fn default_url_maps_to_the_fixed_cache_name() {
    let key = cache_key("https://archlinux.org/mirrors/status/json/");
    assert_eq!(key, "mirrorstatus.json");
}

#[test]
fn other_urls_map_to_an_encoded_name() {
    assert_eq!(cache_key("hi"), "Reflector-rs/aGk=.json");
    let url = "https://mirrors.example.org/status/json/";
    let expected = format!("Reflector-rs/{}.json", BASE64_URL_SAFE.encode(url.as_bytes()));
    assert_eq!(cache_key(url), expected);
}

#[test]
fn expired_entries_force_a_refetch() {
    // written at 100, asked at 500: older than a 300-second lifetime
    assert!(invalidated(100, 500, 300));
    assert_eq!(cache_plan(Some(100), 500, 300), CachePlan::Refetch);
    // still within a 400-second lifetime
    assert!(!invalidated(100, 500, 400));
    assert_eq!(cache_plan(Some(100), 500, 400), CachePlan::UseCache);
    // no entry at all
    assert_eq!(cache_plan(None, 500, 300), CachePlan::Refetch);
    // an entry stamped in the future counts as fresh, never stale
    assert!(!invalidated(900, 500, 300));
}
