//! The cache file format: a fixed little-endian framing of the status
//! document, written when a fresh feed is persisted and read back on the
//! next invocation. Decoding inverts encoding exactly, so a document
//! written to the cache and read back within its lifetime is the same
//! document; any byte stream that is not an encoding is rejected.
//!
//! Layout: integers are 8 little-endian bytes, characters 4, booleans and
//! tags one strictly-checked byte; strings and the record list carry their
//! length first.

use vstd::prelude::*;
use vstd::bytes::{
    lemma_auto_spec_u32_to_from_le_bytes, lemma_auto_spec_u64_to_from_le_bytes,
    spec_u32_from_le_bytes, spec_u32_to_le_bytes, spec_u64_from_le_bytes, spec_u64_to_le_bytes,
    u32_from_le_bytes, u32_to_le_bytes, u64_from_le_bytes, u64_to_le_bytes,
};
use vstd::slice::slice_subrange;
use vstd::string::StrSliceExecFns;
use vstd::utf8::{char_is_scalar, char_u32_cast, is_scalar};
use crate::status::{Mirror, MirrorStatus, Protocol};

verus! {

/// The spec-level shadow of one record: every field a plain value, the
/// strings as character sequences.
pub struct MirrorModel {
    pub url: Seq<char>,
    pub protocol: Protocol,
    pub last_sync: Option<i64>,
    pub completion_pct: u64,
    pub delay: Option<i64>,
    pub duration_avg: Option<i64>,
    pub duration_stddev: Option<i64>,
    pub score: Option<i64>,
    pub active: bool,
    pub country: Seq<char>,
    pub country_code: Seq<char>,
    pub isos: bool,
    pub ipv4: bool,
    pub ipv6: bool,
    pub details: Seq<char>,
}

/// The spec-level shadow of the whole document.
pub struct StatusModel {
    pub cutoff: i64,
    pub last_check: Seq<char>,
    pub num_checks: i64,
    pub check_frequency: i64,
    pub version: i64,
    pub urls: Seq<MirrorModel>,
}

pub open spec fn mirror_model(m: Mirror) -> MirrorModel {
    MirrorModel {
        url: m.url@,
        protocol: m.protocol,
        last_sync: m.last_sync,
        completion_pct: m.completion_pct,
        delay: m.delay,
        duration_avg: m.duration_avg,
        duration_stddev: m.duration_stddev,
        score: m.score,
        active: m.active,
        country: m.country@,
        country_code: m.country_code@,
        isos: m.isos,
        ipv4: m.ipv4,
        ipv6: m.ipv6,
        details: m.details@,
    }
}

pub open spec fn status_model(s: MirrorStatus) -> StatusModel {
    StatusModel {
        cutoff: s.cutoff,
        last_check: s.last_check@,
        num_checks: s.num_checks,
        check_frequency: s.check_frequency,
        version: s.version,
        urls: s.urls@.map_values(|m: Mirror| mirror_model(m)),
    }
}

/// Lengths the framing can carry; every real document satisfies this.
pub open spec fn wf_mirror_model(m: MirrorModel) -> bool {
    &&& m.url.len() <= u64::MAX
    &&& m.country.len() <= u64::MAX
    &&& m.country_code.len() <= u64::MAX
    &&& m.details.len() <= u64::MAX
}

pub open spec fn wf_status_model(s: StatusModel) -> bool {
    &&& s.last_check.len() <= u64::MAX
    &&& s.urls.len() <= u64::MAX
    &&& forall|i: int| 0 <= i < s.urls.len() ==> wf_mirror_model(#[trigger] s.urls[i])
}

pub open spec fn enc_u64(x: u64) -> Seq<u8> {
    spec_u64_to_le_bytes(x)
}

pub open spec fn enc_i64(x: i64) -> Seq<u8> {
    enc_u64(x as u64)
}

pub open spec fn enc_bool(b: bool) -> Seq<u8> {
    seq![if b { 1u8 } else { 0u8 }]
}

pub open spec fn enc_char(c: char) -> Seq<u8> {
    spec_u32_to_le_bytes(c as u32)
}

pub open spec fn enc_chars(s: Seq<char>) -> Seq<u8>
    decreases s.len(),
{
    if s.len() == 0 {
        Seq::empty()
    } else {
        enc_char(s[0]) + enc_chars(s.drop_first())
    }
}

pub open spec fn enc_str(s: Seq<char>) -> Seq<u8> {
    enc_u64(s.len() as u64) + enc_chars(s)
}

pub open spec fn enc_opt_i64(o: Option<i64>) -> Seq<u8> {
    match o {
        None => seq![0u8],
        Some(x) => seq![1u8] + enc_i64(x),
    }
}

pub open spec fn enc_mirror(m: MirrorModel) -> Seq<u8> {
    enc_str(m.url) + seq![m.protocol.code()] + enc_opt_i64(m.last_sync) + enc_u64(
        m.completion_pct,
    ) + enc_opt_i64(m.delay) + enc_opt_i64(m.duration_avg) + enc_opt_i64(m.duration_stddev)
        + enc_opt_i64(m.score) + enc_bool(m.active) + enc_str(m.country) + enc_str(m.country_code)
        + enc_bool(m.isos) + enc_bool(m.ipv4) + enc_bool(m.ipv6) + enc_str(m.details)
}

pub open spec fn enc_mirrors(s: Seq<MirrorModel>) -> Seq<u8>
    decreases s.len(),
{
    if s.len() == 0 {
        Seq::empty()
    } else {
        enc_mirror(s[0]) + enc_mirrors(s.drop_first())
    }
}

pub open spec fn enc_status(s: StatusModel) -> Seq<u8> {
    enc_i64(s.cutoff) + enc_str(s.last_check) + enc_i64(s.num_checks) + enc_i64(s.check_frequency)
        + enc_i64(s.version) + enc_u64(s.urls.len() as u64) + enc_mirrors(s.urls)
}

pub open spec fn dec_u64(b: Seq<u8>) -> Option<(u64, Seq<u8>)> {
    if b.len() < 8 {
        None
    } else {
        Some((spec_u64_from_le_bytes(b.take(8)), b.skip(8)))
    }
}

pub open spec fn dec_i64(b: Seq<u8>) -> Option<(i64, Seq<u8>)> {
    match dec_u64(b) {
        None => None,
        Some((x, r)) => Some((x as i64, r)),
    }
}

pub open spec fn dec_u8(b: Seq<u8>) -> Option<(u8, Seq<u8>)> {
    if b.len() < 1 {
        None
    } else {
        Some((b[0], b.skip(1)))
    }
}

pub open spec fn dec_bool(b: Seq<u8>) -> Option<(bool, Seq<u8>)> {
    match dec_u8(b) {
        None => None,
        Some((t, r)) => if t == 0 {
            Some((false, r))
        } else if t == 1 {
            Some((true, r))
        } else {
            None
        },
    }
}

pub open spec fn dec_char(b: Seq<u8>) -> Option<(char, Seq<u8>)> {
    if b.len() < 4 {
        None
    } else {
        let u = spec_u32_from_le_bytes(b.take(4));
        if is_scalar(u) {
            Some((u as char, b.skip(4)))
        } else {
            None
        }
    }
}

pub open spec fn dec_chars(n: nat, b: Seq<u8>) -> Option<(Seq<char>, Seq<u8>)>
    decreases n,
{
    if n == 0 {
        Some((Seq::empty(), b))
    } else {
        match dec_char(b) {
            None => None,
            Some((c, r)) => match dec_chars((n - 1) as nat, r) {
                None => None,
                Some((s, r2)) => Some((seq![c] + s, r2)),
            },
        }
    }
}

pub open spec fn dec_str(b: Seq<u8>) -> Option<(Seq<char>, Seq<u8>)> {
    match dec_u64(b) {
        None => None,
        Some((n, r)) => dec_chars(n as nat, r),
    }
}

pub open spec fn dec_opt_i64(b: Seq<u8>) -> Option<(Option<i64>, Seq<u8>)> {
    match dec_u8(b) {
        None => None,
        Some((t, r)) => if t == 0 {
            Some((None, r))
        } else if t == 1 {
            match dec_i64(r) {
                None => None,
                Some((x, r2)) => Some((Some(x), r2)),
            }
        } else {
            None
        },
    }
}

pub open spec fn dec_protocol(b: Seq<u8>) -> Option<(Protocol, Seq<u8>)> {
    match dec_u8(b) {
        None => None,
        Some((t, r)) => match Protocol::spec_from_code(t) {
            None => None,
            Some(p) => Some((p, r)),
        },
    }
}

pub open spec fn dec_mirror(b: Seq<u8>) -> Option<(MirrorModel, Seq<u8>)> {
    match dec_str(b) {
        None => None,
        Some((url, b1)) => match dec_protocol(b1) {
            None => None,
            Some((protocol, b2)) => match dec_opt_i64(b2) {
                None => None,
                Some((last_sync, b3)) => match dec_u64(b3) {
                    None => None,
                    Some((completion_pct, b4)) => match dec_opt_i64(b4) {
                        None => None,
                        Some((delay, b5)) => match dec_opt_i64(b5) {
                            None => None,
                            Some((duration_avg, b6)) => match dec_opt_i64(b6) {
                                None => None,
                                Some((duration_stddev, b7)) => match dec_opt_i64(b7) {
                                    None => None,
                                    Some((score, b8)) => match dec_bool(b8) {
                                        None => None,
                                        Some((active, b9)) => match dec_str(b9) {
                                            None => None,
                                            Some((country, b10)) => match dec_str(b10) {
                                                None => None,
                                                Some((country_code, b11)) => match dec_bool(b11) {
                                                    None => None,
                                                    Some((isos, b12)) => match dec_bool(b12) {
                                                        None => None,
                                                        Some((ipv4, b13)) => match dec_bool(b13) {
                                                            None => None,
                                                            Some((ipv6, b14)) => match dec_str(
                                                                b14,
                                                            ) {
                                                                None => None,
                                                                Some((details, b15)) => Some((
                                                                    MirrorModel {
                                                                        url,
                                                                        protocol,
                                                                        last_sync,
                                                                        completion_pct,
                                                                        delay,
                                                                        duration_avg,
                                                                        duration_stddev,
                                                                        score,
                                                                        active,
                                                                        country,
                                                                        country_code,
                                                                        isos,
                                                                        ipv4,
                                                                        ipv6,
                                                                        details,
                                                                    },
                                                                    b15,
                                                                )),
                                                            },
                                                        },
                                                    },
                                                },
                                            },
                                        },
                                    },
                                },
                            },
                        },
                    },
                },
            },
        },
    }
}

pub open spec fn dec_mirrors(n: nat, b: Seq<u8>) -> Option<(Seq<MirrorModel>, Seq<u8>)>
    decreases n,
{
    if n == 0 {
        Some((Seq::empty(), b))
    } else {
        match dec_mirror(b) {
            None => None,
            Some((m, r)) => match dec_mirrors((n - 1) as nat, r) {
                None => None,
                Some((s, r2)) => Some((seq![m] + s, r2)),
            },
        }
    }
}

pub open spec fn dec_status(b: Seq<u8>) -> Option<(StatusModel, Seq<u8>)> {
    match dec_i64(b) {
        None => None,
        Some((cutoff, b1)) => match dec_str(b1) {
            None => None,
            Some((last_check, b2)) => match dec_i64(b2) {
                None => None,
                Some((num_checks, b3)) => match dec_i64(b3) {
                    None => None,
                    Some((check_frequency, b4)) => match dec_i64(b4) {
                        None => None,
                        Some((version, b5)) => match dec_u64(b5) {
                            None => None,
                            Some((n, b6)) => match dec_mirrors(n as nat, b6) {
                                None => None,
                                Some((urls, b7)) => Some((
                                    StatusModel {
                                        cutoff,
                                        last_check,
                                        num_checks,
                                        check_frequency,
                                        version,
                                        urls,
                                    },
                                    b7,
                                )),
                            },
                        },
                    },
                },
            },
        },
    }
}

pub proof fn lemma_rt_u64(x: u64, rest: Seq<u8>)
    ensures
        dec_u64(enc_u64(x) + rest) == Some((x, rest)),
        enc_u64(x).len() == 8,
{
    lemma_auto_spec_u64_to_from_le_bytes();
    assert((enc_u64(x) + rest).take(8) =~= enc_u64(x));
    assert((enc_u64(x) + rest).skip(8) =~= rest);
}

pub proof fn lemma_rt_i64(x: i64, rest: Seq<u8>)
    ensures
        dec_i64(enc_i64(x) + rest) == Some((x, rest)),
        enc_i64(x).len() == 8,
{
    lemma_rt_u64(x as u64, rest);
    assert(((x as u64) as i64) == x) by (bit_vector);
}

pub proof fn lemma_rt_bool(v: bool, rest: Seq<u8>)
    ensures
        dec_bool(enc_bool(v) + rest) == Some((v, rest)),
        enc_bool(v).len() == 1,
{
    let b = enc_bool(v) + rest;
    assert(b[0] == if v {
        1u8
    } else {
        0u8
    });
    assert(b.skip(1) =~= rest);
}

pub proof fn lemma_rt_char(c: char, rest: Seq<u8>)
    ensures
        dec_char(enc_char(c) + rest) == Some((c, rest)),
        enc_char(c).len() == 4,
{
    lemma_auto_spec_u32_to_from_le_bytes();
    let b = enc_char(c) + rest;
    assert(b.take(4) =~= enc_char(c));
    assert(b.skip(4) =~= rest);
    char_is_scalar(c);
    char_u32_cast(c, c as u32);
}

pub proof fn lemma_rt_chars(s: Seq<char>, rest: Seq<u8>)
    ensures
        dec_chars(s.len(), enc_chars(s) + rest) == Some((s, rest)),
    decreases s.len(),
{
    if s.len() == 0 {
        assert(enc_chars(s) + rest =~= rest);
        assert(dec_chars(0, rest) == Some((Seq::<char>::empty(), rest)));
        assert(s =~= Seq::<char>::empty());
    } else {
        lemma_rt_chars(s.drop_first(), rest);
        lemma_rt_char(s[0], enc_chars(s.drop_first()) + rest);
        assert(enc_chars(s) + rest =~= enc_char(s[0]) + (enc_chars(s.drop_first()) + rest));
        assert(seq![s[0]] + s.drop_first() =~= s);
    }
}

pub proof fn lemma_rt_str(s: Seq<char>, rest: Seq<u8>)
    requires
        s.len() <= u64::MAX,
    ensures
        dec_str(enc_str(s) + rest) == Some((s, rest)),
{
    lemma_rt_u64(s.len() as u64, enc_chars(s) + rest);
    assert(enc_str(s) + rest =~= enc_u64(s.len() as u64) + (enc_chars(s) + rest));
    lemma_rt_chars(s, rest);
    assert(((s.len() as u64) as nat) == s.len());
}

pub proof fn lemma_rt_opt_i64(o: Option<i64>, rest: Seq<u8>)
    ensures
        dec_opt_i64(enc_opt_i64(o) + rest) == Some((o, rest)),
{
    match o {
        None => {
            let b = enc_opt_i64(o) + rest;
            assert(b[0] == 0u8);
            assert(b.skip(1) =~= rest);
        },
        Some(x) => {
            let b = enc_opt_i64(o) + rest;
            assert(b[0] == 1u8);
            assert(b.skip(1) =~= enc_i64(x) + rest);
            lemma_rt_i64(x, rest);
        },
    }
}

pub proof fn lemma_rt_protocol(p: Protocol, rest: Seq<u8>)
    ensures
        dec_protocol(seq![p.code()] + rest) == Some((p, rest)),
{
    let b = seq![p.code()] + rest;
    assert(b[0] == p.code());
    assert(b.skip(1) =~= rest);
}

proof fn seq_assoc<A>(a: Seq<A>, b: Seq<A>, c: Seq<A>)
    ensures
        (a + b) + c == a + (b + c),
{
    assert((a + b) + c =~= a + (b + c));
}

#[verifier::rlimit(100)]
pub proof fn lemma_rt_mirror(m: MirrorModel, rest: Seq<u8>)
    requires
        wf_mirror_model(m),
    ensures
        dec_mirror(enc_mirror(m) + rest) == Some((m, rest)),
{
    let r15 = rest;
    let r14 = enc_str(m.details) + r15;
    let r13 = enc_bool(m.ipv6) + r14;
    let r12 = enc_bool(m.ipv4) + r13;
    let r11 = enc_bool(m.isos) + r12;
    let r10 = enc_str(m.country_code) + r11;
    let r9 = enc_str(m.country) + r10;
    let r8 = enc_bool(m.active) + r9;
    let r7 = enc_opt_i64(m.score) + r8;
    let r6 = enc_opt_i64(m.duration_stddev) + r7;
    let r5 = enc_opt_i64(m.duration_avg) + r6;
    let r4 = enc_opt_i64(m.delay) + r5;
    let r3 = enc_u64(m.completion_pct) + r4;
    let r2 = enc_opt_i64(m.last_sync) + r3;
    let r1 = seq![m.protocol.code()] + r2;
    let e1 = enc_str(m.url);
    let e2 = seq![m.protocol.code()];
    let e3 = enc_opt_i64(m.last_sync);
    let e4 = enc_u64(m.completion_pct);
    let e5 = enc_opt_i64(m.delay);
    let e6 = enc_opt_i64(m.duration_avg);
    let e7 = enc_opt_i64(m.duration_stddev);
    let e8 = enc_opt_i64(m.score);
    let e9 = enc_bool(m.active);
    let e10 = enc_str(m.country);
    let e11 = enc_str(m.country_code);
    let e12 = enc_bool(m.isos);
    let e13 = enc_bool(m.ipv4);
    let e14 = enc_bool(m.ipv6);
    let e15 = enc_str(m.details);
    let p1 = e1;
    let p2 = p1 + e2;
    let p3 = p2 + e3;
    let p4 = p3 + e4;
    let p5 = p4 + e5;
    let p6 = p5 + e6;
    let p7 = p6 + e7;
    let p8 = p7 + e8;
    let p9 = p8 + e9;
    let p10 = p9 + e10;
    let p11 = p10 + e11;
    let p12 = p11 + e12;
    let p13 = p12 + e13;
    let p14 = p13 + e14;
    let p15 = p14 + e15;
    assert(enc_mirror(m) == p15);
    seq_assoc(p14, e15, r15);
    seq_assoc(p13, e14, r14);
    seq_assoc(p12, e13, r13);
    seq_assoc(p11, e12, r12);
    seq_assoc(p10, e11, r11);
    seq_assoc(p9, e10, r10);
    seq_assoc(p8, e9, r9);
    seq_assoc(p7, e8, r8);
    seq_assoc(p6, e7, r7);
    seq_assoc(p5, e6, r6);
    seq_assoc(p4, e5, r5);
    seq_assoc(p3, e4, r4);
    seq_assoc(p2, e3, r3);
    seq_assoc(p1, e2, r2);
    assert(enc_mirror(m) + rest == p1 + r1);
    let b0 = enc_mirror(m) + rest;
    lemma_rt_str(m.url, r1);
    assert(dec_str(b0) == Some((m.url, r1)));
    lemma_rt_protocol(m.protocol, r2);
    assert(dec_protocol(r1) == Some((m.protocol, r2)));
    lemma_rt_opt_i64(m.last_sync, r3);
    assert(dec_opt_i64(r2) == Some((m.last_sync, r3)));
    lemma_rt_u64(m.completion_pct, r4);
    assert(dec_u64(r3) == Some((m.completion_pct, r4)));
    lemma_rt_opt_i64(m.delay, r5);
    assert(dec_opt_i64(r4) == Some((m.delay, r5)));
    lemma_rt_opt_i64(m.duration_avg, r6);
    assert(dec_opt_i64(r5) == Some((m.duration_avg, r6)));
    lemma_rt_opt_i64(m.duration_stddev, r7);
    assert(dec_opt_i64(r6) == Some((m.duration_stddev, r7)));
    lemma_rt_opt_i64(m.score, r8);
    assert(dec_opt_i64(r7) == Some((m.score, r8)));
    lemma_rt_bool(m.active, r9);
    assert(dec_bool(r8) == Some((m.active, r9)));
    lemma_rt_str(m.country, r10);
    assert(dec_str(r9) == Some((m.country, r10)));
    lemma_rt_str(m.country_code, r11);
    assert(dec_str(r10) == Some((m.country_code, r11)));
    lemma_rt_bool(m.isos, r12);
    assert(dec_bool(r11) == Some((m.isos, r12)));
    lemma_rt_bool(m.ipv4, r13);
    assert(dec_bool(r12) == Some((m.ipv4, r13)));
    lemma_rt_bool(m.ipv6, r14);
    assert(dec_bool(r13) == Some((m.ipv6, r14)));
    lemma_rt_str(m.details, r15);
    assert(dec_str(r14) == Some((m.details, r15)));
    assert(dec_mirror(b0) == Some((m, rest)));
}

pub proof fn lemma_rt_mirrors(s: Seq<MirrorModel>, rest: Seq<u8>)
    requires
        forall|i: int| 0 <= i < s.len() ==> wf_mirror_model(#[trigger] s[i]),
    ensures
        dec_mirrors(s.len(), enc_mirrors(s) + rest) == Some((s, rest)),
    decreases s.len(),
{
    if s.len() == 0 {
        assert(enc_mirrors(s) + rest =~= rest);
        assert(s =~= Seq::<MirrorModel>::empty());
    } else {
        assert forall|i: int| 0 <= i < s.drop_first().len() implies wf_mirror_model(
            #[trigger] s.drop_first()[i],
        ) by {
            assert(s.drop_first()[i] == s[i + 1]);
        }
        lemma_rt_mirrors(s.drop_first(), rest);
        lemma_rt_mirror(s[0], enc_mirrors(s.drop_first()) + rest);
        assert(enc_mirrors(s) + rest =~= enc_mirror(s[0]) + (enc_mirrors(s.drop_first()) + rest));
        assert(seq![s[0]] + s.drop_first() =~= s);
    }
}

/// Decoding inverts encoding: a document framed for the cache and read
/// back is the same document, to the last field.
pub proof fn lemma_status_round_trip(sm: StatusModel)
    requires
        wf_status_model(sm),
    ensures
        dec_status(enc_status(sm)) == Some((sm, Seq::<u8>::empty())),
{
    let r6 = enc_mirrors(sm.urls) + Seq::<u8>::empty();
    let r5 = enc_u64(sm.urls.len() as u64) + r6;
    let r4 = enc_i64(sm.version) + r5;
    let r3 = enc_i64(sm.check_frequency) + r4;
    let r2 = enc_i64(sm.num_checks) + r3;
    let r1 = enc_str(sm.last_check) + r2;
    assert(enc_status(sm) =~= enc_i64(sm.cutoff) + r1);
    lemma_rt_i64(sm.cutoff, r1);
    lemma_rt_str(sm.last_check, r2);
    lemma_rt_i64(sm.num_checks, r3);
    lemma_rt_i64(sm.check_frequency, r4);
    lemma_rt_i64(sm.version, r5);
    lemma_rt_u64(sm.urls.len() as u64, r6);
    assert(enc_mirrors(sm.urls) + Seq::<u8>::empty() =~= enc_mirrors(sm.urls));
    lemma_rt_mirrors(sm.urls, Seq::<u8>::empty());
    assert(((sm.urls.len() as u64) as nat) == sm.urls.len());
}

/// Appending one character to a sequence appends its encoding.
pub proof fn lemma_enc_chars_push(s: Seq<char>, c: char)
    ensures
        enc_chars(s.push(c)) == enc_chars(s) + enc_char(c),
    decreases s.len(),
{
    if s.len() == 0 {
        assert(s.push(c).drop_first() =~= Seq::<char>::empty());
        assert(s.push(c)[0] == c);
        assert(enc_chars(Seq::<char>::empty()) == Seq::<u8>::empty());
        assert(enc_chars(s) == Seq::<u8>::empty());
        assert(enc_chars(s.push(c)) == enc_char(c) + enc_chars(Seq::<char>::empty()));
        assert(enc_chars(s.push(c)) =~= enc_chars(s) + enc_char(c));
    } else {
        lemma_enc_chars_push(s.drop_first(), c);
        assert(s.push(c).drop_first() =~= s.drop_first().push(c));
        assert(s.push(c)[0] == s[0]);
        assert(enc_chars(s.push(c)) == enc_char(s[0]) + enc_chars(s.drop_first().push(c)));
        assert(enc_chars(s) == enc_char(s[0]) + enc_chars(s.drop_first()));
        seq_assoc(enc_char(s[0]), enc_chars(s.drop_first()), enc_char(c));
    }
}

/// Appending one record to a list appends its encoding.
pub proof fn lemma_enc_mirrors_push(s: Seq<MirrorModel>, m: MirrorModel)
    ensures
        enc_mirrors(s.push(m)) == enc_mirrors(s) + enc_mirror(m),
    decreases s.len(),
{
    if s.len() == 0 {
        assert(s.push(m).drop_first() =~= Seq::<MirrorModel>::empty());
        assert(s.push(m)[0] == m);
        assert(enc_mirrors(Seq::<MirrorModel>::empty()) == Seq::<u8>::empty());
        assert(enc_mirrors(s) == Seq::<u8>::empty());
        assert(enc_mirrors(s.push(m)) == enc_mirror(m) + enc_mirrors(Seq::<MirrorModel>::empty()));
        assert(enc_mirrors(s.push(m)) =~= enc_mirrors(s) + enc_mirror(m));
    } else {
        lemma_enc_mirrors_push(s.drop_first(), m);
        assert(s.push(m).drop_first() =~= s.drop_first().push(m));
        assert(s.push(m)[0] == s[0]);
        assert(enc_mirrors(s.push(m)) == enc_mirror(s[0]) + enc_mirrors(s.drop_first().push(m)));
        assert(enc_mirrors(s) == enc_mirror(s[0]) + enc_mirrors(s.drop_first()));
        seq_assoc(enc_mirror(s[0]), enc_mirrors(s.drop_first()), enc_mirror(m));
    }
}

fn put_u64(out: &mut Vec<u8>, x: u64)
    ensures
        final(out)@ == old(out)@ + enc_u64(x),
{
    let mut b = u64_to_le_bytes(x);
    out.append(&mut b);
}

fn put_i64(out: &mut Vec<u8>, x: i64)
    ensures
        final(out)@ == old(out)@ + enc_i64(x),
{
    put_u64(out, #[verifier::truncate] (x as u64));
}

fn put_bool(out: &mut Vec<u8>, v: bool)
    ensures
        final(out)@ == old(out)@ + enc_bool(v),
{
    out.push(if v { 1 } else { 0 });
    proof {
        assert(out@ =~= old(out)@ + enc_bool(v));
    }
}

fn put_opt_i64(out: &mut Vec<u8>, o: &Option<i64>)
    ensures
        final(out)@ == old(out)@ + enc_opt_i64(*o),
{
    match o {
        None => {
            out.push(0);
            proof {
                assert(out@ =~= old(out)@ + enc_opt_i64(*o));
            }
        },
        Some(x) => {
            out.push(1);
            let ghost mid = out@;
            proof {
                assert(mid =~= old(out)@ + seq![1u8]);
            }
            put_i64(out, *x);
            proof {
                seq_assoc(old(out)@, seq![1u8], enc_i64(*x));
                assert(out@ == old(out)@ + enc_opt_i64(*o));
            }
        },
    }
}

fn put_str(out: &mut Vec<u8>, s: &str)
    ensures
        final(out)@ == old(out)@ + enc_str(s@),
{
    let len = s.unicode_len();
    put_u64(out, len as u64);
    let ghost start = out@;
    let mut i: usize = 0;
    proof {
        assert(enc_chars(s@.take(0)) =~= Seq::<u8>::empty());
        assert(start + enc_chars(s@.take(0)) =~= start);
    }
    while i < len
        invariant
            i <= len,
            len == s@.len(),
            out@ == start + enc_chars(s@.take(i as int)),
        decreases len - i,
    {
        let c = s.get_char(i);
        let mut b = u32_to_le_bytes(c as u32);
        out.append(&mut b);
        proof {
            assert(s@.take(i as int).push(s@[i as int]) =~= s@.take(i + 1));
            lemma_enc_chars_push(s@.take(i as int), s@[i as int]);
            seq_assoc(start, enc_chars(s@.take(i as int)), enc_char(s@[i as int]));
        }
        i += 1;
    }
    proof {
        assert(s@.take(len as int) =~= s@);
        seq_assoc(old(out)@, enc_u64(s@.len() as u64), enc_chars(s@));
    }
}

fn put_mirror(out: &mut Vec<u8>, m: &Mirror)
    ensures
        final(out)@ == old(out)@ + enc_mirror(mirror_model(*m)),
{
    let ghost start = out@;
    let ghost mm = mirror_model(*m);
    put_str(out, m.url.as_str());
    out.push(m.protocol.tag());
    proof {
        assert(out@ =~= (start + enc_str(mm.url)) + seq![mm.protocol.code()]);
    }
    put_opt_i64(out, &m.last_sync);
    put_u64(out, m.completion_pct);
    put_opt_i64(out, &m.delay);
    put_opt_i64(out, &m.duration_avg);
    put_opt_i64(out, &m.duration_stddev);
    put_opt_i64(out, &m.score);
    put_bool(out, m.active);
    put_str(out, m.country.as_str());
    put_str(out, m.country_code.as_str());
    put_bool(out, m.isos);
    put_bool(out, m.ipv4);
    put_bool(out, m.ipv6);
    put_str(out, m.details.as_str());
    proof {
        let e1 = enc_str(mm.url);
        let e2 = seq![mm.protocol.code()];
        let e3 = enc_opt_i64(mm.last_sync);
        let e4 = enc_u64(mm.completion_pct);
        let e5 = enc_opt_i64(mm.delay);
        let e6 = enc_opt_i64(mm.duration_avg);
        let e7 = enc_opt_i64(mm.duration_stddev);
        let e8 = enc_opt_i64(mm.score);
        let e9 = enc_bool(mm.active);
        let e10 = enc_str(mm.country);
        let e11 = enc_str(mm.country_code);
        let e12 = enc_bool(mm.isos);
        let e13 = enc_bool(mm.ipv4);
        let e14 = enc_bool(mm.ipv6);
        let e15 = enc_str(mm.details);
        let p1 = e1;
        let p2 = p1 + e2;
        let p3 = p2 + e3;
        let p4 = p3 + e4;
        let p5 = p4 + e5;
        let p6 = p5 + e6;
        let p7 = p6 + e7;
        let p8 = p7 + e8;
        let p9 = p8 + e9;
        let p10 = p9 + e10;
        let p11 = p10 + e11;
        let p12 = p11 + e12;
        let p13 = p12 + e13;
        let p14 = p13 + e14;
        let p15 = p14 + e15;
        seq_assoc(start, p1, e2);
        seq_assoc(start, p2, e3);
        seq_assoc(start, p3, e4);
        seq_assoc(start, p4, e5);
        seq_assoc(start, p5, e6);
        seq_assoc(start, p6, e7);
        seq_assoc(start, p7, e8);
        seq_assoc(start, p8, e9);
        seq_assoc(start, p9, e10);
        seq_assoc(start, p10, e11);
        seq_assoc(start, p11, e12);
        seq_assoc(start, p12, e13);
        seq_assoc(start, p13, e14);
        seq_assoc(start, p14, e15);
        assert(enc_mirror(mm) == p15);
        assert(out@ == start + p15);
    }
}

/// Frames the whole document for the cache file.
pub fn encode_status(st: &MirrorStatus) -> (r: Vec<u8>)
    ensures
        r@ == enc_status(status_model(*st)),
{
    let ghost sm = status_model(*st);
    let mut out: Vec<u8> = Vec::new();
    proof {
        assert(out@ =~= Seq::<u8>::empty());
    }
    put_i64(&mut out, st.cutoff);
    proof {
        assert(out@ =~= enc_i64(sm.cutoff));
    }
    put_str(&mut out, st.last_check.as_str());
    put_i64(&mut out, st.num_checks);
    put_i64(&mut out, st.check_frequency);
    put_i64(&mut out, st.version);
    put_u64(&mut out, st.urls.len() as u64);
    let ghost before_urls = out@;
    let mut i: usize = 0;
    proof {
        assert(sm.urls.take(0) =~= Seq::<MirrorModel>::empty());
        assert(enc_mirrors(sm.urls.take(0)) =~= Seq::<u8>::empty());
        assert(before_urls + enc_mirrors(sm.urls.take(0)) =~= before_urls);
    }
    while i < st.urls.len()
        invariant
            i <= st.urls@.len(),
            sm == status_model(*st),
            sm.urls.len() == st.urls@.len(),
            forall|k: int| 0 <= k < sm.urls.len() ==> sm.urls[k] == mirror_model(st.urls@[k]),
            out@ == before_urls + enc_mirrors(sm.urls.take(i as int)),
        decreases st.urls@.len() - i,
    {
        put_mirror(&mut out, &st.urls[i]);
        proof {
            assert(sm.urls.take(i as int).push(sm.urls[i as int]) =~= sm.urls.take(i + 1));
            lemma_enc_mirrors_push(sm.urls.take(i as int), sm.urls[i as int]);
            seq_assoc(
                before_urls,
                enc_mirrors(sm.urls.take(i as int)),
                enc_mirror(sm.urls[i as int]),
            );
        }
        i += 1;
    }
    proof {
        assert(sm.urls.take(sm.urls.len() as int) =~= sm.urls);
        let f1 = enc_i64(sm.cutoff);
        let f2 = enc_str(sm.last_check);
        let f3 = enc_i64(sm.num_checks);
        let f4 = enc_i64(sm.check_frequency);
        let f5 = enc_i64(sm.version);
        let f6 = enc_u64(sm.urls.len() as u64);
        let f7 = enc_mirrors(sm.urls);
        let q1 = f1;
        let q2 = q1 + f2;
        let q3 = q2 + f3;
        let q4 = q3 + f4;
        let q5 = q4 + f5;
        let q6 = q5 + f6;
        let q7 = q6 + f7;
        assert(enc_status(sm) == q7);
        assert(before_urls == q6);
        assert(out@ == q6 + f7);
    }
    out
}

fn dx_u64(b: &Vec<u8>, pos: usize) -> (r: Option<(u64, usize)>)
    requires
        pos <= b@.len(),
    ensures
        match r {
            Some(vp) => dec_u64(b@.skip(pos as int)) == Some((vp.0, b@.skip(vp.1 as int)))
                && pos < vp.1 <= b@.len(),
            None => dec_u64(b@.skip(pos as int)) is None,
        },
{
    if b.len() - pos < 8 {
        return None;
    }
    let sl = slice_subrange(b.as_slice(), pos, pos + 8);
    let v = u64_from_le_bytes(sl);
    proof {
        assert(b@.skip(pos as int).take(8) =~= b@.subrange(pos as int, pos + 8));
        assert(b@.skip(pos as int).skip(8) =~= b@.skip(pos + 8));
    }
    Some((v, pos + 8))
}

fn dx_i64(b: &Vec<u8>, pos: usize) -> (r: Option<(i64, usize)>)
    requires
        pos <= b@.len(),
    ensures
        match r {
            Some(vp) => dec_i64(b@.skip(pos as int)) == Some((vp.0, b@.skip(vp.1 as int)))
                && pos < vp.1 <= b@.len(),
            None => dec_i64(b@.skip(pos as int)) is None,
        },
{
    match dx_u64(b, pos) {
        Some((v, p2)) => Some((#[verifier::truncate] (v as i64), p2)),
        None => None,
    }
}

fn dx_u8(b: &Vec<u8>, pos: usize) -> (r: Option<(u8, usize)>)
    requires
        pos <= b@.len(),
    ensures
        match r {
            Some(vp) => dec_u8(b@.skip(pos as int)) == Some((vp.0, b@.skip(vp.1 as int)))
                && pos < vp.1 <= b@.len(),
            None => dec_u8(b@.skip(pos as int)) is None,
        },
{
    if b.len() - pos < 1 {
        return None;
    }
    let v = b[pos];
    proof {
        assert(b@.skip(pos as int)[0] == b@[pos as int]);
        assert(b@.skip(pos as int).skip(1) =~= b@.skip(pos + 1));
    }
    Some((v, pos + 1))
}

fn dx_bool(b: &Vec<u8>, pos: usize) -> (r: Option<(bool, usize)>)
    requires
        pos <= b@.len(),
    ensures
        match r {
            Some(vp) => dec_bool(b@.skip(pos as int)) == Some((vp.0, b@.skip(vp.1 as int)))
                && pos < vp.1 <= b@.len(),
            None => dec_bool(b@.skip(pos as int)) is None,
        },
{
    match dx_u8(b, pos) {
        Some((t, p2)) => {
            if t == 0 {
                Some((false, p2))
            } else if t == 1 {
                Some((true, p2))
            } else {
                None
            }
        },
        None => None,
    }
}

fn dx_opt_i64(b: &Vec<u8>, pos: usize) -> (r: Option<(Option<i64>, usize)>)
    requires
        pos <= b@.len(),
    ensures
        match r {
            Some(vp) => dec_opt_i64(b@.skip(pos as int)) == Some((vp.0, b@.skip(vp.1 as int)))
                && pos < vp.1 <= b@.len(),
            None => dec_opt_i64(b@.skip(pos as int)) is None,
        },
{
    match dx_u8(b, pos) {
        Some((t, p2)) => {
            if t == 0 {
                Some((None, p2))
            } else if t == 1 {
                match dx_i64(b, p2) {
                    Some((x, p3)) => Some((Some(x), p3)),
                    None => None,
                }
            } else {
                None
            }
        },
        None => None,
    }
}

fn dx_protocol(b: &Vec<u8>, pos: usize) -> (r: Option<(Protocol, usize)>)
    requires
        pos <= b@.len(),
    ensures
        match r {
            Some(vp) => dec_protocol(b@.skip(pos as int)) == Some((vp.0, b@.skip(vp.1 as int)))
                && pos < vp.1 <= b@.len(),
            None => dec_protocol(b@.skip(pos as int)) is None,
        },
{
    match dx_u8(b, pos) {
        Some((t, p2)) => match Protocol::from_tag(t) {
            Some(p) => Some((p, p2)),
            None => None,
        },
        None => None,
    }
}

fn dx_char(b: &Vec<u8>, pos: usize) -> (r: Option<(char, usize)>)
    requires
        pos <= b@.len(),
    ensures
        match r {
            Some(vp) => dec_char(b@.skip(pos as int)) == Some((vp.0, b@.skip(vp.1 as int)))
                && pos < vp.1 <= b@.len(),
            None => dec_char(b@.skip(pos as int)) is None,
        },
{
    if b.len() - pos < 4 {
        return None;
    }
    let sl = slice_subrange(b.as_slice(), pos, pos + 4);
    let v = u32_from_le_bytes(sl);
    proof {
        assert(b@.skip(pos as int).take(4) =~= b@.subrange(pos as int, pos + 4));
        assert(b@.skip(pos as int).skip(4) =~= b@.skip(pos + 4));
    }
    match char::from_u32(v) {
        Some(c) => {
            proof {
                char_u32_cast(c, v);
            }
            Some((c, pos + 4))
        },
        None => None,
    }
}

fn dx_str(b: &Vec<u8>, pos: usize) -> (r: Option<(String, usize)>)
    requires
        pos <= b@.len(),
    ensures
        match r {
            Some(vp) => dec_str(b@.skip(pos as int)) matches Some(sp) && sp.0 == vp.0@
                && sp.1 == b@.skip(vp.1 as int) && pos < vp.1 <= b@.len(),
            None => dec_str(b@.skip(pos as int)) is None,
        },
{
    let (n, p0) = match dx_u64(b, pos) {
        Some(x) => x,
        None => {
            return None;
        },
    };
    let mut cur = String::new();
    let mut k: u64 = 0;
    let mut p: usize = p0;
    while k < n
        invariant
            0 <= k <= n,
            pos < p <= b@.len(),
            cur@.len() == k,
            dec_u64(b@.skip(pos as int)) == Some((n, b@.skip(p0 as int))),
            match dec_chars((n - k) as nat, b@.skip(p as int)) {
                Some(t) => dec_chars(n as nat, b@.skip(p0 as int)) == Some((cur@ + t.0, t.1)),
                None => dec_chars(n as nat, b@.skip(p0 as int)) is None,
            },
        decreases n - k,
    {
        match dx_char(b, p) {
            Some((c, p2)) => {
                let ghost prev = cur@;
                cur.push(c);
                proof {
                    assert(dec_chars((n - k) as nat, b@.skip(p as int)) matches Some(t) ==> {
                        &&& t.0 == seq![c] + (match dec_chars(
                            (n - k - 1) as nat,
                            b@.skip(p2 as int),
                        ) {
                            Some(t2) => t2.0,
                            None => Seq::<char>::empty(),
                        })
                    });
                    assert(prev.push(c) =~= prev + seq![c]);
                    let dc = dec_chars((n - k - 1) as nat, b@.skip(p2 as int));
                    if dc is Some {
                        let t2 = dc->0;
                        assert((prev + seq![c]) + t2.0 =~= prev + (seq![c] + t2.0));
                    }
                }
                p = p2;
                k = k + 1;
            },
            None => {
                return None;
            },
        }
    }
    proof {
        assert(dec_chars(0, b@.skip(p as int)) == Some((
            Seq::<char>::empty(),
            b@.skip(p as int),
        )));
        assert(cur@ + Seq::<char>::empty() =~= cur@);
    }
    Some((cur, p))
}

#[verifier::rlimit(100)]
fn dx_mirror(b: &Vec<u8>, pos: usize) -> (r: Option<(Mirror, usize)>)
    requires
        pos <= b@.len(),
    ensures
        match r {
            Some(vp) => dec_mirror(b@.skip(pos as int)) == Some((
                mirror_model(vp.0),
                b@.skip(vp.1 as int),
            )) && pos < vp.1 <= b@.len(),
            None => dec_mirror(b@.skip(pos as int)) is None,
        },
{
    let (url, p1) = match dx_str(b, pos) {
        Some(x) => x,
        None => {
            return None;
        },
    };
    let (protocol, p2) = match dx_protocol(b, p1) {
        Some(x) => x,
        None => {
            return None;
        },
    };
    let (last_sync, p3) = match dx_opt_i64(b, p2) {
        Some(x) => x,
        None => {
            return None;
        },
    };
    let (completion_pct, p4) = match dx_u64(b, p3) {
        Some(x) => x,
        None => {
            return None;
        },
    };
    let (delay, p5) = match dx_opt_i64(b, p4) {
        Some(x) => x,
        None => {
            return None;
        },
    };
    let (duration_avg, p6) = match dx_opt_i64(b, p5) {
        Some(x) => x,
        None => {
            return None;
        },
    };
    let (duration_stddev, p7) = match dx_opt_i64(b, p6) {
        Some(x) => x,
        None => {
            return None;
        },
    };
    let (score, p8) = match dx_opt_i64(b, p7) {
        Some(x) => x,
        None => {
            return None;
        },
    };
    let (active, p9) = match dx_bool(b, p8) {
        Some(x) => x,
        None => {
            return None;
        },
    };
    let (country, p10) = match dx_str(b, p9) {
        Some(x) => x,
        None => {
            return None;
        },
    };
    let (country_code, p11) = match dx_str(b, p10) {
        Some(x) => x,
        None => {
            return None;
        },
    };
    let (isos, p12) = match dx_bool(b, p11) {
        Some(x) => x,
        None => {
            return None;
        },
    };
    let (ipv4, p13) = match dx_bool(b, p12) {
        Some(x) => x,
        None => {
            return None;
        },
    };
    let (ipv6, p14) = match dx_bool(b, p13) {
        Some(x) => x,
        None => {
            return None;
        },
    };
    let (details, p15) = match dx_str(b, p14) {
        Some(x) => x,
        None => {
            return None;
        },
    };
    let m = Mirror {
        url,
        protocol,
        last_sync,
        completion_pct,
        delay,
        duration_avg,
        duration_stddev,
        score,
        active,
        country,
        country_code,
        isos,
        ipv4,
        ipv6,
        details,
    };
    Some((m, p15))
}

fn dx_mirrors(b: &Vec<u8>, pos: usize, n: u64) -> (r: Option<(Vec<Mirror>, usize)>)
    requires
        pos <= b@.len(),
    ensures
        match r {
            Some(vp) => dec_mirrors(n as nat, b@.skip(pos as int)) matches Some(sp) && sp.0
                == vp.0@.map_values(|m: Mirror| mirror_model(m)) && sp.1 == b@.skip(
                vp.1 as int,
            ) && pos <= vp.1 <= b@.len(),
            None => dec_mirrors(n as nat, b@.skip(pos as int)) is None,
        },
{
    let mut out: Vec<Mirror> = Vec::new();
    let mut k: u64 = 0;
    let mut p: usize = pos;
    proof {
        assert(out@.map_values(|m: Mirror| mirror_model(m)) =~= Seq::<MirrorModel>::empty());
    }
    while k < n
        invariant
            0 <= k <= n,
            pos <= p <= b@.len(),
            out@.len() == k,
            match dec_mirrors((n - k) as nat, b@.skip(p as int)) {
                Some(t) => dec_mirrors(n as nat, b@.skip(pos as int)) == Some((
                    out@.map_values(|m: Mirror| mirror_model(m)) + t.0,
                    t.1,
                )),
                None => dec_mirrors(n as nat, b@.skip(pos as int)) is None,
            },
        decreases n - k,
    {
        match dx_mirror(b, p) {
            Some((m, p2)) => {
                let ghost prev = out@.map_values(|mm: Mirror| mirror_model(mm));
                out.push(m);
                proof {
                    assert(out@.map_values(|mm: Mirror| mirror_model(mm)) =~= prev.push(
                        mirror_model(m),
                    ));
                    assert(prev.push(mirror_model(m)) =~= prev + seq![mirror_model(m)]);
                    let dm = dec_mirrors((n - k - 1) as nat, b@.skip(p2 as int));
                    if dm is Some {
                        let t2 = dm->0;
                        assert((prev + seq![mirror_model(m)]) + t2.0 =~= prev + (seq![
                            mirror_model(m),
                        ] + t2.0));
                    }
                }
                p = p2;
                k = k + 1;
            },
            None => {
                return None;
            },
        }
    }
    proof {
        assert(dec_mirrors(0, b@.skip(p as int)) == Some((
            Seq::<MirrorModel>::empty(),
            b@.skip(p as int),
        )));
        assert(out@.map_values(|m: Mirror| mirror_model(m)) + Seq::<MirrorModel>::empty()
            =~= out@.map_values(|m: Mirror| mirror_model(m)));
    }
    Some((out, p))
}

/// Reads a document back from a cache file's bytes: succeeds exactly on a
/// complete, well-formed encoding, and then returns the encoded document.
pub fn decode_status(b: &Vec<u8>) -> (r: Option<MirrorStatus>)
    ensures
        match r {
            Some(st) => dec_status(b@) == Some((status_model(st), b@.skip(b@.len() as int)))
                && b@.skip(b@.len() as int).len() == 0,
            None => dec_status(b@) matches Some(p) ==> p.1.len() != 0,
        },
{
    proof {
        assert(b@.skip(0) =~= b@);
    }
    let (cutoff, p1) = match dx_i64(b, 0) {
        Some(x) => x,
        None => {
            return None;
        },
    };
    let (last_check, p2) = match dx_str(b, p1) {
        Some(x) => x,
        None => {
            return None;
        },
    };
    let (num_checks, p3) = match dx_i64(b, p2) {
        Some(x) => x,
        None => {
            return None;
        },
    };
    let (check_frequency, p4) = match dx_i64(b, p3) {
        Some(x) => x,
        None => {
            return None;
        },
    };
    let (version, p5) = match dx_i64(b, p4) {
        Some(x) => x,
        None => {
            return None;
        },
    };
    let (n, p6) = match dx_u64(b, p5) {
        Some(x) => x,
        None => {
            return None;
        },
    };
    let (urls, p7) = match dx_mirrors(b, p6, n) {
        Some(x) => x,
        None => {
            return None;
        },
    };
    if p7 != b.len() {
        return None;
    }
    let st = MirrorStatus { cutoff, last_check, num_checks, check_frequency, version, urls };
    Some(st)
}

pub proof fn lemma_dec_u64_extend(b: Seq<u8>, ext: Seq<u8>)
    requires
        dec_u64(b) is Some,
    ensures
        ({
            let vp = dec_u64(b)->0;
            dec_u64(b + ext) == Some((vp.0, vp.1 + ext))
        }),
{
    assert((b + ext).take(8) =~= b.take(8));
    assert((b + ext).skip(8) =~= b.skip(8) + ext);
}

pub proof fn lemma_dec_i64_extend(b: Seq<u8>, ext: Seq<u8>)
    requires
        dec_i64(b) is Some,
    ensures
        ({
            let vp = dec_i64(b)->0;
            dec_i64(b + ext) == Some((vp.0, vp.1 + ext))
        }),
{
    lemma_dec_u64_extend(b, ext);
}

pub proof fn lemma_dec_u8_extend(b: Seq<u8>, ext: Seq<u8>)
    requires
        dec_u8(b) is Some,
    ensures
        ({
            let vp = dec_u8(b)->0;
            dec_u8(b + ext) == Some((vp.0, vp.1 + ext))
        }),
{
    assert((b + ext)[0] == b[0]);
    assert((b + ext).skip(1) =~= b.skip(1) + ext);
}

pub proof fn lemma_dec_bool_extend(b: Seq<u8>, ext: Seq<u8>)
    requires
        dec_bool(b) is Some,
    ensures
        ({
            let vp = dec_bool(b)->0;
            dec_bool(b + ext) == Some((vp.0, vp.1 + ext))
        }),
{
    lemma_dec_u8_extend(b, ext);
}

pub proof fn lemma_dec_char_extend(b: Seq<u8>, ext: Seq<u8>)
    requires
        dec_char(b) is Some,
    ensures
        ({
            let vp = dec_char(b)->0;
            dec_char(b + ext) == Some((vp.0, vp.1 + ext))
        }),
{
    assert((b + ext).take(4) =~= b.take(4));
    assert((b + ext).skip(4) =~= b.skip(4) + ext);
}

pub proof fn lemma_dec_opt_i64_extend(b: Seq<u8>, ext: Seq<u8>)
    requires
        dec_opt_i64(b) is Some,
    ensures
        ({
            let vp = dec_opt_i64(b)->0;
            dec_opt_i64(b + ext) == Some((vp.0, vp.1 + ext))
        }),
{
    lemma_dec_u8_extend(b, ext);
    let (t, r) = dec_u8(b)->0;
    if t == 1 {
        lemma_dec_i64_extend(r, ext);
    }
}

pub proof fn lemma_dec_protocol_extend(b: Seq<u8>, ext: Seq<u8>)
    requires
        dec_protocol(b) is Some,
    ensures
        ({
            let vp = dec_protocol(b)->0;
            dec_protocol(b + ext) == Some((vp.0, vp.1 + ext))
        }),
{
    lemma_dec_u8_extend(b, ext);
}

pub proof fn lemma_dec_chars_extend(n: nat, b: Seq<u8>, ext: Seq<u8>)
    requires
        dec_chars(n, b) is Some,
    ensures
        ({
            let vp = dec_chars(n, b)->0;
            dec_chars(n, b + ext) == Some((vp.0, vp.1 + ext))
        }),
    decreases n,
{
    if n == 0 {
    } else {
        lemma_dec_char_extend(b, ext);
        let (c, r) = dec_char(b)->0;
        lemma_dec_chars_extend((n - 1) as nat, r, ext);
    }
}

pub proof fn lemma_dec_str_extend(b: Seq<u8>, ext: Seq<u8>)
    requires
        dec_str(b) is Some,
    ensures
        ({
            let vp = dec_str(b)->0;
            dec_str(b + ext) == Some((vp.0, vp.1 + ext))
        }),
{
    lemma_dec_u64_extend(b, ext);
    let (n, r) = dec_u64(b)->0;
    lemma_dec_chars_extend(n as nat, r, ext);
}

#[verifier::rlimit(100)]
pub proof fn lemma_dec_mirror_extend(b: Seq<u8>, ext: Seq<u8>)
    requires
        dec_mirror(b) is Some,
    ensures
        ({
            let vp = dec_mirror(b)->0;
            dec_mirror(b + ext) == Some((vp.0, vp.1 + ext))
        }),
{
    let (url, b1) = dec_str(b)->0;
    lemma_dec_str_extend(b, ext);
    assert(dec_str(b + ext) == Some((url, b1 + ext)));
    let (protocol, b2) = dec_protocol(b1)->0;
    lemma_dec_protocol_extend(b1, ext);
    assert(dec_protocol(b1 + ext) == Some((protocol, b2 + ext)));
    let (last_sync, b3) = dec_opt_i64(b2)->0;
    lemma_dec_opt_i64_extend(b2, ext);
    assert(dec_opt_i64(b2 + ext) == Some((last_sync, b3 + ext)));
    let (completion_pct, b4) = dec_u64(b3)->0;
    lemma_dec_u64_extend(b3, ext);
    assert(dec_u64(b3 + ext) == Some((completion_pct, b4 + ext)));
    let (delay, b5) = dec_opt_i64(b4)->0;
    lemma_dec_opt_i64_extend(b4, ext);
    assert(dec_opt_i64(b4 + ext) == Some((delay, b5 + ext)));
    let (duration_avg, b6) = dec_opt_i64(b5)->0;
    lemma_dec_opt_i64_extend(b5, ext);
    assert(dec_opt_i64(b5 + ext) == Some((duration_avg, b6 + ext)));
    let (duration_stddev, b7) = dec_opt_i64(b6)->0;
    lemma_dec_opt_i64_extend(b6, ext);
    assert(dec_opt_i64(b6 + ext) == Some((duration_stddev, b7 + ext)));
    let (score, b8) = dec_opt_i64(b7)->0;
    lemma_dec_opt_i64_extend(b7, ext);
    assert(dec_opt_i64(b7 + ext) == Some((score, b8 + ext)));
    let (active, b9) = dec_bool(b8)->0;
    lemma_dec_bool_extend(b8, ext);
    assert(dec_bool(b8 + ext) == Some((active, b9 + ext)));
    let (country, b10) = dec_str(b9)->0;
    lemma_dec_str_extend(b9, ext);
    assert(dec_str(b9 + ext) == Some((country, b10 + ext)));
    let (country_code, b11) = dec_str(b10)->0;
    lemma_dec_str_extend(b10, ext);
    assert(dec_str(b10 + ext) == Some((country_code, b11 + ext)));
    let (isos, b12) = dec_bool(b11)->0;
    lemma_dec_bool_extend(b11, ext);
    assert(dec_bool(b11 + ext) == Some((isos, b12 + ext)));
    let (ipv4, b13) = dec_bool(b12)->0;
    lemma_dec_bool_extend(b12, ext);
    assert(dec_bool(b12 + ext) == Some((ipv4, b13 + ext)));
    let (ipv6, b14) = dec_bool(b13)->0;
    lemma_dec_bool_extend(b13, ext);
    assert(dec_bool(b13 + ext) == Some((ipv6, b14 + ext)));
    let (details, b15) = dec_str(b14)->0;
    lemma_dec_str_extend(b14, ext);
    assert(dec_str(b14 + ext) == Some((details, b15 + ext)));
}

pub proof fn lemma_dec_mirrors_extend(n: nat, b: Seq<u8>, ext: Seq<u8>)
    requires
        dec_mirrors(n, b) is Some,
    ensures
        ({
            let vp = dec_mirrors(n, b)->0;
            dec_mirrors(n, b + ext) == Some((vp.0, vp.1 + ext))
        }),
    decreases n,
{
    if n == 0 {
    } else {
        lemma_dec_mirror_extend(b, ext);
        let (m, r) = dec_mirror(b)->0;
        lemma_dec_mirrors_extend((n - 1) as nat, r, ext);
    }
}

pub proof fn lemma_dec_status_extend(b: Seq<u8>, ext: Seq<u8>)
    requires
        dec_status(b) is Some,
    ensures
        ({
            let vp = dec_status(b)->0;
            dec_status(b + ext) == Some((vp.0, vp.1 + ext))
        }),
{
    let (cutoff, b1) = dec_i64(b)->0;
    lemma_dec_i64_extend(b, ext);
    assert(dec_i64(b + ext) == Some((cutoff, b1 + ext)));
    let (last_check, b2) = dec_str(b1)->0;
    lemma_dec_str_extend(b1, ext);
    assert(dec_str(b1 + ext) == Some((last_check, b2 + ext)));
    let (num_checks, b3) = dec_i64(b2)->0;
    lemma_dec_i64_extend(b2, ext);
    assert(dec_i64(b2 + ext) == Some((num_checks, b3 + ext)));
    let (check_frequency, b4) = dec_i64(b3)->0;
    lemma_dec_i64_extend(b3, ext);
    assert(dec_i64(b3 + ext) == Some((check_frequency, b4 + ext)));
    let (version, b5) = dec_i64(b4)->0;
    lemma_dec_i64_extend(b4, ext);
    assert(dec_i64(b4 + ext) == Some((version, b5 + ext)));
    let (n, b6) = dec_u64(b5)->0;
    lemma_dec_u64_extend(b5, ext);
    assert(dec_u64(b5 + ext) == Some((n, b6 + ext)));
    let (urls, b7) = dec_mirrors(n as nat, b6)->0;
    lemma_dec_mirrors_extend(n as nat, b6, ext);
    assert(dec_mirrors(n as nat, b6 + ext) == Some((urls, b7 + ext)));
}

/// A torn cache file is never read as a document: no strict prefix of an
/// encoding decodes completely, so a partial in-place write is rejected
/// rather than returned as a valid document.
pub proof fn lemma_no_partial_decode(sm: StatusModel, p: Seq<u8>)
    requires
        wf_status_model(sm),
        p.len() < enc_status(sm).len(),
        p == enc_status(sm).take(p.len() as int),
    ensures
        dec_status(p) matches Some(q) ==> q.1.len() != 0,
{
    let d = dec_status(p);
    if d is Some {
        let q = d->0;
        if q.1.len() == 0 {
            let ext = enc_status(sm).skip(p.len() as int);
            assert(p + ext =~= enc_status(sm));
            lemma_dec_status_extend(p, ext);
            lemma_status_round_trip(sm);
            assert(dec_status(enc_status(sm)) == Some((q.0, q.1 + ext)));
            assert(q.1 + ext =~= ext);
            assert(ext.len() > 0);
            assert(false);
        }
    }
}

} // verus!
