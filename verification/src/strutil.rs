//! Character and string helpers: ASCII case folding, lexicographic order on
//! character sequences, and comma splitting of list-valued arguments.

use vstd::prelude::*;

verus! {

/// Relies on std's char::from_u32: it returns `Some` exactly for Unicode
/// scalar values (everything up to 0x10FFFF except the surrogate range),
/// and the returned char is the one with that scalar value.
pub assume_specification[ char::from_u32 ](i: u32) -> (r: Option<char>)
    ensures
        (r is Some) == vstd::utf8::is_scalar(i),
        r is Some ==> r->0 as u32 == i,
;

/// Relies on std's String::push: it appends the given character to the end
/// of the string.
pub assume_specification[ String::push ](s: &mut String, ch: char)
    ensures
        final(s)@ == old(s)@.push(ch),
;

/// ASCII-only lower casing of one character; everything outside 'A'..'Z'
/// is left as it is.
pub open spec fn lower_char(c: char) -> char {
    if 'A' <= c && c <= 'Z' {
        ((c as u32) + 32) as char
    } else {
        c
    }
}

/// ASCII-only lower casing of a character sequence.
pub open spec fn lower_seq(s: Seq<char>) -> Seq<char> {
    s.map_values(|c: char| lower_char(c))
}

/// Case-insensitive equality of two character sequences (ASCII folding).
pub open spec fn ci_eq(a: Seq<char>, b: Seq<char>) -> bool {
    lower_seq(a) == lower_seq(b)
}

pub fn to_lower_char(c: char) -> (r: char)
    ensures
        r == lower_char(c),
{
    if 'A' <= c && c <= 'Z' {
        let u: u32 = (c as u32) + 32;
        proof {
            vstd::utf8::char_is_scalar(c);
        }
        match char::from_u32(u) {
            Some(l) => {
                proof {
                    vstd::utf8::char_u32_cast(l, u);
                }
                l
            },
            None => {
                proof {
                    assert(vstd::utf8::is_scalar(u));
                }
                c
            },
        }
    } else {
        c
    }
}

/// Case-insensitive equality of two strings, folding ASCII letters only.
pub fn eq_ci(a: &str, b: &str) -> (r: bool)
    ensures
        r == ci_eq(a@, b@),
{
    let alen = a.unicode_len();
    let blen = b.unicode_len();
    if alen != blen {
        assert(lower_seq(a@).len() != lower_seq(b@).len());
        return false;
    }
    let mut i: usize = 0;
    while i < alen
        invariant
            i <= alen,
            alen == a@.len(),
            alen == b@.len(),
            forall|k: int| 0 <= k < i ==> lower_char(a@[k]) == lower_char(b@[k]),
        decreases alen - i,
    {
        let ca = to_lower_char(a.get_char(i));
        let cb = to_lower_char(b.get_char(i));
        if ca != cb {
            assert(lower_seq(a@)[i as int] != lower_seq(b@)[i as int]);
            return false;
        }
        i += 1;
    }
    assert(lower_seq(a@) =~= lower_seq(b@));
    true
}

/// Strict lexicographic order on character sequences, by scalar value; a
/// proper prefix comes before any of its extensions.
pub open spec fn lex_lt(a: Seq<char>, b: Seq<char>) -> bool
    decreases a.len(),
{
    if b.len() == 0 {
        false
    } else if a.len() == 0 {
        true
    } else if a[0] != b[0] {
        (a[0] as u32) < (b[0] as u32)
    } else {
        lex_lt(a.drop_first(), b.drop_first())
    }
}

/// Non-strict lexicographic order.
pub open spec fn lex_leq(a: Seq<char>, b: Seq<char>) -> bool {
    lex_lt(a, b) || a == b
}

/// Skipping an equal prefix does not change the lexicographic comparison.
pub proof fn lemma_lex_lt_skip(a: Seq<char>, b: Seq<char>, i: int)
    requires
        0 <= i <= a.len(),
        0 <= i <= b.len(),
        forall|k: int| 0 <= k < i ==> a[k] == b[k],
    ensures
        lex_lt(a, b) == lex_lt(a.skip(i), b.skip(i)),
    decreases i,
{
    if i > 0 {
        assert(a.len() > 0 && b.len() > 0 && a[0] == b[0]);
        assert(a.drop_first().skip(i - 1) =~= a.skip(i));
        assert(b.drop_first().skip(i - 1) =~= b.skip(i));
        lemma_lex_lt_skip(a.drop_first(), b.drop_first(), i - 1);
    } else {
        assert(a.skip(0) =~= a);
        assert(b.skip(0) =~= b);
    }
}

/// Exactly one of `a < b`, `a == b`, `b < a` holds.
pub proof fn lemma_lex_trichotomy(a: Seq<char>, b: Seq<char>)
    ensures
        lex_lt(a, b) || lex_lt(b, a) || a == b,
        lex_lt(a, b) ==> !lex_lt(b, a) && a != b,
    decreases a.len() + b.len(),
{
    if a.len() == 0 && b.len() == 0 {
        assert(a =~= b);
    } else if a.len() > 0 && b.len() > 0 && a[0] == b[0] {
        lemma_lex_trichotomy(a.drop_first(), b.drop_first());
        if a.drop_first() == b.drop_first() {
            assert forall|k: int| 0 <= k < a.len() implies a[k] == b[k] by {
                if k > 0 {
                    assert(a.drop_first()[k - 1] == b.drop_first()[k - 1]);
                }
            }
            assert(a =~= b);
        }
        if a == b {
            assert(a.drop_first() =~= b.drop_first());
        }
    } else if a.len() > 0 && b.len() > 0 {
        vstd::utf8::char_u32_cast(a[0], a[0] as u32);
        vstd::utf8::char_u32_cast(b[0], b[0] as u32);
        assert((a[0] as u32) != (b[0] as u32));
    }
}

/// The strict lexicographic order is transitive.
pub proof fn lemma_lex_lt_trans(a: Seq<char>, b: Seq<char>, c: Seq<char>)
    requires
        lex_lt(a, b),
        lex_lt(b, c),
    ensures
        lex_lt(a, c),
    decreases a.len() + b.len() + c.len(),
{
    if b.len() == 0 {
        // lex_lt(a, b) is false; nothing to do
    } else if a.len() == 0 {
        // c.len() > 0 since lex_lt(b, c) and b nonempty
    } else {
        // a, b, c all nonempty here (lex_lt(b, c) forces c nonempty)
        if a[0] == b[0] && b[0] == c[0] {
            lemma_lex_lt_trans(a.drop_first(), b.drop_first(), c.drop_first());
        } else {
            vstd::utf8::char_u32_cast(a[0], a[0] as u32);
            vstd::utf8::char_u32_cast(b[0], b[0] as u32);
            vstd::utf8::char_u32_cast(c[0], c[0] as u32);
        }
    }
}

/// Strict lexicographic comparison of two strings.
pub fn str_lt(a: &str, b: &str) -> (r: bool)
    ensures
        r == lex_lt(a@, b@),
{
    let alen = a.unicode_len();
    let blen = b.unicode_len();
    let mut i: usize = 0;
    while i < alen && i < blen
        invariant
            i <= alen,
            i <= blen,
            alen == a@.len(),
            blen == b@.len(),
            forall|k: int| 0 <= k < i ==> a@[k] == b@[k],
        decreases alen - i,
    {
        let ca = a.get_char(i);
        let cb = b.get_char(i);
        if ca != cb {
            proof {
                lemma_lex_lt_skip(a@, b@, i as int);
                assert(a@.skip(i as int)[0] == ca);
                assert(b@.skip(i as int)[0] == cb);
            }
            return (ca as u32) < (cb as u32);
        }
        i += 1;
    }
    proof {
        lemma_lex_lt_skip(a@, b@, if alen <= blen { alen as int } else { blen as int });
    }
    alen < blen
}

/// Index of the first comma in `s`, or `s.len()` when there is none.
pub open spec fn first_comma(s: Seq<char>) -> int
    decreases s.len(),
{
    if s.len() == 0 {
        0
    } else if s[0] == ',' {
        0
    } else {
        1 + first_comma(s.drop_first())
    }
}

/// The first comma is found at `i` when the prefix before `i` is comma-free
/// and `i` is the end or a comma.
pub proof fn lemma_first_comma_at(s: Seq<char>, i: int)
    requires
        0 <= i <= s.len(),
        forall|k: int| 0 <= k < i ==> s[k] != ',',
        i < s.len() ==> s[i] == ',',
    ensures
        first_comma(s) == i,
    decreases i,
{
    if i > 0 {
        lemma_first_comma_at(s.drop_first(), i - 1);
    }
}

/// The comma-separated fields of `s`, in order; an empty input yields one
/// empty field, as splitting on a separator always yields one more field
/// than there are separators.
pub open spec fn split_commas(s: Seq<char>) -> Seq<Seq<char>>
    decreases s.len(),
{
    let i = first_comma(s);
    if i < 0 || i >= s.len() {
        seq![s]
    } else {
        seq![s.take(i)] + split_commas(s.skip(i + 1))
    }
}

/// All fields of all elements of `args`, in order.
pub open spec fn split_all(args: Seq<Seq<char>>) -> Seq<Seq<char>>
    decreases args.len(),
{
    if args.len() == 0 {
        Seq::empty()
    } else {
        split_commas(args[0]) + split_all(args.drop_first())
    }
}

/// Splits one string at its commas.
pub fn split_comma_str(s: &str) -> (r: Vec<String>)
    ensures
        r.deep_view() == split_commas(s@),
{
    let len = s.unicode_len();
    let mut out: Vec<String> = Vec::new();
    let mut cur: String = String::new();
    let mut start: usize = 0;
    let mut i: usize = 0;
    proof {
        assert(out.deep_view() =~= Seq::<Seq<char>>::empty());
        assert(s@.skip(0) =~= s@);
        assert(cur@ =~= s@.subrange(0, 0));
        assert(out.deep_view() + split_commas(s@) =~= split_commas(s@));
    }
    while i < len
        invariant
            0 <= start <= i <= len,
            len == s@.len(),
            cur@ == s@.subrange(start as int, i as int),
            forall|k: int| start <= k < i ==> s@[k] != ',',
            split_commas(s@) == out.deep_view() + split_commas(s@.skip(start as int)),
        decreases len - i,
    {
        let c = s.get_char(i);
        if c == ',' {
            proof {
                let tail = s@.skip(start as int);
                assert(forall|k: int|
                    0 <= k < i - start ==> tail[k] == s@[k + start] && tail[k] != ',');
                assert(tail[i - start] == ',');
                lemma_first_comma_at(tail, i - start);
                assert(tail.take(i - start) =~= cur@);
                assert(tail.skip(i - start + 1) =~= s@.skip(i + 1));
                assert(split_commas(tail) == seq![cur@] + split_commas(s@.skip(i + 1)));
                assert((out.deep_view() + seq![cur@]) + split_commas(s@.skip(i + 1))
                    =~= out.deep_view() + split_commas(tail));
            }
            out.push(cur);
            cur = String::new();
            start = i + 1;
            proof {
                assert(cur@ =~= s@.subrange(start as int, start as int));
            }
        } else {
            cur.push(c);
            proof {
                assert(s@.subrange(start as int, i as int).push(s@[i as int])
                    =~= s@.subrange(start as int, i + 1));
            }
        }
        i += 1;
    }
    proof {
        let tail = s@.skip(start as int);
        assert(forall|k: int|
            0 <= k < len - start ==> tail[k] == s@[k + start] && tail[k] != ',');
        lemma_first_comma_at(tail, len - start);
        assert(first_comma(tail) == tail.len());
        assert(split_commas(tail) == seq![tail]);
        assert(tail =~= cur@);
    }
    out.push(cur);
    proof {
        assert(out.deep_view() =~= split_commas(s@));
    }
    out
}

/// Replaces each argument by its comma-separated fields, keeping the order,
/// so that list options may be given either repeated or comma-joined.
pub fn split_list_args(args: Vec<String>) -> (r: Vec<String>)
    ensures
        r.deep_view() == split_all(args.deep_view()),
{
    let mut out: Vec<String> = Vec::new();
    let mut rest = args;
    let ghost all: Seq<Seq<char>> = rest.deep_view();
    let ghost done: Seq<Seq<char>> = Seq::empty();
    while rest.len() > 0
        invariant
            all == done + rest.deep_view(),
            out.deep_view() == split_all(done),
            split_all(all) == split_all(done) + split_all(rest.deep_view()),
        decreases rest.len(),
    {
        let ghost prev_rest = rest.deep_view();
        let arg = rest.remove(0);
        let ghost prev_done = done;
        proof {
            done = done.push(arg@);
            assert(prev_rest.drop_first() =~= rest.deep_view());
            assert(prev_rest[0] == arg@);
            assert(all =~= done + rest.deep_view());
        }
        let mut fields = split_comma_str(arg.as_str());
        out.append(&mut fields);
        proof {
            lemma_split_all_push(prev_done, arg@);
            assert(prev_rest[0] == arg@);
            assert(split_all(prev_rest) == split_commas(arg@) + split_all(
                prev_rest.drop_first(),
            ));
            assert(split_all(all) =~= split_all(done) + split_all(rest.deep_view()));
        }
    }
    proof {
        assert(split_all(rest.deep_view()) =~= Seq::<Seq<char>>::empty());
        assert(all =~= done);
        assert(out.deep_view() =~= split_all(all));
    }
    out
}

/// Splitting `args.push(x)` appends the fields of `x`.
pub proof fn lemma_split_all_push(args: Seq<Seq<char>>, x: Seq<char>)
    ensures
        split_all(args.push(x)) == split_all(args) + split_commas(x),
    decreases args.len(),
{
    if args.len() == 0 {
        let p = args.push(x);
        assert(p.drop_first() =~= Seq::<Seq<char>>::empty());
        assert(p[0] == x);
        assert(split_all(p) == split_commas(p[0]) + split_all(p.drop_first()));
        assert(split_all(Seq::<Seq<char>>::empty()) == Seq::<Seq<char>>::empty());
        assert(split_all(p) =~= split_commas(x));
        assert(split_all(args) + split_commas(x) =~= split_commas(x));
    } else {
        lemma_split_all_push(args.drop_first(), x);
        assert(args.push(x).drop_first() =~= args.drop_first().push(x));
        assert(args.push(x)[0] == args[0]);
        assert(split_all(args.push(x)) =~= split_commas(args[0]) + split_all(
            args.drop_first().push(x),
        ));
        assert(split_commas(args[0]) + (split_all(args.drop_first()) + split_commas(x))
            =~= split_all(args) + split_commas(x));
    }
}

/// Exact equality of two strings, character by character.
pub fn str_eq(a: &str, b: &str) -> (r: bool)
    ensures
        r == (a@ == b@),
{
    let alen = a.unicode_len();
    let blen = b.unicode_len();
    if alen != blen {
        return false;
    }
    let mut i: usize = 0;
    while i < alen
        invariant
            i <= alen,
            alen == a@.len(),
            alen == b@.len(),
            forall|k: int| 0 <= k < i ==> a@[k] == b@[k],
        decreases alen - i,
    {
        if a.get_char(i) != b.get_char(i) {
            return false;
        }
        i += 1;
    }
    assert(a@ =~= b@);
    true
}

} // verus!
