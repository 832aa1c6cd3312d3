//! Host name resolution decisions: how a host name is normalised, how the A
//! records of a DNS-over-HTTPS answer become a list of distinct addresses,
//! the cache of resolved names, and the order in which the resolvers are
//! tried.

use crate::text::{
    is_white_space, trim_end, trim_start, lemma_trim_start,
    push_decimal, str_chars, trim, trim_bounds, trim_end_char, trim_end_char_bound, trim_start_char,
    decimal, push_char,
};
use vstd::prelude::*;

verus! {

// ─── Addresses ─────────────────────────────────────────────────────────────

/// An IP address.
#[derive(Clone, Copy, Debug, PartialEq, Eq, Structural)]
pub enum IpAddress {
    V4(u8, u8, u8, u8),
    V6(u16, u16, u16, u16, u16, u16, u16, u16),
}

/// `ips` with `ip` added at the end unless it is there already.
pub open spec fn spec_push_unique(ips: Seq<IpAddress>, ip: IpAddress) -> Seq<IpAddress> {
    if ips.contains(ip) {
        ips
    } else {
        ips.push(ip)
    }
}

/// No address occurs twice in `ips`.
pub open spec fn distinct(ips: Seq<IpAddress>) -> bool {
    forall|i: int, j: int| 0 <= i < j < ips.len() ==> ips[i] != ips[j]
}

/// Adds `ip` at the end of `ips` unless it is there already.
pub fn push_unique(ips: &mut Vec<IpAddress>, ip: IpAddress)
    ensures
        final(ips)@ == spec_push_unique(old(ips)@, ip),
{
    let mut i: usize = 0;
    while i < ips.len()
        invariant
            i <= ips@.len(),
            ips@ == old(ips)@,
            forall|j: int| 0 <= j < i ==> ips@[j] != ip,
        decreases ips@.len() - i,
    {
        if ips[i] == ip {
            assert(ips@.contains(ip));
            return;
        }
        i = i + 1;
    }
    ips.push(ip);
}

/// Adding an address keeps a list free of repetitions, and the address is in
/// the list afterwards; adding it a second time changes nothing.
pub proof fn lemma_push_unique(ips: Seq<IpAddress>, ip: IpAddress)
    requires
        distinct(ips),
    ensures
        distinct(spec_push_unique(ips, ip)),
        spec_push_unique(ips, ip).contains(ip),
        spec_push_unique(spec_push_unique(ips, ip), ip) == spec_push_unique(ips, ip),
        forall|a: IpAddress| ips.contains(a) ==> spec_push_unique(ips, ip).contains(a),
{
    let r = spec_push_unique(ips, ip);
    if !ips.contains(ip) {
        assert(r[ips.len() as int] == ip);
        assert forall|a: IpAddress| ips.contains(a) implies r.contains(a) by {
            let k = choose|k: int| 0 <= k < ips.len() && ips[k] == a;
            assert(r[k] == a);
        }
    } else {
    }
}

/// `ips` with the repetitions left out, first occurrences kept in order.
pub open spec fn dedup(ips: Seq<IpAddress>) -> Seq<IpAddress>
    decreases ips.len(),
{
    if ips.len() == 0 {
        Seq::empty()
    } else {
        spec_push_unique(dedup(ips.drop_last()), ips.last())
    }
}

/// The distinct addresses of `ips`, first occurrences kept in order.
pub fn dedup_addresses(ips: &Vec<IpAddress>) -> (r: Vec<IpAddress>)
    ensures
        r@ == dedup(ips@),
{
    let mut r: Vec<IpAddress> = Vec::new();
    let mut i: usize = 0;
    while i < ips.len()
        invariant
            i <= ips@.len(),
            r@ == dedup(ips@.take(i as int)),
        decreases ips@.len() - i,
    {
        assert(ips@.take(i + 1).drop_last() =~= ips@.take(i as int));
        push_unique(&mut r, ips[i]);
        i = i + 1;
    }
    assert(ips@.take(ips@.len() as int) =~= ips@);
    r
}

/// A deduplicated list holds no address twice.
pub proof fn lemma_dedup_distinct(ips: Seq<IpAddress>)
    ensures
        distinct(dedup(ips)),
        forall|a: IpAddress| ips.contains(a) <==> dedup(ips).contains(a),
    decreases ips.len(),
{
    if ips.len() > 0 {
        lemma_dedup_distinct(ips.drop_last());
        lemma_push_unique(dedup(ips.drop_last()), ips.last());
        let d = dedup(ips);
        assert forall|a: IpAddress| ips.contains(a) <==> d.contains(a) by {
            if ips.contains(a) {
                let k = choose|k: int| 0 <= k < ips.len() && ips[k] == a;
                if k < ips.len() - 1 {
                    assert(ips.drop_last()[k] == a);
                    assert(ips.drop_last().contains(a));
                    assert(dedup(ips.drop_last()).contains(a));
                } else {
                    assert(a == ips.last());
                }
                assert(d.contains(a));
            }
            if d.contains(a) {
                if a != ips.last() {
                    let dp = dedup(ips.drop_last());
                    assert(dp.contains(a)) by {
                        if !dp.contains(ips.last()) {
                            assert(d == dp.push(ips.last()));
                            let k = choose|k: int| 0 <= k < d.len() && d[k] == a;
                            if k == dp.len() {
                                assert(d[k] == ips.last());
                            }
                            assert(dp[k] == a);
                        }
                    }
                    assert(ips.drop_last().contains(a));
                    let k2 = choose|k: int| 0 <= k < ips.drop_last().len() && ips.drop_last()[k] == a;
                    assert(ips[k2] == a);
                } else {
                    assert(ips[ips.len() - 1] == a);
                }
            }
        }
    }
}

// ─── Host names ────────────────────────────────────────────────────────────

/// `c` with an ASCII upper-case letter mapped to lower case.
pub open spec fn ascii_lower_char(c: char) -> char {
    if 'A' <= c <= 'Z' {
        ((c as u32) + 32) as char
    } else {
        c
    }
}

/// `c` with an ASCII lower-case letter mapped to upper case.
pub open spec fn ascii_upper_char(c: char) -> char {
    if 'a' <= c <= 'z' {
        ((c as u32) - 32) as char
    } else {
        c
    }
}

/// `s` with its ASCII letters in upper case (`str::to_ascii_uppercase`).
pub open spec fn ascii_upper(s: Seq<char>) -> Seq<char> {
    s.map_values(|c: char| ascii_upper_char(c))
}

fn to_ascii_lower(c: char) -> (r: char)
    ensures
        r == ascii_lower_char(c),
{
    if 'A' <= c && c <= 'Z' {
        let b = (c as u32 + 32) as u8;
        b as char
    } else {
        c
    }
}

/// A host name as it is looked up: surrounding white space, leading '[' and
/// trailing ']' (of an IPv6 literal) and trailing dots removed, ASCII letters
/// in lower case.
pub open spec fn spec_normalize_hostname(h: Seq<char>) -> Seq<char> {
    trim_end_char(trim_end_char(trim_start_char(trim(h), '['), ']'), '.').map_values(
        |c: char| ascii_lower_char(c),
    )
}

/// Normalises a host name for lookup.
pub fn normalize_hostname(hostname: &str) -> (r: String)
    ensures
        r@ == spec_normalize_hostname(hostname@),
{
    let cs = str_chars(hostname);
    let n = cs.len();
    assert(cs@.subrange(0, n as int) =~= cs@);
    let (a0, b0) = trim_bounds(&cs, 0, n);
    // Leading '['.
    let mut a = a0;
    while a < b0 && cs[a] == '['
        invariant
            a0 <= a <= b0 <= n == cs@.len(),
            trim_start_char(cs@.subrange(a0 as int, b0 as int), '[') == trim_start_char(
                cs@.subrange(a as int, b0 as int),
                '[',
            ),
        decreases b0 - a,
    {
        assert(cs@.subrange(a as int, b0 as int).drop_first() =~= cs@.subrange(a + 1, b0 as int));
        a = a + 1;
    }
    assert(trim_start_char(cs@.subrange(a as int, b0 as int), '[') == cs@.subrange(a as int, b0 as int));
    let b1 = trim_end_char_bound(&cs, a, b0, ']');
    let b2 = trim_end_char_bound(&cs, a, b1, '.');
    let ghost kept = cs@.subrange(a as int, b2 as int);
    let mut r = String::new();
    let mut i = a;
    while i < b2
        invariant
            a <= i <= b2 <= cs@.len(),
            kept == cs@.subrange(a as int, b2 as int),
            r@ == cs@.subrange(a as int, i as int).map_values(|c: char| ascii_lower_char(c)),
        decreases b2 - i,
    {
        push_char(&mut r, to_ascii_lower(cs[i]));
        assert(cs@.subrange(a as int, i + 1).map_values(|c: char| ascii_lower_char(c)) =~= cs@.subrange(
            a as int,
            i as int,
        ).map_values(|c: char| ascii_lower_char(c)).push(ascii_lower_char(cs@[i as int])));
        i = i + 1;
    }
    r
}

proof fn lemma_upper_ends(s: Seq<char>)
    requires
        s.len() > 0,
    ensures
        ascii_upper(s).drop_first() == ascii_upper(s.drop_first()),
        ascii_upper(s).drop_last() == ascii_upper(s.drop_last()),
        ascii_upper(s)[0] == ascii_upper_char(s[0]),
        ascii_upper(s).last() == ascii_upper_char(s.last()),
{
    assert(ascii_upper(s).drop_first() =~= ascii_upper(s.drop_first()));
    assert(ascii_upper(s).drop_last() =~= ascii_upper(s.drop_last()));
}

/// Upper-casing ASCII letters turns no character into white space or out of it.
proof fn lemma_upper_white_space(c: char)
    ensures
        is_white_space(ascii_upper_char(c)) == is_white_space(c),
{
}

proof fn lemma_trim_start_upper(s: Seq<char>)
    ensures
        trim_start(ascii_upper(s)) == ascii_upper(trim_start(s)),
    decreases s.len(),
{
    if s.len() > 0 {
        lemma_upper_ends(s);
        lemma_upper_white_space(s[0]);
        if is_white_space(s[0]) {
            lemma_trim_start_upper(s.drop_first());
        }
    }
}

proof fn lemma_trim_end_upper(s: Seq<char>)
    ensures
        trim_end(ascii_upper(s)) == ascii_upper(trim_end(s)),
    decreases s.len(),
{
    if s.len() > 0 {
        lemma_upper_ends(s);
        lemma_upper_white_space(s.last());
        if is_white_space(s.last()) {
            lemma_trim_end_upper(s.drop_last());
        }
    }
}

proof fn lemma_trim_start_char_upper(s: Seq<char>, c: char)
    requires
        !('a' <= c <= 'z'),
        !('A' <= c <= 'Z'),
    ensures
        trim_start_char(ascii_upper(s), c) == ascii_upper(trim_start_char(s, c)),
    decreases s.len(),
{
    if s.len() > 0 {
        lemma_upper_ends(s);
        if s[0] == c {
            lemma_trim_start_char_upper(s.drop_first(), c);
        }
    }
}

proof fn lemma_trim_end_char_upper(s: Seq<char>, c: char)
    requires
        !('a' <= c <= 'z'),
        !('A' <= c <= 'Z'),
    ensures
        trim_end_char(ascii_upper(s), c) == ascii_upper(trim_end_char(s, c)),
    decreases s.len(),
{
    if s.len() > 0 {
        lemma_upper_ends(s);
        if s.last() == c {
            lemma_trim_end_char_upper(s.drop_last(), c);
        }
    }
}

proof fn lemma_trim_start_char_shape(s: Seq<char>, c: char)
    ensures
        trim_start_char(s, c).len() <= s.len(),
        trim_start_char(s, c) == s.skip(s.len() - trim_start_char(s, c).len()),
        trim_start_char(s, c).len() > 0 ==> trim_start_char(s, c)[0] != c,
    decreases s.len(),
{
    if s.len() > 0 && s[0] == c {
        lemma_trim_start_char_shape(s.drop_first(), c);
        assert(s.drop_first().skip(s.drop_first().len() - trim_start_char(s, c).len()) =~= s.skip(
            s.len() - trim_start_char(s, c).len(),
        ));
    } else {
        assert(s.skip(0) =~= s);
    }
}

proof fn lemma_trim_end_char_shape(s: Seq<char>, c: char)
    ensures
        trim_end_char(s, c).len() <= s.len(),
        trim_end_char(s, c) == s.take(trim_end_char(s, c).len() as int),
        trim_end_char(s, c).len() > 0 ==> trim_end_char(s, c).last() != c,
    decreases s.len(),
{
    if s.len() > 0 && s.last() == c {
        lemma_trim_end_char_shape(s.drop_last(), c);
        assert(s.drop_last().take(trim_end_char(s, c).len() as int) =~= s.take(
            trim_end_char(s, c).len() as int,
        ));
    } else {
        assert(s.take(s.len() as int) =~= s);
    }
}

proof fn lemma_trim_end_shorter(s: Seq<char>)
    ensures
        trim_end(s).len() <= s.len(),
    decreases s.len(),
{
    if s.len() > 0 && is_white_space(s.last()) {
        lemma_trim_end_shorter(s.drop_last());
    }
}

proof fn lemma_trim_start_char_removes(s: Seq<char>, c: char)
    ensures
        forall|i: int| 0 <= i < s.len() - trim_start_char(s, c).len() ==> s[i] == c,
    decreases s.len(),
{
    lemma_trim_start_char_shape(s, c);
    if s.len() > 0 && s[0] == c {
        lemma_trim_start_char_removes(s.drop_first(), c);
        assert forall|i: int| 0 <= i < s.len() - trim_start_char(s, c).len() implies s[i] == c by {
            if i > 0 {
                assert(s[i] == s.drop_first()[i - 1]);
            }
        }
    }
}

proof fn lemma_trim_end_char_removes(s: Seq<char>, c: char)
    ensures
        forall|i: int| trim_end_char(s, c).len() <= i < s.len() ==> s[i] == c,
    decreases s.len(),
{
    lemma_trim_end_char_shape(s, c);
    if s.len() > 0 && s.last() == c {
        lemma_trim_end_char_removes(s.drop_last(), c);
        assert forall|i: int| trim_end_char(s, c).len() <= i < s.len() implies s[i] == c by {
            if i < s.len() - 1 {
                assert(s[i] == s.drop_last()[i]);
            }
        }
    }
}

proof fn lemma_trim_start_removes(s: Seq<char>)
    ensures
        trim_start(s).len() <= s.len(),
        trim_start(s) == s.skip(s.len() - trim_start(s).len()),
        forall|i: int| 0 <= i < s.len() - trim_start(s).len() ==> is_white_space(s[i]),
    decreases s.len(),
{
    if s.len() > 0 && is_white_space(s[0]) {
        lemma_trim_start_removes(s.drop_first());
        assert(s.drop_first().skip(s.drop_first().len() - trim_start(s).len()) =~= s.skip(
            s.len() - trim_start(s).len(),
        ));
        assert forall|i: int| 0 <= i < s.len() - trim_start(s).len() implies is_white_space(s[i]) by {
            if i > 0 {
                assert(s[i] == s.drop_first()[i - 1]);
            }
        }
    } else {
        assert(s.skip(0) =~= s);
    }
}

proof fn lemma_trim_end_removes(s: Seq<char>)
    ensures
        trim_end(s).len() <= s.len(),
        trim_end(s) == s.take(trim_end(s).len() as int),
        forall|i: int| trim_end(s).len() <= i < s.len() ==> is_white_space(s[i]),
    decreases s.len(),
{
    if s.len() > 0 && is_white_space(s.last()) {
        lemma_trim_end_removes(s.drop_last());
        assert(s.drop_last().take(trim_end(s).len() as int) =~= s.take(trim_end(s).len() as int));
        assert forall|i: int| trim_end(s).len() <= i < s.len() implies is_white_space(s[i]) by {
            if i < s.len() - 1 {
                assert(s[i] == s.drop_last()[i]);
            }
        }
    } else {
        assert(s.take(s.len() as int) =~= s);
    }
}

/// What normalisation may strip from the ends of a host name.
pub open spec fn strippable(c: char) -> bool {
    is_white_space(c) || c == '[' || c == ']' || c == '.'
}

/// Normalisation only takes characters away at the ends, and only white
/// space, brackets and dots: the result is a contiguous part of the name, in
/// ASCII lower case, and every character left out before or after it is one
/// of those. A name already in its normal form (no surrounding white space,
/// no leading '[', no trailing ']' or '.', no ASCII capital) normalises to
/// itself, whatever its length.
pub proof fn lemma_normalize_hostname_keeps_middle(h: Seq<char>)
    ensures
        exists|a: int, b: int|
            0 <= a <= b <= h.len() && spec_normalize_hostname(h) == h.subrange(a, b).map_values(
                |c: char| ascii_lower_char(c),
            ) && (forall|i: int| 0 <= i < a ==> strippable(#[trigger] h[i])) && (forall|i: int|
                b <= i < h.len() ==> strippable(#[trigger] h[i])),
        (h.len() == 0 || (!is_white_space(h[0]) && h[0] != '[' && !is_white_space(h.last()) && h.last()
            != ']' && h.last() != '.')) && (forall|i: int| 0 <= i < h.len() ==> !('A' <= #[trigger] h[i] <= 'Z'))
            ==> spec_normalize_hostname(h) == h,
{
    let ts = trim_start(h);
    lemma_trim_start_removes(h);
    let a0 = h.len() - ts.len();
    let t0 = trim_end(ts);
    lemma_trim_end_removes(ts);
    let e0 = t0.len() as int;
    assert(t0 =~= h.subrange(a0, a0 + e0));
    assert(trim(h) == t0);
    let t1 = trim_start_char(t0, '[');
    lemma_trim_start_char_shape(t0, '[');
    lemma_trim_start_char_removes(t0, '[');
    let k1 = t0.len() - t1.len();
    assert(t1 =~= h.subrange(a0 + k1, a0 + e0));
    let t2 = trim_end_char(t1, ']');
    lemma_trim_end_char_shape(t1, ']');
    lemma_trim_end_char_removes(t1, ']');
    let e2 = t2.len() as int;
    assert(t2 =~= h.subrange(a0 + k1, a0 + k1 + e2));
    let t3 = trim_end_char(t2, '.');
    lemma_trim_end_char_shape(t2, '.');
    lemma_trim_end_char_removes(t2, '.');
    let e3 = t3.len() as int;
    let a = a0 + k1;
    let b = a + e3;
    assert(t3 =~= h.subrange(a, b));
    assert forall|i: int| 0 <= i < a implies strippable(#[trigger] h[i]) by {
        if i < a0 {
            assert(is_white_space(h[i]));
        } else {
            assert(h[i] == t0[i - a0]);
        }
    }
    assert forall|i: int| b <= i < h.len() implies strippable(#[trigger] h[i]) by {
        if i >= a0 + e0 {
            assert(h[i] == ts[i - a0]);
        } else if i >= a0 + k1 + e2 {
            assert(h[i] == t1[i - a0 - k1]);
        } else {
            assert(h[i] == t2[i - a0 - k1]);
        }
    }
    assert(spec_normalize_hostname(h) == h.subrange(a, b).map_values(|c: char| ascii_lower_char(c)));
    if (h.len() == 0 || (!is_white_space(h[0]) && h[0] != '[' && !is_white_space(h.last()) && h.last()
        != ']' && h.last() != '.')) && (forall|i: int| 0 <= i < h.len() ==> !('A' <= #[trigger] h[i] <= 'Z')) {
        if h.len() > 0 {
            assert(a0 == 0) by {
                if a0 > 0 {
                    assert(is_white_space(h[0]));
                }
            }
            assert(e0 == ts.len()) by {
                if e0 < ts.len() {
                    assert(is_white_space(ts[ts.len() - 1]));
                    assert(ts[ts.len() - 1] == h.last());
                }
            }
            assert(k1 == 0) by {
                if k1 > 0 {
                    assert(t0[0] == '[');
                }
            }
            assert(e2 == t1.len()) by {
                if e2 < t1.len() {
                    assert(t1[t1.len() - 1] == ']');
                    assert(t1[t1.len() - 1] == h.last());
                }
            }
            assert(e3 == t2.len()) by {
                if e3 < t2.len() {
                    assert(t2[t2.len() - 1] == '.');
                    assert(t2[t2.len() - 1] == h.last());
                }
            }
        }
        assert(h.subrange(a, b).map_values(|c: char| ascii_lower_char(c)) =~= h);
    }
}

/// A normalised host name is canonical: it is no longer than the name, does
/// not start with '[' nor end with '.', holds no ASCII upper-case letter,
/// and the name with its ASCII letters upper-cased normalises to it too.
pub proof fn lemma_normalize_hostname_canonical(h: Seq<char>)
    ensures
        spec_normalize_hostname(h).len() <= h.len(),
        spec_normalize_hostname(h).len() > 0 ==> spec_normalize_hostname(h)[0] != '['
            && spec_normalize_hostname(h).last() != '.',
        forall|i: int|
            0 <= i < spec_normalize_hostname(h).len() ==> !('A' <= #[trigger] spec_normalize_hostname(h)[i] <= 'Z'),
        spec_normalize_hostname(ascii_upper(h)) == spec_normalize_hostname(h),
{
    let t0 = trim(h);
    let t1 = trim_start_char(t0, '[');
    let t2 = trim_end_char(t1, ']');
    let t3 = trim_end_char(t2, '.');
    let r = spec_normalize_hostname(h);
    // Lengths and ends.
    lemma_trim_start(h);
    lemma_trim_end_shorter(trim_start(h));
    lemma_trim_start_char_shape(t0, '[');
    lemma_trim_end_char_shape(t1, ']');
    lemma_trim_end_char_shape(t2, '.');
    if t3.len() > 0 {
        assert(t3[0] == t2[0] && t2[0] == t1[0]);
        assert(r[0] == ascii_lower_char(t3[0]));
        assert(r.last() == ascii_lower_char(t3.last()));
    }
    // Upper-casing first changes nothing.
    lemma_trim_start_upper(h);
    lemma_trim_end_upper(trim_start(h));
    lemma_trim_start_char_upper(t0, '[');
    lemma_trim_end_char_upper(t1, ']');
    lemma_trim_end_char_upper(t2, '.');
    let u3 = trim_end_char(trim_end_char(trim_start_char(trim(ascii_upper(h)), '['), ']'), '.');
    assert(u3 == ascii_upper(t3));
    assert(ascii_upper(t3).map_values(|c: char| ascii_lower_char(c)) =~= t3.map_values(
        |c: char| ascii_lower_char(c),
    ));
}

// ─── DNS-over-HTTPS answers ────────────────────────────────────────────────

/// One record of a DNS-over-HTTPS JSON answer: its type, and its data read
/// as an IPv4 address when it is one.
#[derive(Clone, Copy, Debug)]
pub struct DohAnswer {
    pub record_type: u16,
    pub ipv4: Option<(u8, u8, u8, u8)>,
}

/// The distinct IPv4 addresses of the A records (type 1) of `answers`, in
/// the order of their first occurrence.
pub open spec fn a_record_addresses(answers: Seq<DohAnswer>) -> Seq<IpAddress>
    decreases answers.len(),
{
    if answers.len() == 0 {
        Seq::empty()
    } else {
        let rest = a_record_addresses(answers.drop_last());
        let a = answers.last();
        if a.record_type == 1 && a.ipv4 is Some {
            let (x, y, z, w) = a.ipv4->0;
            spec_push_unique(rest, IpAddress::V4(x, y, z, w))
        } else {
            rest
        }
    }
}

/// What a DNS-over-HTTPS answer with status `status` and the records
/// `answers` resolves to: an error for a status other than 0 ("DoH status
/// code: <status>"), for a missing answer section ("response has no A
/// records") and for no usable A record ("no valid IPv4 address found");
/// otherwise the distinct addresses of the A records.
pub open spec fn spec_doh_addresses(status: u32, answers: Option<Seq<DohAnswer>>) -> Result<
    Seq<IpAddress>,
    Seq<char>,
> {
    if status != 0 {
        Err("DoH status code: "@ + decimal(status as nat))
    } else {
        match answers {
            None => Err("response has no A records"@),
            Some(a) => if a_record_addresses(a).len() == 0 {
                Err("no valid IPv4 address found"@)
            } else {
                Ok(a_record_addresses(a))
            },
        }
    }
}

/// The records of an optional answer section.
pub open spec fn answers_view(a: Option<Vec<DohAnswer>>) -> Option<Seq<DohAnswer>> {
    match a {
        Some(v) => Some(v@),
        None => None,
    }
}

/// The addresses that a DNS-over-HTTPS answer gives.
pub fn doh_addresses(status: u32, answers: Option<Vec<DohAnswer>>) -> (r: Result<
    Vec<IpAddress>,
    String,
>)
    ensures
        match (r, spec_doh_addresses(status, answers_view(answers))) {
            (Ok(ips), Ok(s)) => ips@ == s,
            (Err(m), Err(s)) => m@ == s,
            _ => false,
        },
{
    if status != 0 {
        let mut m = String::from_str("DoH status code: ");
        push_decimal(&mut m, status as u64);
        return Err(m);
    }
    let answers = match answers {
        None => {
            return Err(String::from_str("response has no A records"));
        },
        Some(a) => a,
    };
    let mut ips: Vec<IpAddress> = Vec::new();
    let mut i: usize = 0;
    while i < answers.len()
        invariant
            i <= answers@.len(),
            ips@ == a_record_addresses(answers@.take(i as int)),
        decreases answers@.len() - i,
    {
        assert(answers@.take(i + 1).drop_last() =~= answers@.take(i as int));
        let a = answers[i];
        if a.record_type == 1 {
            match a.ipv4 {
                Some((x, y, z, w)) => {
                    push_unique(&mut ips, IpAddress::V4(x, y, z, w));
                },
                None => {},
            }
        }
        i = i + 1;
    }
    assert(answers@.take(answers@.len() as int) =~= answers@);
    if ips.len() == 0 {
        Err(String::from_str("no valid IPv4 address found"))
    } else {
        Ok(ips)
    }
}

/// The addresses of A records hold no repetition.
pub proof fn lemma_a_record_addresses_distinct(answers: Seq<DohAnswer>)
    ensures
        distinct(a_record_addresses(answers)),
    decreases answers.len(),
{
    if answers.len() > 0 {
        lemma_a_record_addresses_distinct(answers.drop_last());
        let a = answers.last();
        if a.record_type == 1 && a.ipv4 is Some {
            let (x, y, z, w) = a.ipv4->0;
            lemma_push_unique(a_record_addresses(answers.drop_last()), IpAddress::V4(x, y, z, w));
        }
    }
}

/// The address an answer record gives: that of an A record whose data is an
/// IPv4 address, none otherwise.
pub open spec fn record_address(a: DohAnswer) -> Option<IpAddress> {
    if a.record_type == 1 {
        match a.ipv4 {
            Some((x, y, z, w)) => Some(IpAddress::V4(x, y, z, w)),
            None => None,
        }
    } else {
        None
    }
}

/// An address is among those of the A records exactly when some record
/// gives it.
proof fn lemma_a_record_addresses_contain(answers: Seq<DohAnswer>, ip: IpAddress)
    ensures
        a_record_addresses(answers).contains(ip) <==> exists|i: int|
            0 <= i < answers.len() && #[trigger] record_address(answers[i]) == Some(ip),
    decreases answers.len(),
{
    if answers.len() > 0 {
        let init = answers.drop_last();
        lemma_a_record_addresses_contain(init, ip);
        let rest = a_record_addresses(init);
        let a = answers.last();
        let n = answers.len() - 1;
        assert(forall|i: int| 0 <= i < init.len() ==> init[i] == answers[i]);
        if a.record_type == 1 && a.ipv4 is Some {
            let (x, y, z, w) = a.ipv4->0;
            let v = IpAddress::V4(x, y, z, w);
            let r = spec_push_unique(rest, v);
            if !rest.contains(v) {
                assert(r == rest.push(v));
                if r.contains(ip) {
                    let k = choose|k: int| 0 <= k < r.len() && r[k] == ip;
                    if k < rest.len() {
                        assert(rest[k] == ip);
                    } else {
                        assert(record_address(answers[n]) == Some(ip));
                    }
                }
                if exists|i: int| 0 <= i < answers.len() && #[trigger] record_address(answers[i]) == Some(ip) {
                    let i = choose|i: int| 0 <= i < answers.len() && #[trigger] record_address(answers[i]) == Some(ip);
                    if i < n {
                        assert(record_address(init[i]) == Some(ip));
                        let k = choose|k: int| 0 <= k < rest.len() && rest[k] == ip;
                        assert(r[k] == ip);
                    } else {
                        assert(r[rest.len() as int] == ip);
                    }
                }
            } else {
                if exists|i: int| 0 <= i < answers.len() && #[trigger] record_address(answers[i]) == Some(ip) {
                    let i = choose|i: int| 0 <= i < answers.len() && #[trigger] record_address(answers[i]) == Some(ip);
                    if i < n {
                        assert(record_address(init[i]) == Some(ip));
                    }
                }
                if rest.contains(ip) {
                    let i = choose|i: int| 0 <= i < init.len() && #[trigger] record_address(init[i]) == Some(ip);
                    assert(record_address(answers[i]) == Some(ip));
                }
            }
        } else {
            assert(record_address(a) is None);
            if exists|i: int| 0 <= i < answers.len() && #[trigger] record_address(answers[i]) == Some(ip) {
                let i = choose|i: int| 0 <= i < answers.len() && #[trigger] record_address(answers[i]) == Some(ip);
                assert(i < n);
                assert(record_address(init[i]) == Some(ip));
            }
            if rest.contains(ip) {
                let i = choose|i: int| 0 <= i < init.len() && #[trigger] record_address(init[i]) == Some(ip);
                assert(record_address(answers[i]) == Some(ip));
            }
        }
    }
}

/// The addresses of the A records come in the order of their first records:
/// a record that gives a later address comes after some record that gives
/// each earlier one.
pub proof fn lemma_a_record_addresses_in_order(answers: Seq<DohAnswer>)
    ensures
        forall|k: int, l: int, j: int|
            #![trigger a_record_addresses(answers)[k], a_record_addresses(answers)[l], answers[j]]
            0 <= k < l < a_record_addresses(answers).len() && 0 <= j < answers.len() && record_address(
                answers[j],
            ) == Some(a_record_addresses(answers)[l]) ==> exists|i: int|
                0 <= i < j && #[trigger] record_address(answers[i]) == Some(a_record_addresses(answers)[k]),
    decreases answers.len(),
{
    if answers.len() > 0 {
        let init = answers.drop_last();
        let n = answers.len() - 1;
        lemma_a_record_addresses_in_order(init);
        lemma_a_record_addresses_distinct(init);
        let r0 = a_record_addresses(init);
        let r = a_record_addresses(answers);
        assert(forall|i: int| 0 <= i < init.len() ==> init[i] == answers[i]);
        assert forall|k: int, l: int, j: int|
            #![trigger r[k], r[l], answers[j]]
            0 <= k < l < r.len() && 0 <= j < answers.len() && record_address(answers[j]) == Some(r[l]) implies exists|i: int| 0 <= i < j && #[trigger] record_address(answers[i]) == Some(r[k]) by {
            assert(k < r0.len());
            assert(r[k] == r0[k]);
            lemma_a_record_addresses_contain(init, r0[k]);
            assert(r0.contains(r0[k]));
            let i0 = choose|i: int| 0 <= i < init.len() && #[trigger] record_address(init[i]) == Some(r0[k]);
            assert(record_address(answers[i0]) == Some(r[k]));
            if j < n {
                if l < r0.len() {
                    assert(r[l] == r0[l]);
                    assert(record_address(init[j]) == Some(r0[l]));
                    let i1 = choose|i: int| 0 <= i < j && #[trigger] record_address(init[i]) == Some(r0[k]);
                    assert(record_address(answers[i1]) == Some(r[k]));
                } else {
                    // The last address is new: no earlier record gives it.
                    assert(r.len() == r0.len() + 1);
                    assert(record_address(init[j]) == Some(r[l]));
                    lemma_a_record_addresses_contain(init, r[l]);
                    assert(!r0.contains(r[l]));
                }
            } else {
                assert(i0 < j);
            }
        }
    }
}

/// A successful answer (status 0) yields every address that one of its
/// records gives, and is `Ok` exactly when some record gives one; whatever it
/// yields is given by one of its records, no address is yielded twice, and
/// the addresses come in the order of their first records. A failed status
/// or a missing answer section is an error.
pub proof fn lemma_doh_addresses_complete(answers: Seq<DohAnswer>)
    ensures
        forall|i: int|
            0 <= i < answers.len() && (#[trigger] record_address(answers[i])) is Some ==> (spec_doh_addresses(
                0,
                Some(answers),
            ) matches Ok(r) && r.contains(record_address(answers[i])->0)),
        spec_doh_addresses(0, Some(answers)) is Ok <==> exists|i: int|
            0 <= i < answers.len() && (#[trigger] record_address(answers[i])) is Some,
        forall|status: u32| status != 0 ==> #[trigger] spec_doh_addresses(status, Some(answers)) is Err,
        spec_doh_addresses(0, None) is Err,
        spec_doh_addresses(0, Some(answers)) matches Ok(r) ==> distinct(r) && forall|ip: IpAddress|
            #[trigger] r.contains(ip) ==> exists|i: int|
                0 <= i < answers.len() && #[trigger] record_address(answers[i]) == Some(ip),
        spec_doh_addresses(0, Some(answers)) matches Ok(r) ==> forall|k: int, l: int, j: int|
            #![trigger r[k], r[l], answers[j]]
            0 <= k < l < r.len() && 0 <= j < answers.len() && record_address(answers[j]) == Some(r[l])
                ==> exists|i: int| 0 <= i < j && #[trigger] record_address(answers[i]) == Some(r[k]),
{
    lemma_a_record_addresses_in_order(answers);
    lemma_a_record_addresses_distinct(answers);
    let r = a_record_addresses(answers);
    assert forall|i: int|
        0 <= i < answers.len() && (#[trigger] record_address(answers[i])) is Some implies (spec_doh_addresses(
        0,
        Some(answers),
    ) matches Ok(rr) && rr.contains(record_address(answers[i])->0)) by {
        lemma_a_record_addresses_contain(answers, record_address(answers[i])->0);
        assert(r.len() > 0);
    }
    assert forall|ip: IpAddress| #[trigger] r.contains(ip) implies exists|i: int|
        0 <= i < answers.len() && #[trigger] record_address(answers[i]) == Some(ip) by {
        lemma_a_record_addresses_contain(answers, ip);
    }
    if r.len() > 0 {
        lemma_a_record_addresses_contain(answers, r[0]);
        assert(r.contains(r[0]));
        let i = choose|i: int| 0 <= i < answers.len() && #[trigger] record_address(answers[i]) == Some(r[0]);
        assert(record_address(answers[i]) is Some);
    }
}

// ─── Resolution order ──────────────────────────────────────────────────────

/// How long a resolved name is served from the cache: ten minutes.
pub const CACHE_TTL_MS: u64 = 600_000;

/// The number of DNS-over-HTTPS resolvers tried before the system resolver.
pub const DOH_ENDPOINT_COUNT: usize = 2;

/// The DNS-over-HTTPS resolvers, in the order they are tried.
pub open spec fn spec_doh_endpoint(i: nat) -> Seq<char> {
    if i == 0 {
        "https://cloudflare-dns.com/dns-query"@
    } else {
        "https://dns.google/resolve"@
    }
}

/// The URL of the `i`-th DNS-over-HTTPS resolver.
pub fn doh_endpoint(i: usize) -> (r: String)
    requires
        i < DOH_ENDPOINT_COUNT,
    ensures
        r@ == spec_doh_endpoint(i as nat),
{
    if i == 0 {
        String::from_str("https://cloudflare-dns.com/dns-query")
    } else {
        String::from_str("https://dns.google/resolve")
    }
}

/// What the resolution does next.
#[derive(Debug)]
pub enum ResolveStep {
    /// Ask the DNS-over-HTTPS resolver with this index.
    QueryDoh(usize),
    /// Ask the system resolver.
    QuerySystem,
    /// The name resolved to these addresses; they are cached.
    Resolved(Vec<IpAddress>),
}

/// The first step of resolving `host` at `now_ms`, `literal` being the
/// address that `host` spells when it is an IP literal: a literal resolves
/// to itself at once; otherwise the cache is consulted first, and what it
/// finds (see [`cached_lookup`]) ends the resolution; otherwise the first
/// DNS-over-HTTPS resolver is asked.
pub fn begin_resolution(cache: &DnsCache, host: &str, literal: Option<IpAddress>, now_ms: u64) -> (step:
    ResolveStep)
    ensures
        match literal {
            Some(ip) => step matches ResolveStep::Resolved(r) && r@ == seq![ip],
            None => match cached_lookup(cache.view(), host@, now_ms) {
                Some(ips) => step matches ResolveStep::Resolved(r) && r@ == ips && r@.len() > 0,
                None => step matches ResolveStep::QueryDoh(i) && i == 0,
            },
        },
{
    if let Some(ip) = literal {
        let mut r: Vec<IpAddress> = Vec::new();
        r.push(ip);
        return ResolveStep::Resolved(r);
    }
    match cache.lookup(host, now_ms) {
        Some(ips) => ResolveStep::Resolved(ips),
        None => ResolveStep::QueryDoh(0),
    }
}

/// The step after DNS-over-HTTPS resolver `index` answered `result`: a
/// non-empty list of addresses ends the resolution; anything else moves on
/// to the next resolver, and after the last one to the system resolver.
pub fn after_doh(index: usize, result: Result<Vec<IpAddress>, String>) -> (step: ResolveStep)
    requires
        index < DOH_ENDPOINT_COUNT,
    ensures
        match result {
            Ok(ips) if ips@.len() > 0 => step matches ResolveStep::Resolved(r) && r@ == ips@,
            _ => if index + 1 < DOH_ENDPOINT_COUNT {
                step matches ResolveStep::QueryDoh(j) && j == index + 1
            } else {
                step is QuerySystem
            },
        },
{
    match result {
        Ok(ips) => {
            if ips.len() > 0 {
                return ResolveStep::Resolved(ips);
            }
        },
        Err(_) => {},
    }
    if index + 1 < DOH_ENDPOINT_COUNT {
        ResolveStep::QueryDoh(index + 1)
    } else {
        ResolveStep::QuerySystem
    }
}

/// The outcome of resolving `hostname` once the system resolver answered
/// `result`: its addresses when there are some; "System DNS: no records for
/// <hostname>" for none; "DNS failed completely: <hostname> - <error>" for
/// an error.
pub fn after_system(hostname: &str, result: Result<Vec<IpAddress>, String>) -> (r: Result<
    Vec<IpAddress>,
    String,
>)
    ensures
        match result {
            Ok(ips) => if ips@.len() > 0 {
                r matches Ok(v) && v@ == ips@
            } else {
                r matches Err(m) && m@ == "System DNS: no records for "@ + hostname@
            },
            Err(e) => r matches Err(m) && m@ == "DNS failed completely: "@ + hostname@ + " - "@
                + e@,
        },
{
    match result {
        Ok(ips) => {
            if ips.len() > 0 {
                Ok(ips)
            } else {
                let mut m = String::from_str("System DNS: no records for ");
                m.append(hostname);
                Err(m)
            }
        },
        Err(e) => {
            let mut m = String::from_str("DNS failed completely: ");
            m.append(hostname);
            m.append(" - ");
            m.append(e.as_str());
            Err(m)
        },
    }
}

// ─── Cache ─────────────────────────────────────────────────────────────────

/// A cached resolution: the host name, its addresses and when (in
/// milliseconds of a monotonic clock) they were stored.
#[derive(Debug)]
pub struct CacheEntry {
    host: Vec<char>,
    ips: Vec<IpAddress>,
    stored_ms: u64,
}

/// The resolutions of host names, at most one per name.
#[derive(Debug)]
pub struct DnsCache {
    entries: Vec<CacheEntry>,
}

/// The time elapsed from `stored` to `now`, zero when the clock reads earlier.
pub open spec fn elapsed(stored: u64, now: u64) -> int {
    if now >= stored {
        now - stored
    } else {
        0
    }
}

/// No two entries are for the same name.
spec fn hosts_distinct(entries: Seq<CacheEntry>) -> bool {
    forall|i: int, j: int| 0 <= i < j < entries.len() ==> entries[i].host@ != entries[j].host@
}

/// The names of `entries` with their addresses and storage times.
spec fn entries_view(entries: Seq<CacheEntry>) -> Map<Seq<char>, (Seq<IpAddress>, u64)> {
    Map::new(
        |h: Seq<char>| exists|i: int| 0 <= i < entries.len() && entries[i].host@ == h,
        |h: Seq<char>|
            {
                let i = choose|i: int| 0 <= i < entries.len() && entries[i].host@ == h;
                (entries[i].ips@, entries[i].stored_ms)
            },
    )
}

/// The index of the entry for `host`, if there is one.
fn find_entry(entries: &Vec<CacheEntry>, host: &Vec<char>) -> (r: Option<usize>)
    ensures
        match r {
            Some(i) => i < entries@.len() && entries@[i as int].host@ == host@,
            None => forall|i: int|
                0 <= i < entries@.len() ==> entries@[i].host@ != host@,
        },
{
    let mut i: usize = 0;
    while i < entries.len()
        invariant
            i <= entries@.len(),
            forall|j: int| 0 <= j < i ==> entries@[j].host@ != host@,
        decreases entries@.len() - i,
    {
        if crate::text::same_chars(&entries[i].host, host) {
            return Some(i);
        }
        i = i + 1;
    }
    None
}

/// Stores the addresses of `host`, resolved at `now_ms`, in `entries`,
/// replacing the entry for it if there is one.
fn store_entry(entries: &mut Vec<CacheEntry>, host: &str, ips: Vec<IpAddress>, now_ms: u64)
    requires
        hosts_distinct(old(entries)@),
    ensures
        hosts_distinct(final(entries)@),
        entries_view(final(entries)@) == entries_view(old(entries)@).insert(host@, (ips@, now_ms)),
{
    let key = str_chars(host);
    let ghost old_entries = entries@;
    let entry = CacheEntry { host: key, ips, stored_ms: now_ms };
    match find_entry(entries, &entry.host) {
        Some(i) => {
            entries.set(i, entry);
            proof {
                assert forall|a: int, b: int|
                    0 <= a < b < entries@.len() implies entries@[a].host@
                    != entries@[b].host@ by {
                    if a != i && b != i {
                        assert(entries@[a] == old_entries[a]);
                        assert(entries@[b] == old_entries[b]);
                    }
                }
                assert(entries_view(entries@) =~= entries_view(old_entries).insert(host@, (ips@, now_ms))) by {
                    assert forall|h: Seq<char>| #[trigger] entries_view(entries@).contains_key(h) == entries_view(old_entries).insert(host@, (ips@, now_ms)).contains_key(h) by {
                        if h == host@ {
                            assert(entries@[i as int].host@ == h);
                        } else if entries_view(entries@).contains_key(h) {
                            let k = choose|k: int| 0 <= k < entries@.len() && entries@[k].host@ == h;
                            assert(old_entries[k].host@ == h);
                        } else if entries_view(old_entries).contains_key(h) {
                            let k = choose|k: int| 0 <= k < old_entries.len() && old_entries[k].host@ == h;
                            assert(entries@[k].host@ == h);
                        }
                    }
                    assert forall|h: Seq<char>| #[trigger] entries_view(entries@).contains_key(h) implies entries_view(entries@)[h] == entries_view(old_entries).insert(host@, (ips@, now_ms))[h] by {
                        let k = choose|k: int| 0 <= k < entries@.len() && entries@[k].host@ == h;
                        if h == host@ {
                            assert(k == i);
                        } else {
                            let k2 = choose|k: int| 0 <= k < old_entries.len() && old_entries[k].host@ == h;
                            assert(k2 == k);
                        }
                    }
                }
            }
        },
        None => {
            entries.push(entry);
            proof {
                let n = old_entries.len();
                assert forall|a: int, b: int|
                    0 <= a < b < entries@.len() implies entries@[a].host@
                    != entries@[b].host@ by {
                    assert(entries@[a] == old_entries[a]);
                    if b < n {
                        assert(entries@[b] == old_entries[b]);
                    }
                }
                assert(entries_view(entries@) =~= entries_view(old_entries).insert(host@, (ips@, now_ms))) by {
                    assert forall|h: Seq<char>| #[trigger] entries_view(entries@).contains_key(h) == entries_view(old_entries).insert(host@, (ips@, now_ms)).contains_key(h) by {
                        if h == host@ {
                            assert(entries@[n as int].host@ == h);
                        } else if entries_view(entries@).contains_key(h) {
                            let k = choose|k: int| 0 <= k < entries@.len() && entries@[k].host@ == h;
                            assert(old_entries[k].host@ == h);
                        } else if entries_view(old_entries).contains_key(h) {
                            let k = choose|k: int| 0 <= k < old_entries.len() && old_entries[k].host@ == h;
                            assert(entries@[k].host@ == h);
                        }
                    }
                    assert forall|h: Seq<char>| #[trigger] entries_view(entries@).contains_key(h) implies entries_view(entries@)[h] == entries_view(old_entries).insert(host@, (ips@, now_ms))[h] by {
                        let k = choose|k: int| 0 <= k < entries@.len() && entries@[k].host@ == h;
                        if h == host@ {
                            assert(k == n);
                        } else {
                            let k2 = choose|k: int| 0 <= k < old_entries.len() && old_entries[k].host@ == h;
                            assert(k2 == k);
                        }
                    }
                }
            }
        },
    }
}

impl DnsCache {
    /// Each name is cached at most once.
    #[verifier::type_invariant]
    spec fn wf(&self) -> bool {
        hosts_distinct(self.entries@)
    }

    /// The cached names with their addresses and storage times.
    pub closed spec fn view(&self) -> Map<Seq<char>, (Seq<IpAddress>, u64)> {
        entries_view(self.entries@)
    }

    /// An empty cache.
    pub fn new() -> (c: Self)
        ensures
            c.view() == Map::<Seq<char>, (Seq<IpAddress>, u64)>::empty(),
    {
        let c = DnsCache { entries: Vec::new() };
        assert(c.view() =~= Map::<Seq<char>, (Seq<IpAddress>, u64)>::empty());
        c
    }

    /// The addresses cached for `host` when they were stored less than ten
    /// minutes before `now_ms` and are not empty.
    pub fn lookup(&self, host: &str, now_ms: u64) -> (r: Option<Vec<IpAddress>>)
        ensures
            match r {
                Some(ips) => cached_lookup(self.view(), host@, now_ms) == Some(ips@),
                None => cached_lookup(self.view(), host@, now_ms) is None,
            },
    {
        proof {
            use_type_invariant(self);
        }
        let key = str_chars(host);
        match find_entry(&self.entries, &key) {
            None => {
                assert(!self.view().contains_key(host@));
                None
            },
            Some(i) => {
                let e = &self.entries[i];
                proof {
                    assert(self.view().contains_key(host@));
                    let k = choose|k: int| 0 <= k < self.entries@.len() && self.entries@[k].host@ == host@;
                    assert(k == i);
                }
                let age = if now_ms >= e.stored_ms {
                    now_ms - e.stored_ms
                } else {
                    0
                };
                if age < CACHE_TTL_MS && e.ips.len() > 0 {
                    let mut ips: Vec<IpAddress> = Vec::new();
                    let mut j: usize = 0;
                    while j < e.ips.len()
                        invariant
                            j <= e.ips@.len(),
                            ips@ == e.ips@.take(j as int),
                        decreases e.ips@.len() - j,
                    {
                        ips.push(e.ips[j]);
                        assert(e.ips@.take(j + 1) =~= e.ips@.take(j as int).push(e.ips@[j as int]));
                        j = j + 1;
                    }
                    assert(e.ips@.take(e.ips@.len() as int) =~= e.ips@);
                    Some(ips)
                } else {
                    None
                }
            },
        }
    }

    /// Stores the addresses of `host`, resolved at `now_ms`, replacing what
    /// was cached for it.
    pub fn insert(&mut self, host: &str, ips: Vec<IpAddress>, now_ms: u64)
        ensures
            final(self).view() == old(self).view().insert(host@, (ips@, now_ms)),
    {
        proof {
            use_type_invariant(&*self);
        }
        let mut entries: Vec<CacheEntry> = Vec::new();
        std::mem::swap(&mut entries, &mut self.entries);
        store_entry(&mut entries, host, ips, now_ms);
        self.entries = entries;
    }
}

/// What a lookup of `host` at `now` finds in a cache whose view is `m`: the
/// addresses stored for it, when they were stored less than ten minutes
/// before and are not empty.
pub open spec fn cached_lookup(m: Map<Seq<char>, (Seq<IpAddress>, u64)>, host: Seq<char>, now: u64) -> Option<
    Seq<IpAddress>,
> {
    if m.contains_key(host) && elapsed(m[host].1, now) < CACHE_TTL_MS && m[host].0.len() > 0 {
        Some(m[host].0)
    } else {
        None
    }
}

/// Storing a resolution and looking the name up again finds what was stored,
/// when it holds an address and less than ten minutes have passed, and
/// nothing otherwise; what a lookup of any other name finds is unchanged.
pub proof fn lemma_cache_lookup_after_insert(
    before: Map<Seq<char>, (Seq<IpAddress>, u64)>,
    host: Seq<char>,
    ips: Seq<IpAddress>,
    stored_ms: u64,
    now_ms: u64,
    other: Seq<char>,
)
    ensures
        cached_lookup(before.insert(host, (ips, stored_ms)), host, now_ms) == (if elapsed(stored_ms, now_ms)
            < CACHE_TTL_MS && ips.len() > 0 {
            Some(ips)
        } else {
            None
        }),
        other != host ==> cached_lookup(before.insert(host, (ips, stored_ms)), other, now_ms)
            == cached_lookup(before, other, now_ms),
{
}

} // verus!
