//! Character-level helpers shared by the parsers and formatters of the library:
//! decimal numbers, Unicode white space, line splitting and string building.

use vstd::prelude::*;

verus! {

// ─── Building strings ──────────────────────────────────────────────────────

/// The characters of `s`, in order.
pub fn str_chars(s: &str) -> (v: Vec<char>)
    ensures
        v@ == s@,
{
    let mut v: Vec<char> = Vec::new();
    for c in iter: s.chars()
        invariant
            v@ == iter.seq().take(iter.index() as int),
    {
        v.push(c);
    }
    v
}

/// Appends one character to a string (`String::push`).
#[verifier::external_body]
pub fn push_char(s: &mut String, c: char)
    ensures
        final(s)@ == old(s)@.push(c),
{
    s.push(c);
}

/// Appends the characters `cs[lo..hi]` to `out`.
pub fn push_chars(out: &mut String, cs: &Vec<char>, lo: usize, hi: usize)
    requires
        lo <= hi <= cs@.len(),
    ensures
        final(out)@ == old(out)@ + cs@.subrange(lo as int, hi as int),
{
    let mut i = lo;
    while i < hi
        invariant
            lo <= i <= hi <= cs@.len(),
            out@ == old(out)@ + cs@.subrange(lo as int, i as int),
        decreases hi - i,
    {
        push_char(out, cs[i]);
        assert(cs@.subrange(lo as int, i + 1) == cs@.subrange(lo as int, i as int).push(cs@[i as int]));
        i = i + 1;
    }
}

/// A new string holding the characters `cs[lo..hi]`.
pub fn chars_to_string(cs: &Vec<char>, lo: usize, hi: usize) -> (s: String)
    requires
        lo <= hi <= cs@.len(),
    ensures
        s@ == cs@.subrange(lo as int, hi as int),
{
    let mut s = String::new();
    push_chars(&mut s, cs, lo, hi);
    s
}

/// Whether the two character sequences are equal.
pub fn same_chars(a: &Vec<char>, b: &Vec<char>) -> (r: bool)
    ensures
        r == (a@ == b@),
{
    if a.len() != b.len() {
        return false;
    }
    let mut i: usize = 0;
    while i < a.len()
        invariant
            a@.len() == b@.len(),
            i <= a@.len(),
            forall|j: int| 0 <= j < i ==> a@[j] == b@[j],
        decreases a@.len() - i,
    {
        if a[i] != b[i] {
            return false;
        }
        i = i + 1;
    }
    assert(a@ =~= b@);
    true
}

/// Whether `cs[lo..hi]` starts with `p`.
pub fn has_prefix_at(cs: &Vec<char>, lo: usize, hi: usize, p: &Vec<char>) -> (r: bool)
    requires
        lo <= hi <= cs@.len(),
    ensures
        r == starts_with(cs@.subrange(lo as int, hi as int), p@),
{
    let n = p.len();
    if hi - lo < n {
        return false;
    }
    let mut i: usize = 0;
    while i < n
        invariant
            n == p@.len(),
            lo + n <= hi <= cs@.len(),
            i <= n,
            forall|j: int| 0 <= j < i ==> cs@[lo + j] == p@[j],
        decreases n - i,
    {
        let k: usize = lo + i;
        if cs[k] != p[i] {
            assert(cs@.subrange(lo as int, hi as int).take(n as int)[i as int] == cs@[k as int]);
            return false;
        }
        i = i + 1;
    }
    assert(cs@.subrange(lo as int, hi as int).take(n as int) =~= p@);
    true
}

/// The strings of `v` are `s`.
pub open spec fn strings_are(v: Seq<String>, s: Seq<Seq<char>>) -> bool {
    v.len() == s.len() && forall|i: int| 0 <= i < s.len() ==> #[trigger] v[i]@ == s[i]
}

/// `p` is a prefix of `s`.
pub open spec fn starts_with(s: Seq<char>, p: Seq<char>) -> bool {
    p.len() <= s.len() && s.take(p.len() as int) == p
}

/// `c` occurs in `s`.
pub open spec fn has_char(s: Seq<char>, c: char) -> bool {
    exists|i: int| 0 <= i < s.len() && s[i] == c
}

/// Whether `c` occurs in `cs[lo..hi]`.
pub fn contains_char(cs: &Vec<char>, lo: usize, hi: usize, c: char) -> (r: bool)
    requires
        lo <= hi <= cs@.len(),
    ensures
        r == has_char(cs@.subrange(lo as int, hi as int), c),
{
    let mut i = lo;
    while i < hi
        invariant
            lo <= i <= hi <= cs@.len(),
            forall|j: int| lo <= j < i ==> cs@[j] != c,
        decreases hi - i,
    {
        if cs[i] == c {
            assert(cs@.subrange(lo as int, hi as int)[i - lo] == c);
            return true;
        }
        i = i + 1;
    }
    assert forall|j: int| 0 <= j < hi - lo implies cs@.subrange(lo as int, hi as int)[j] != c by {
        assert(cs@.subrange(lo as int, hi as int)[j] == cs@[lo + j]);
    }
    false
}

// ─── White space ───────────────────────────────────────────────────────────

/// The characters with the Unicode `White_Space` property, which is what
/// `char::is_whitespace`, `str::trim` and `str::split_whitespace` go by.
pub open spec fn is_white_space(c: char) -> bool {
    let u = c as u32;
    ||| 0x09 <= u <= 0x0d
    ||| u == 0x20
    ||| u == 0x85
    ||| u == 0xa0
    ||| u == 0x1680
    ||| 0x2000 <= u <= 0x200a
    ||| u == 0x2028
    ||| u == 0x2029
    ||| u == 0x202f
    ||| u == 0x205f
    ||| u == 0x3000
}

/// Executable form of [`is_white_space`].
pub fn is_white_space_char(c: char) -> (r: bool)
    ensures
        r == is_white_space(c),
{
    let u = c as u32;
    (0x09 <= u && u <= 0x0d) || u == 0x20 || u == 0x85 || u == 0xa0 || u == 0x1680 || (0x2000
        <= u && u <= 0x200a) || u == 0x2028 || u == 0x2029 || u == 0x202f || u == 0x205f || u
        == 0x3000
}

/// `s` with the white space at both ends removed (`str::trim`).
pub open spec fn trim(s: Seq<char>) -> Seq<char> {
    trim_end(trim_start(s))
}

/// `s` with the white space at its start removed (`str::trim_start`).
pub open spec fn trim_start(s: Seq<char>) -> Seq<char>
    decreases s.len(),
{
    if s.len() > 0 && is_white_space(s[0]) {
        trim_start(s.drop_first())
    } else {
        s
    }
}

/// `s` with the white space at its end removed (`str::trim_end`).
pub open spec fn trim_end(s: Seq<char>) -> Seq<char>
    decreases s.len(),
{
    if s.len() > 0 && is_white_space(s.last()) {
        trim_end(s.drop_last())
    } else {
        s
    }
}

/// `s` with every leading `c` removed (`str::trim_start_matches` with a `char`).
pub open spec fn trim_start_char(s: Seq<char>, c: char) -> Seq<char>
    decreases s.len(),
{
    if s.len() > 0 && s[0] == c {
        trim_start_char(s.drop_first(), c)
    } else {
        s
    }
}

/// `s` with every trailing `c` removed (`str::trim_end_matches` with a `char`).
pub open spec fn trim_end_char(s: Seq<char>, c: char) -> Seq<char>
    decreases s.len(),
{
    if s.len() > 0 && s.last() == c {
        trim_end_char(s.drop_last(), c)
    } else {
        s
    }
}

pub proof fn lemma_trim_start(s: Seq<char>)
    ensures
        trim_start(s).len() <= s.len(),
        trim_start(s).len() > 0 ==> !is_white_space(trim_start(s)[0]),
    decreases s.len(),
{
    if s.len() > 0 && is_white_space(s[0]) {
        lemma_trim_start(s.drop_first());
    }
}

/// The start `a` with `lo <= a <= hi` such that `cs[a..hi]` is
/// `trim_start(cs[lo..hi])`.
pub fn skip_white_space(cs: &Vec<char>, lo: usize, hi: usize) -> (a: usize)
    requires
        lo <= hi <= cs@.len(),
    ensures
        lo <= a <= hi,
        cs@.subrange(a as int, hi as int) == trim_start(cs@.subrange(lo as int, hi as int)),
{
    let mut a = lo;
    while a < hi && is_white_space_char(cs[a])
        invariant
            lo <= a <= hi <= cs@.len(),
            trim_start(cs@.subrange(lo as int, hi as int)) == trim_start(
                cs@.subrange(a as int, hi as int),
            ),
        decreases hi - a,
    {
        assert(cs@.subrange(a as int, hi as int).drop_first() =~= cs@.subrange(a + 1, hi as int));
        a = a + 1;
    }
    a
}

/// The length of the run of non-white-space characters at the start of `s`.
pub open spec fn word_end(s: Seq<char>) -> int
    decreases s.len(),
{
    if s.len() == 0 || is_white_space(s[0]) {
        0
    } else {
        1 + word_end(s.drop_first())
    }
}

pub proof fn lemma_word_end(s: Seq<char>)
    ensures
        0 <= word_end(s) <= s.len(),
        s.len() > 0 && !is_white_space(s[0]) ==> word_end(s) >= 1,
    decreases s.len(),
{
    if s.len() > 0 && !is_white_space(s[0]) {
        lemma_word_end(s.drop_first());
    }
}

pub proof fn lemma_word_end_unique(s: Seq<char>, k: int)
    requires
        0 <= k <= s.len(),
        forall|j: int| 0 <= j < k ==> !is_white_space(s[j]),
        k < s.len() ==> is_white_space(s[k]),
    ensures
        word_end(s) == k,
    decreases s.len(),
{
    if s.len() > 0 && !is_white_space(s[0]) {
        lemma_word_end_unique(s.drop_first(), k - 1);
    }
}

/// The end of the run of non-white-space characters that starts at `lo`.
pub fn find_word_end(cs: &Vec<char>, lo: usize, hi: usize) -> (k: usize)
    requires
        lo <= hi <= cs@.len(),
    ensures
        lo <= k <= hi,
        k - lo == word_end(cs@.subrange(lo as int, hi as int)),
{
    let mut k = lo;
    while k < hi && !is_white_space_char(cs[k])
        invariant
            lo <= k <= hi <= cs@.len(),
            forall|j: int| lo <= j < k ==> !is_white_space(cs@[j]),
        decreases hi - k,
    {
        k = k + 1;
    }
    proof {
        lemma_word_end_unique(cs@.subrange(lo as int, hi as int), k - lo);
    }
    k
}

/// The `n`-th (from 0) of the white-space separated words of `s`, as
/// `str::split_whitespace().nth(n)` gives it.
pub open spec fn nth_word(s: Seq<char>, n: nat) -> Option<Seq<char>>
    decreases s.len(),
{
    let t = trim_start(s);
    if t.len() == 0 {
        None
    } else {
        let e = word_end(t);
        if n == 0 {
            Some(t.take(e))
        } else {
            proof {
                lemma_trim_start(s);
                lemma_word_end(t);
            }
            nth_word(t.skip(e), (n - 1) as nat)
        }
    }
}

/// The bounds `(a, b)` with `lo <= a <= b <= hi` such that `cs[a..b]` is
/// `trim(cs[lo..hi])`.
pub fn trim_bounds(cs: &Vec<char>, lo: usize, hi: usize) -> (r: (usize, usize))
    requires
        lo <= hi <= cs@.len(),
    ensures
        lo <= r.0 <= r.1 <= hi,
        cs@.subrange(r.0 as int, r.1 as int) == trim(cs@.subrange(lo as int, hi as int)),
{
    let mut a = lo;
    while a < hi && is_white_space_char(cs[a])
        invariant
            lo <= a <= hi <= cs@.len(),
            trim_start(cs@.subrange(lo as int, hi as int)) == trim_start(
                cs@.subrange(a as int, hi as int),
            ),
        decreases hi - a,
    {
        assert(cs@.subrange(a as int, hi as int).drop_first() =~= cs@.subrange(a + 1, hi as int));
        a = a + 1;
    }
    assert(trim_start(cs@.subrange(a as int, hi as int)) == cs@.subrange(a as int, hi as int));
    let mut b = hi;
    while b > a && is_white_space_char(cs[b - 1])
        invariant
            lo <= a <= b <= hi <= cs@.len(),
            trim_end(cs@.subrange(a as int, hi as int)) == trim_end(
                cs@.subrange(a as int, b as int),
            ),
        decreases b - a,
    {
        assert(cs@.subrange(a as int, b as int).drop_last() =~= cs@.subrange(a as int, b - 1));
        b = b - 1;
    }
    (a, b)
}

/// The end `b` with `lo <= b <= hi` such that `cs[lo..b]` is
/// `trim_end_char(cs[lo..hi], c)`.
pub fn trim_end_char_bound(cs: &Vec<char>, lo: usize, hi: usize, c: char) -> (b: usize)
    requires
        lo <= hi <= cs@.len(),
    ensures
        lo <= b <= hi,
        cs@.subrange(lo as int, b as int) == trim_end_char(cs@.subrange(lo as int, hi as int), c),
{
    let mut b = hi;
    while b > lo && cs[b - 1] == c
        invariant
            lo <= b <= hi <= cs@.len(),
            trim_end_char(cs@.subrange(lo as int, hi as int), c) == trim_end_char(
                cs@.subrange(lo as int, b as int),
                c,
            ),
        decreases b - lo,
    {
        assert(cs@.subrange(lo as int, b as int).drop_last() =~= cs@.subrange(lo as int, b - 1));
        b = b - 1;
    }
    b
}

// ─── Lines ─────────────────────────────────────────────────────────────────

/// The index of the first `c` in `s`, or `s.len()` when there is none.
pub open spec fn index_of(s: Seq<char>, c: char) -> int
    decreases s.len(),
{
    if s.len() == 0 {
        0
    } else if s[0] == c {
        0
    } else {
        1 + index_of(s.drop_first(), c)
    }
}

/// The index of the last `c` in `s`, or -1 when there is none.
pub open spec fn last_index_of(s: Seq<char>, c: char) -> int
    decreases s.len(),
{
    if s.len() == 0 {
        -1
    } else if s.last() == c {
        s.len() - 1
    } else {
        last_index_of(s.drop_last(), c)
    }
}

/// The first line of a non-empty `s` and what follows its line ending, as
/// `str::lines` splits them: a line ends at `'\n'`, and a `'\r'` right before
/// that `'\n'` belongs to the line ending; the last line needs no ending.
pub open spec fn split_line(s: Seq<char>) -> (Seq<char>, Seq<char>) {
    let k = index_of(s, '\n');
    if k < s.len() {
        let line = s.take(k);
        let line = if line.len() > 0 && line.last() == '\r' {
            line.drop_last()
        } else {
            line
        };
        (line, s.skip(k + 1))
    } else {
        (s, Seq::empty())
    }
}

pub proof fn lemma_index_of(s: Seq<char>, c: char)
    ensures
        0 <= index_of(s, c) <= s.len(),
        forall|j: int| 0 <= j < index_of(s, c) ==> s[j] != c,
        index_of(s, c) < s.len() ==> s[index_of(s, c)] == c,
    decreases s.len(),
{
    if s.len() > 0 && s[0] != c {
        lemma_index_of(s.drop_first(), c);
        assert forall|j: int| 0 <= j < index_of(s, c) implies s[j] != c by {
            if j > 0 {
                assert(s[j] == s.drop_first()[j - 1]);
            }
        }
    }
}

pub proof fn lemma_index_of_unique(s: Seq<char>, c: char, k: int)
    requires
        0 <= k <= s.len(),
        forall|j: int| 0 <= j < k ==> s[j] != c,
        k < s.len() ==> s[k] == c,
    ensures
        index_of(s, c) == k,
    decreases s.len(),
{
    if s.len() > 0 && s[0] != c {
        lemma_index_of_unique(s.drop_first(), c, k - 1);
    }
}

pub proof fn lemma_last_index_of_unique(s: Seq<char>, c: char, k: int)
    requires
        -1 <= k < s.len(),
        forall|j: int| k < j < s.len() ==> s[j] != c,
        k >= 0 ==> s[k] == c,
    ensures
        last_index_of(s, c) == k,
    decreases s.len(),
{
    if s.len() > 0 && s.last() != c {
        lemma_last_index_of_unique(s.drop_last(), c, k);
    }
}

/// The position of the first `c` in `cs[lo..hi]`, or `hi`.
pub fn find_char(cs: &Vec<char>, lo: usize, hi: usize, c: char) -> (k: usize)
    requires
        lo <= hi <= cs@.len(),
    ensures
        lo <= k <= hi,
        k - lo == index_of(cs@.subrange(lo as int, hi as int), c),
{
    let mut k = lo;
    while k < hi && cs[k] != c
        invariant
            lo <= k <= hi <= cs@.len(),
            forall|j: int| lo <= j < k ==> cs@[j] != c,
        decreases hi - k,
    {
        k = k + 1;
    }
    proof {
        lemma_index_of_unique(cs@.subrange(lo as int, hi as int), c, k - lo);
    }
    k
}

/// The position of the last `c` in `cs[lo..hi]`, if there is one.
pub fn rfind_char(cs: &Vec<char>, lo: usize, hi: usize, c: char) -> (r: Option<usize>)
    requires
        lo <= hi <= cs@.len(),
    ensures
        match r {
            Some(k) => lo <= k < hi && k - lo == last_index_of(cs@.subrange(lo as int, hi as int), c),
            None => last_index_of(cs@.subrange(lo as int, hi as int), c) == -1,
        },
{
    let mut k = hi;
    while k > lo && cs[k - 1] != c
        invariant
            lo <= k <= hi <= cs@.len(),
            forall|j: int| k <= j < hi ==> cs@[j] != c,
        decreases k - lo,
    {
        k = k - 1;
    }
    if k == lo {
        proof {
            lemma_last_index_of_unique(cs@.subrange(lo as int, hi as int), c, -1);
        }
        None
    } else {
        proof {
            lemma_last_index_of_unique(cs@.subrange(lo as int, hi as int), c, k - 1 - lo);
        }
        Some(k - 1)
    }
}

/// Splits `cs[lo..hi]` (non-empty) as [`split_line`] does: returns the end of
/// the line's text and the start of the rest.
pub fn line_bounds(cs: &Vec<char>, lo: usize, hi: usize) -> (r: (usize, usize))
    requires
        lo < hi <= cs@.len(),
    ensures
        lo <= r.0 <= r.1 <= hi,
        r.1 > lo,
        split_line(cs@.subrange(lo as int, hi as int)).0 == cs@.subrange(lo as int, r.0 as int),
        split_line(cs@.subrange(lo as int, hi as int)).1 == cs@.subrange(r.1 as int, hi as int),
{
    let k = find_char(cs, lo, hi, '\n');
    let ghost s = cs@.subrange(lo as int, hi as int);
    if k < hi {
        assert(s.take(k - lo) =~= cs@.subrange(lo as int, k as int));
        let e = if k > lo && cs[k - 1] == '\r' {
            assert(cs@.subrange(lo as int, k as int).drop_last() =~= cs@.subrange(
                lo as int,
                k - 1,
            ));
            k - 1
        } else {
            k
        };
        assert(s.skip(k - lo + 1) =~= cs@.subrange(k + 1, hi as int));
        (e, k + 1)
    } else {
        assert(cs@.subrange(hi as int, hi as int) =~= Seq::<char>::empty());
        (hi, hi)
    }
}

// ─── ASCII case ────────────────────────────────────────────────────────────

/// The code of `c` with ASCII upper-case letters mapped to lower case.
pub open spec fn ascii_lower_code(c: char) -> u32 {
    let u = c as u32;
    if 65 <= u <= 90 {
        (u + 32) as u32
    } else {
        u
    }
}

/// `s` starts with `p`, ASCII letters compared without regard to case; `p`
/// is written in lower case.
pub open spec fn has_prefix_ignore_ascii_case(s: Seq<char>, p: Seq<char>) -> bool {
    p.len() <= s.len() && forall|i: int| 0 <= i < p.len() ==> ascii_lower_code(#[trigger] s[i]) == p[i] as u32
}

/// Whether `cs[lo..hi]` starts with `p`, ASCII letters compared without
/// regard to case.
pub fn has_prefix_ignore_ascii_case_at(cs: &Vec<char>, lo: usize, hi: usize, p: &Vec<char>) -> (r: bool)
    requires
        lo <= hi <= cs@.len(),
    ensures
        r == has_prefix_ignore_ascii_case(cs@.subrange(lo as int, hi as int), p@),
{
    let n = p.len();
    if hi - lo < n {
        return false;
    }
    let mut i: usize = 0;
    while i < n
        invariant
            n == p@.len(),
            lo + n <= hi <= cs@.len(),
            i <= n,
            forall|j: int| 0 <= j < i ==> ascii_lower_code(cs@[lo + j]) == p@[j] as u32,
        decreases n - i,
    {
        let k: usize = lo + i;
        let u = cs[k] as u32;
        let l = if 65 <= u && u <= 90 {
            u + 32
        } else {
            u
        };
        if l != p[i] as u32 {
            assert(cs@.subrange(lo as int, hi as int)[i as int] == cs@[k as int]);
            return false;
        }
        i = i + 1;
    }
    assert forall|j: int| 0 <= j < n implies ascii_lower_code(
        #[trigger] cs@.subrange(lo as int, hi as int)[j],
    ) == p@[j] as u32 by {
        assert(cs@.subrange(lo as int, hi as int)[j] == cs@[lo + j]);
    }
    true
}

// ─── Decimal numbers ───────────────────────────────────────────────────────

/// Why a decimal integer could not be parsed (`core::num::IntErrorKind`).
#[derive(Clone, Copy, Debug, PartialEq, Eq, Structural)]
pub enum IntErrorKind {
    Empty,
    InvalidDigit,
    PosOverflow,
}

impl IntErrorKind {
    /// The text that `ParseIntError` displays for this kind.
    pub open spec fn spec_message(self) -> Seq<char> {
        match self {
            IntErrorKind::Empty => "cannot parse integer from empty string"@,
            IntErrorKind::InvalidDigit => "invalid digit found in string"@,
            IntErrorKind::PosOverflow => "number too large to fit in target type"@,
        }
    }

    pub fn message(&self) -> (r: String)
        ensures
            r@ == self.spec_message(),
    {
        match self {
            IntErrorKind::Empty => String::from_str("cannot parse integer from empty string"),
            IntErrorKind::InvalidDigit => String::from_str("invalid digit found in string"),
            IntErrorKind::PosOverflow => String::from_str("number too large to fit in target type"),
        }
    }
}

pub open spec fn is_ascii_digit(c: char) -> bool {
    '0' <= c <= '9'
}

pub open spec fn digit_value(c: char) -> nat {
    (c as int - '0' as int) as nat
}

/// Reads the decimal digits `d` from left to right, failing at the first
/// character that is no digit or that takes the value above `max`.
pub open spec fn scan_digits(d: Seq<char>, max: nat) -> Result<nat, IntErrorKind>
    decreases d.len(),
{
    if d.len() == 0 {
        Ok(0)
    } else {
        match scan_digits(d.drop_last(), max) {
            Err(k) => Err(k),
            Ok(v) => if !is_ascii_digit(d.last()) {
                Err(IntErrorKind::InvalidDigit)
            } else if v * 10 + digit_value(d.last()) > max {
                Err(IntErrorKind::PosOverflow)
            } else {
                Ok(v * 10 + digit_value(d.last()))
            },
        }
    }
}

/// What `str::parse` gives for an unsigned integer type whose largest value
/// is `max`: an optional `'+'`, then one or more decimal digits.
pub open spec fn parse_unsigned(s: Seq<char>, max: nat) -> Result<nat, IntErrorKind> {
    if s.len() == 0 {
        Err(IntErrorKind::Empty)
    } else if s.len() == 1 && (s[0] == '+' || s[0] == '-') {
        Err(IntErrorKind::InvalidDigit)
    } else if s[0] == '+' {
        scan_digits(s.drop_first(), max)
    } else {
        scan_digits(s, max)
    }
}

/// Reads the decimal digits `cs[lo..hi]` as [`scan_digits`] does.
fn scan_digit_chars(cs: &Vec<char>, lo: usize, hi: usize, max: u64) -> (r: Result<u64, IntErrorKind>)
    requires
        lo <= hi <= cs@.len(),
        max <= u32::MAX,
    ensures
        match r {
            Ok(v) => scan_digits(cs@.subrange(lo as int, hi as int), max as nat) == Ok::<
                nat,
                IntErrorKind,
            >(v as nat),
            Err(k) => scan_digits(cs@.subrange(lo as int, hi as int), max as nat) == Err::<
                nat,
                IntErrorKind,
            >(k),
        },
{
    let mut v: u64 = 0;
    let mut i = lo;
    assert(cs@.subrange(lo as int, lo as int) =~= Seq::<char>::empty());
    while i < hi
        invariant
            lo <= i <= hi <= cs@.len(),
            max <= u32::MAX,
            v <= max,
            scan_digits(cs@.subrange(lo as int, i as int), max as nat) == Ok::<nat, IntErrorKind>(
                v as nat,
            ),
        decreases hi - i,
    {
        let c = cs[i];
        assert(cs@.subrange(lo as int, i + 1).drop_last() =~= cs@.subrange(lo as int, i as int));
        if !('0' <= c && c <= '9') {
            proof {
                lemma_scan_prefix_error(cs@, lo as int, i + 1, hi as int, max as nat);
            }
            return Err(IntErrorKind::InvalidDigit);
        }
        let d = (c as u32 - '0' as u32) as u64;
        if v * 10 + d > max {
            proof {
                lemma_scan_prefix_error(cs@, lo as int, i + 1, hi as int, max as nat);
            }
            return Err(IntErrorKind::PosOverflow);
        }
        v = v * 10 + d;
        i = i + 1;
    }
    Ok(v)
}

proof fn lemma_scan_prefix_error(cs: Seq<char>, lo: int, j: int, hi: int, max: nat)
    requires
        0 <= lo <= j <= hi <= cs.len(),
        scan_digits(cs.subrange(lo, j), max) is Err,
    ensures
        scan_digits(cs.subrange(lo, hi), max) == scan_digits(cs.subrange(lo, j), max),
{
    let d = cs.subrange(lo, hi);
    assert(d.take(j - lo) =~= cs.subrange(lo, j));
    lemma_scan_error_extends(d, j - lo, max);
    assert(d =~= d.take(hi - lo));
}

/// Parses `cs[lo..hi]` as `str::parse` parses an unsigned integer whose
/// largest value is `max`.
pub fn parse_unsigned_chars(cs: &Vec<char>, lo: usize, hi: usize, max: u64) -> (r: Result<
    u64,
    IntErrorKind,
>)
    requires
        lo <= hi <= cs@.len(),
        max <= u32::MAX,
    ensures
        match r {
            Ok(v) => parse_unsigned(cs@.subrange(lo as int, hi as int), max as nat) == Ok::<
                nat,
                IntErrorKind,
            >(v as nat),
            Err(k) => parse_unsigned(cs@.subrange(lo as int, hi as int), max as nat) == Err::<
                nat,
                IntErrorKind,
            >(k),
        },
{
    let ghost s = cs@.subrange(lo as int, hi as int);
    if lo == hi {
        return Err(IntErrorKind::Empty);
    }
    if hi - lo == 1 && (cs[lo] == '+' || cs[lo] == '-') {
        return Err(IntErrorKind::InvalidDigit);
    }
    if cs[lo] == '+' {
        assert(s.drop_first() =~= cs@.subrange(lo + 1, hi as int));
        scan_digit_chars(cs, lo + 1, hi, max)
    } else {
        scan_digit_chars(cs, lo, hi, max)
    }
}

/// Once the scan of a prefix fails, the scan of the whole fails the same way.
pub proof fn lemma_scan_error_extends(d: Seq<char>, n: int, max: nat)
    requires
        0 <= n <= d.len(),
        scan_digits(d.take(n), max) is Err,
    ensures
        scan_digits(d.take(d.len() as int), max) == scan_digits(d.take(n), max),
    decreases d.len() - n,
{
    if n < d.len() {
        assert(d.take(n + 1).drop_last() =~= d.take(n));
        lemma_scan_error_extends(d, n + 1, max);
    }
}

/// The decimal digit character for `d < 10`.
pub open spec fn digit_char(d: nat) -> char {
    if d == 0 {
        '0'
    } else if d == 1 {
        '1'
    } else if d == 2 {
        '2'
    } else if d == 3 {
        '3'
    } else if d == 4 {
        '4'
    } else if d == 5 {
        '5'
    } else if d == 6 {
        '6'
    } else if d == 7 {
        '7'
    } else if d == 8 {
        '8'
    } else {
        '9'
    }
}

/// The decimal representation of `n`, as `{}` formats an unsigned integer.
pub open spec fn decimal(n: nat) -> Seq<char>
    decreases n,
{
    if n < 10 {
        seq![digit_char(n)]
    } else {
        decimal(n / 10).push(digit_char(n % 10))
    }
}

/// The decimal representation of `v`, as `{}` formats a signed integer.
pub open spec fn signed_decimal(v: int) -> Seq<char> {
    if v < 0 {
        seq!['-'] + decimal((-v) as nat)
    } else {
        decimal(v as nat)
    }
}

fn digit_to_char(d: u64) -> (c: char)
    requires
        d < 10,
    ensures
        c == digit_char(d as nat),
{
    if d == 0 {
        '0'
    } else if d == 1 {
        '1'
    } else if d == 2 {
        '2'
    } else if d == 3 {
        '3'
    } else if d == 4 {
        '4'
    } else if d == 5 {
        '5'
    } else if d == 6 {
        '6'
    } else if d == 7 {
        '7'
    } else if d == 8 {
        '8'
    } else {
        '9'
    }
}

/// Appends the decimal representation of `n` to `out`.
pub fn push_decimal(out: &mut String, n: u64)
    ensures
        final(out)@ == old(out)@ + decimal(n as nat),
    decreases n,
{
    if n >= 10 {
        push_decimal(out, n / 10);
    }
    push_char(out, digit_to_char(n % 10));
    proof {
        if n >= 10 {
            assert(decimal(n as nat) == decimal((n / 10) as nat).push(digit_char((n % 10) as nat)));
        }
    }
}

/// Appends the decimal representation of the signed `v` to `out`.
pub fn push_signed_decimal(out: &mut String, v: i64)
    ensures
        final(out)@ == old(out)@ + signed_decimal(v as int),
{
    if v < 0 {
        push_char(out, '-');
        let m: u64 = if v == i64::MIN {
            9223372036854775808u64
        } else {
            (-v) as u64
        };
        push_decimal(out, m);
    } else {
        push_decimal(out, v as u64);
    }
}

/// Every character of a decimal representation is a digit, and the digits
/// read back as the number.
pub proof fn lemma_decimal_digits(n: nat)
    ensures
        decimal(n).len() > 0,
        forall|i: int| 0 <= i < decimal(n).len() ==> is_ascii_digit(#[trigger] decimal(n)[i]),
        scan_digits(decimal(n), n) == Ok::<nat, IntErrorKind>(n),
        decimal(n)[0] != '+' && decimal(n)[0] != '-',
    decreases n,
{
    lemma_digit_char(n % 10);
    if n < 10 {
        assert(decimal(n).drop_last() =~= Seq::<char>::empty());
        assert(scan_digits(Seq::<char>::empty(), n) == Ok::<nat, IntErrorKind>(0));
    } else {
        lemma_decimal_digits(n / 10);
        let d = decimal(n);
        assert(d.drop_last() =~= decimal(n / 10));
        lemma_scan_monotone_max(decimal(n / 10), n / 10, n);
        assert(d[0] == decimal(n / 10)[0]);
    }
}

pub proof fn lemma_digit_char(d: nat)
    requires
        d < 10,
    ensures
        is_ascii_digit(digit_char(d)),
        digit_value(digit_char(d)) == d,
{
}

/// Raising the largest accepted value keeps a successful scan.
pub proof fn lemma_scan_monotone_max(d: Seq<char>, m1: nat, m2: nat)
    requires
        m1 <= m2,
        scan_digits(d, m1) is Ok,
    ensures
        scan_digits(d, m2) == scan_digits(d, m1),
    decreases d.len(),
{
    if d.len() > 0 {
        lemma_scan_monotone_max(d.drop_last(), m1, m2);
    }
}

/// Formatting a number in decimal and parsing it back as an integer type that
/// holds it gives the number again.
pub proof fn lemma_decimal_parse_roundtrip(n: nat, max: nat)
    requires
        n <= max,
    ensures
        parse_unsigned(decimal(n), max) == Ok::<nat, IntErrorKind>(n),
{
    lemma_decimal_digits(n);
    lemma_scan_monotone_max(decimal(n), n, max);
    if decimal(n).len() == 1 {
        assert(is_ascii_digit(decimal(n)[0]));
    }
}

} // verus!
