//! Scanning of tool output, as UTF-8 bytes.
//!
//! Every position is a byte index. The delimiters that the parsers look for are
//! ASCII, and no byte of a multi-byte UTF-8 sequence is ASCII, so scanning the
//! bytes finds exactly what scanning the characters would.

use vstd::prelude::*;

verus! {

/// A position found by an executable search, as a specification integer.
pub open spec fn pos(r: Option<usize>) -> Option<int> {
    match r {
        Some(k) => Some(k as int),
        None => None,
    }
}

/// `pat` occurs in `s` starting at `i`.
pub open spec fn occurs_at(s: Seq<u8>, pat: Seq<u8>, i: int) -> bool {
    0 <= i && i + pat.len() <= s.len() && s.subrange(i, i + pat.len()) == pat
}

/// The first position `k >= i` at which `pat` occurs and ends by `hi`.
pub open spec fn find_from(s: Seq<u8>, pat: Seq<u8>, i: int, hi: int) -> Option<int>
    decreases hi + 1 - i,
{
    if i < 0 || hi > s.len() || i + pat.len() > hi {
        None
    } else if occurs_at(s, pat, i) {
        Some(i)
    } else {
        find_from(s, pat, i + 1, hi)
    }
}

/// The first position in `[i, hi)` that holds byte `c`.
pub open spec fn index_from(s: Seq<u8>, c: u8, i: int, hi: int) -> Option<int>
    decreases hi - i,
{
    if i < 0 || hi > s.len() || i >= hi {
        None
    } else if s[i] == c {
        Some(i)
    } else {
        index_from(s, c, i + 1, hi)
    }
}

/// The last position in `[lo, hi)` that holds byte `c`.
pub open spec fn last_index_in(s: Seq<u8>, c: u8, lo: int, hi: int) -> Option<int>
    decreases hi - lo,
{
    if lo < 0 || hi > s.len() || lo >= hi {
        None
    } else if s[hi - 1] == c {
        Some(hi - 1)
    } else {
        last_index_in(s, c, lo, hi - 1)
    }
}

/// ASCII white space: space, tab, line feed, vertical tab, form feed, carriage return.
pub open spec fn is_space(b: u8) -> bool {
    b == 32 || (9 <= b && b <= 13)
}

/// The first position at or after `i` that is not white space, or `hi`.
pub open spec fn skip_space(s: Seq<u8>, i: int, hi: int) -> int
    decreases hi - i,
{
    if i < 0 || hi > s.len() || i >= hi {
        hi
    } else if is_space(s[i]) {
        skip_space(s, i + 1, hi)
    } else {
        i
    }
}

/// The first position at or after `i` that is white space, or `hi`.
pub open spec fn token_end(s: Seq<u8>, i: int, hi: int) -> int
    decreases hi - i,
{
    if i < 0 || hi > s.len() || i >= hi {
        hi
    } else if is_space(s[i]) {
        i
    } else {
        token_end(s, i + 1, hi)
    }
}

/// Bounds of the `n`-th (from zero) white-space separated token of `s[i..hi]`.
pub open spec fn nth_token(s: Seq<u8>, i: int, hi: int, n: nat) -> Option<(int, int)>
    decreases n,
{
    let start = skip_space(s, i, hi);
    if start >= hi {
        None
    } else if n == 0 {
        Some((start, token_end(s, start, hi)))
    } else {
        nth_token(s, token_end(s, start, hi), hi, (n - 1) as nat)
    }
}

/// End of the line that starts at `i`: the next line feed, or the end of the text.
pub open spec fn line_end(t: Seq<u8>, i: int) -> int {
    match index_from(t, 10, i, t.len() as int) {
        Some(k) => k,
        None => t.len() as int,
    }
}

/// `i` is where a line of `t` starts.
pub open spec fn is_line_start(t: Seq<u8>, i: int) -> bool {
    i == 0 || (0 < i <= t.len() && t[i - 1] == 10)
}

/// The value of an ASCII digit in bases up to 16 (either letter case), or 16.
pub open spec fn digit_of(b: u8) -> nat {
    if 48 <= b && b <= 57 {
        (b - 48) as nat
    } else if 97 <= b && b <= 102 {
        (b - 87) as nat
    } else if 65 <= b && b <= 70 {
        (b - 55) as nat
    } else {
        16
    }
}

/// Every byte of `s[lo..hi]` is a digit in base `radix`.
pub open spec fn all_digits(s: Seq<u8>, lo: int, hi: int, radix: nat) -> bool {
    forall|k: int| lo <= k < hi ==> digit_of(#[trigger] s[k]) < radix
}

/// The number that the digits `s[lo..hi]` write in base `radix`.
pub open spec fn digits_value(s: Seq<u8>, lo: int, hi: int, radix: nat) -> nat
    decreases hi - lo,
{
    if hi <= lo {
        0
    } else {
        digits_value(s, lo, hi - 1, radix) * radix + digit_of(s[hi - 1])
    }
}

/// `s[lo..hi]` read as an unsigned number in base `radix`: one or more
/// digits, with no sign and no prefix, whose value fits in 64 bits.
pub open spec fn parse_number(s: Seq<u8>, lo: int, hi: int, radix: nat) -> Option<u64> {
    if lo < hi && all_digits(s, lo, hi, radix) && digits_value(s, lo, hi, radix) <= u64::MAX {
        Some(digits_value(s, lo, hi, radix) as u64)
    } else {
        None
    }
}

pub proof fn lemma_digits_value_grows(s: Seq<u8>, lo: int, mid: int, hi: int, radix: nat)
    requires
        lo <= mid <= hi,
        radix >= 1,
    ensures
        digits_value(s, lo, mid, radix) <= digits_value(s, lo, hi, radix),
    decreases hi - mid,
{
    if mid < hi {
        lemma_digits_value_grows(s, lo, mid, hi - 1, radix);
        let v = digits_value(s, lo, hi - 1, radix);
        assert(v <= v * radix) by (nonlinear_arith)
            requires
                radix >= 1,
        ;
    }
}

pub proof fn lemma_find_from_bounds(s: Seq<u8>, pat: Seq<u8>, i: int, hi: int)
    ensures
        find_from(s, pat, i, hi) matches Some(k) ==> i <= k && k + pat.len() <= hi
            && occurs_at(s, pat, k),
    decreases hi + 1 - i,
{
    if !(i < 0 || hi > s.len() || i + pat.len() > hi) && !occurs_at(s, pat, i) {
        lemma_find_from_bounds(s, pat, i + 1, hi);
    }
}

pub proof fn lemma_index_from_bounds(s: Seq<u8>, c: u8, i: int, hi: int)
    ensures
        index_from(s, c, i, hi) matches Some(k) ==> i <= k < hi && s[k] == c,
    decreases hi - i,
{
    if !(i < 0 || hi > s.len() || i >= hi) && s[i] != c {
        lemma_index_from_bounds(s, c, i + 1, hi);
    }
}

pub proof fn lemma_last_index_bounds(s: Seq<u8>, c: u8, lo: int, hi: int)
    ensures
        last_index_in(s, c, lo, hi) matches Some(k) ==> lo <= k < hi && s[k] == c,
    decreases hi - lo,
{
    if !(lo < 0 || hi > s.len() || lo >= hi) && s[hi - 1] != c {
        lemma_last_index_bounds(s, c, lo, hi - 1);
    }
}

pub proof fn lemma_skip_space_bounds(s: Seq<u8>, i: int, hi: int)
    requires
        0 <= i <= hi <= s.len(),
    ensures
        i <= skip_space(s, i, hi) <= hi,
        skip_space(s, i, hi) < hi ==> !is_space(s[skip_space(s, i, hi)]),
    decreases hi - i,
{
    if i < hi && is_space(s[i]) {
        lemma_skip_space_bounds(s, i + 1, hi);
    }
}

pub proof fn lemma_token_end_bounds(s: Seq<u8>, i: int, hi: int)
    requires
        0 <= i <= hi <= s.len(),
    ensures
        i <= token_end(s, i, hi) <= hi,
    decreases hi - i,
{
    if i < hi && !is_space(s[i]) {
        lemma_token_end_bounds(s, i + 1, hi);
    }
}

pub proof fn lemma_nth_token_bounds(s: Seq<u8>, i: int, hi: int, n: nat)
    requires
        0 <= i <= hi <= s.len(),
    ensures
        nth_token(s, i, hi, n) matches Some((a, b)) ==> i <= a < b <= hi,
    decreases n,
{
    lemma_skip_space_bounds(s, i, hi);
    let start = skip_space(s, i, hi);
    if start < hi {
        lemma_token_end_bounds(s, start + 1, hi);
        assert(token_end(s, start, hi) > start);
        if n > 0 {
            lemma_nth_token_bounds(s, token_end(s, start, hi), hi, (n - 1) as nat);
        }
    }
}

/// Whether `pat` occurs in `s` at `i`.
pub fn matches_at(s: &[u8], pat: &[u8], i: usize) -> (r: bool)
    ensures
        r == occurs_at(s@, pat@, i as int),
{
    let n = s.len();
    let m = pat.len();
    if i > n || m > n - i {
        return false;
    }
    let mut j: usize = 0;
    while j < m
        invariant
            j <= m == pat@.len(),
            i + m <= n == s@.len(),
            s@.subrange(i as int, i + j) =~= pat@.subrange(0, j as int),
        decreases m - j,
    {
        if s[i + j] != pat[j] {
            assert(s@.subrange(i as int, i + m)[j as int] != pat@[j as int]);
            return false;
        }
        j = j + 1;
    }
    assert(pat@.subrange(0, m as int) =~= pat@);
    true
}

/// The first position in `[from, hi)` at which all of `pat` occurs.
pub fn find(s: &[u8], pat: &[u8], from: usize, hi: usize) -> (r: Option<usize>)
    requires
        from <= hi <= s@.len(),
    ensures
        pos(r) == find_from(s@, pat@, from as int, hi as int),
{
    let m = pat.len();
    if m == 0 {
        assert(s@.subrange(from as int, from as int) =~= pat@);
        return Some(from);
    }
    let mut i = from;
    while m <= hi && i <= hi - m
        invariant
            from <= i,
            hi <= s@.len(),
            m == pat@.len() >= 1,
            find_from(s@, pat@, from as int, hi as int) == find_from(s@, pat@, i as int, hi as int),
        decreases hi - i,
    {
        if matches_at(s, pat, i) {
            return Some(i);
        }
        i = i + 1;
    }
    None
}

/// The first position in `[from, hi)` that holds `c`.
pub fn index_of(s: &[u8], c: u8, from: usize, hi: usize) -> (r: Option<usize>)
    requires
        from <= hi <= s@.len(),
    ensures
        pos(r) == index_from(s@, c, from as int, hi as int),
{
    let mut i = from;
    while i < hi
        invariant
            from <= i <= hi <= s@.len(),
            index_from(s@, c, from as int, hi as int) == index_from(s@, c, i as int, hi as int),
        decreases hi - i,
    {
        if s[i] == c {
            return Some(i);
        }
        i = i + 1;
    }
    None
}

/// The last position in `[lo, hi)` that holds `c`.
pub fn last_index_of(s: &[u8], c: u8, lo: usize, hi: usize) -> (r: Option<usize>)
    requires
        lo <= hi <= s@.len(),
    ensures
        pos(r) == last_index_in(s@, c, lo as int, hi as int),
{
    let mut j = hi;
    while j > lo
        invariant
            lo <= j <= hi <= s@.len(),
            last_index_in(s@, c, lo as int, hi as int) == last_index_in(s@, c, lo as int, j as int),
        decreases j,
    {
        if s[j - 1] == c {
            return Some(j - 1);
        }
        j = j - 1;
    }
    None
}

pub fn is_space_byte(b: u8) -> (r: bool)
    ensures
        r == is_space(b),
{
    b == 32 || (9 <= b && b <= 13)
}

/// The first position at or after `i` that is not white space, or `hi`.
pub fn skip_spaces(s: &[u8], i: usize, hi: usize) -> (r: usize)
    requires
        i <= hi <= s@.len(),
    ensures
        r == skip_space(s@, i as int, hi as int),
{
    let mut k = i;
    while k < hi && is_space_byte(s[k])
        invariant
            i <= k <= hi <= s@.len(),
            skip_space(s@, i as int, hi as int) == skip_space(s@, k as int, hi as int),
        decreases hi - k,
    {
        k = k + 1;
    }
    k
}

/// The first position at or after `i` that is white space, or `hi`.
pub fn find_token_end(s: &[u8], i: usize, hi: usize) -> (r: usize)
    requires
        i <= hi <= s@.len(),
    ensures
        r == token_end(s@, i as int, hi as int),
{
    let mut k = i;
    while k < hi && !is_space_byte(s[k])
        invariant
            i <= k <= hi <= s@.len(),
            token_end(s@, i as int, hi as int) == token_end(s@, k as int, hi as int),
        decreases hi - k,
    {
        k = k + 1;
    }
    k
}

/// Bounds of the `n`-th (from zero) white-space separated token of `s[i..hi]`.
pub fn token(s: &[u8], i: usize, hi: usize, n: usize) -> (r: Option<(usize, usize)>)
    requires
        i <= hi <= s@.len(),
    ensures
        match r {
            Some((a, b)) => nth_token(s@, i as int, hi as int, n as nat) == Some((a as int, b as int)),
            None => nth_token(s@, i as int, hi as int, n as nat) is None,
        },
{
    let mut at = i;
    let mut left = n;
    loop
        invariant
            i <= at <= hi <= s@.len(),
            left <= n,
            nth_token(s@, i as int, hi as int, n as nat) == nth_token(
                s@,
                at as int,
                hi as int,
                left as nat,
            ),
        decreases left,
    {
        let start = skip_spaces(s, at, hi);
        proof {
            lemma_skip_space_bounds(s@, at as int, hi as int);
        }
        if start >= hi {
            return None;
        }
        let end = find_token_end(s, start, hi);
        proof {
            lemma_token_end_bounds(s@, start as int, hi as int);
        }
        if left == 0 {
            return Some((start, end));
        }
        at = end;
        left = left - 1;
    }
}

/// Reads `s[lo..hi]` as an unsigned number in base `radix`.
pub fn parse_digits(s: &[u8], lo: usize, hi: usize, radix: u64) -> (r: Option<u64>)
    requires
        lo <= hi <= s@.len(),
        2 <= radix <= 16,
    ensures
        r == parse_number(s@, lo as int, hi as int, radix as nat),
{
    if lo == hi {
        return None;
    }
    let mut acc: u64 = 0;
    let mut i = lo;
    while i < hi
        invariant
            lo <= i <= hi <= s@.len(),
            lo < hi,
            2 <= radix <= 16,
            all_digits(s@, lo as int, i as int, radix as nat),
            acc as nat == digits_value(s@, lo as int, i as int, radix as nat),
        decreases hi - i,
    {
        let b = s[i];
        let d: u64 = if 48 <= b && b <= 57 {
            (b - 48) as u64
        } else if 97 <= b && b <= 102 {
            (b - 87) as u64
        } else if 65 <= b && b <= 70 {
            (b - 55) as u64
        } else {
            16
        };
        if d >= radix {
            assert(!all_digits(s@, lo as int, hi as int, radix as nat));
            return None;
        }
        assert(acc as u128 * radix as u128 <= 0xffff_ffff_ffff_ffff * 16) by (nonlinear_arith)
            requires
                acc <= 0xffff_ffff_ffff_ffff,
                radix <= 16,
        ;
        let next: u128 = acc as u128 * radix as u128 + d as u128;
        if next > 0xffff_ffff_ffff_ffff {
            proof {
                assert(digits_value(s@, lo as int, i + 1, radix as nat) == next);
                lemma_digits_value_grows(s@, lo as int, i + 1, hi as int, radix as nat);
            }
            return None;
        }
        acc = next as u64;
        i = i + 1;
    }
    Some(acc)
}

/// Whether two byte strings are equal.
pub fn bytes_equal(a: &[u8], b: &[u8]) -> (r: bool)
    ensures
        r == (a@ == b@),
{
    if a.len() != b.len() {
        return false;
    }
    let r = matches_at(a, b, 0);
    assert(a@.subrange(0, b@.len() as int) =~= a@);
    r
}

/// `find_from` gives the first occurrence.
pub proof fn lemma_find_from_first(s: Seq<u8>, pat: Seq<u8>, i: int, hi: int, k: int)
    requires
        0 <= i <= k,
        k + pat.len() <= hi <= s.len(),
        occurs_at(s, pat, k),
        forall|j: int| i <= j < k ==> !occurs_at(s, pat, j),
    ensures
        find_from(s, pat, i, hi) == Some(k),
    decreases k - i,
{
    if i < k {
        lemma_find_from_first(s, pat, i + 1, hi, k);
    }
}

/// `find_from` finds nothing where there is nothing to find.
pub proof fn lemma_find_from_none(s: Seq<u8>, pat: Seq<u8>, i: int, hi: int)
    requires
        0 <= i,
        hi <= s.len(),
        forall|j: int| i <= j && j + pat.len() <= hi ==> !occurs_at(s, pat, j),
    ensures
        find_from(s, pat, i, hi) is None,
    decreases hi + 1 - i,
{
    if i + pat.len() <= hi {
        lemma_find_from_none(s, pat, i + 1, hi);
    }
}

/// `index_from` gives the first position that holds the byte.
pub proof fn lemma_index_from_first(s: Seq<u8>, c: u8, i: int, hi: int, k: int)
    requires
        0 <= i <= k < hi <= s.len(),
        s[k] == c,
        forall|j: int| i <= j < k ==> s[j] != c,
    ensures
        index_from(s, c, i, hi) == Some(k),
    decreases k - i,
{
    if i < k {
        lemma_index_from_first(s, c, i + 1, hi, k);
    }
}

/// Where the byte occurs at `k`, `index_from` finds it there or earlier.
pub proof fn lemma_index_from_at_most(s: Seq<u8>, c: u8, i: int, hi: int, k: int)
    requires
        0 <= i <= k < hi <= s.len(),
        s[k] == c,
    ensures
        index_from(s, c, i, hi) matches Some(j) && i <= j <= k && s[j] == c,
    decreases k - i,
{
    if i < k && s[i] != c {
        lemma_index_from_at_most(s, c, i + 1, hi, k);
    }
}

/// `last_index_in` gives the last position that holds the byte.
pub proof fn lemma_last_index_last(s: Seq<u8>, c: u8, lo: int, hi: int, k: int)
    requires
        0 <= lo <= k < hi <= s.len(),
        s[k] == c,
        forall|j: int| k < j < hi ==> s[j] != c,
    ensures
        last_index_in(s, c, lo, hi) == Some(k),
    decreases hi - k,
{
    if k < hi - 1 {
        lemma_last_index_last(s, c, lo, hi - 1, k);
    }
}

/// The token that starts after white space at `a` and ends before white space at `b`.
pub proof fn lemma_first_token(s: Seq<u8>, i: int, a: int, b: int, hi: int)
    requires
        0 <= i <= a < b <= hi <= s.len(),
        forall|j: int| i <= j < a ==> is_space(#[trigger] s[j]),
        forall|j: int| a <= j < b ==> !is_space(#[trigger] s[j]),
        b == hi || is_space(s[b]),
    ensures
        nth_token(s, i, hi, 0) == Some((a, b)),
{
    lemma_skip_space_at(s, i, a, hi);
    lemma_token_end_at(s, a, b, hi);
}

pub proof fn lemma_skip_space_at(s: Seq<u8>, i: int, a: int, hi: int)
    requires
        0 <= i <= a < hi <= s.len(),
        forall|j: int| i <= j < a ==> is_space(#[trigger] s[j]),
        !is_space(s[a]),
    ensures
        skip_space(s, i, hi) == a,
    decreases a - i,
{
    if i < a {
        lemma_skip_space_at(s, i + 1, a, hi);
    }
}

proof fn lemma_token_end_at(s: Seq<u8>, a: int, b: int, hi: int)
    requires
        0 <= a <= b <= hi <= s.len(),
        forall|j: int| a <= j < b ==> !is_space(#[trigger] s[j]),
        b == hi || is_space(s[b]),
    ensures
        token_end(s, a, hi) == b,
    decreases b - a,
{
    if a < b {
        lemma_token_end_at(s, a + 1, b, hi);
    }
}

/// End of a line's text with trailing white space left out.
pub open spec fn trim_end(s: Seq<u8>, a: int, b: int) -> int
    decreases b - a,
{
    if a < b && 0 < b <= s.len() && is_space(s[b - 1]) {
        trim_end(s, a, b - 1)
    } else {
        b
    }
}

/// The first position at or after `i` that does not hold `c`, or `hi`.
pub open spec fn skip_byte(s: Seq<u8>, c: u8, i: int, hi: int) -> int
    decreases hi - i,
{
    if i < 0 || hi > s.len() || i >= hi {
        hi
    } else if s[i] == c {
        skip_byte(s, c, i + 1, hi)
    } else {
        i
    }
}

/// End of the field that starts at `i`: the next `c`, or `hi`.
pub open spec fn field_end(s: Seq<u8>, c: u8, i: int, hi: int) -> int {
    match index_from(s, c, i, hi) {
        Some(k) => k,
        None => hi,
    }
}

/// Bounds of the `n`-th (from zero) non-empty field of `s[i..hi]`, where
/// fields are separated by the byte `c` alone.
pub open spec fn nth_field(s: Seq<u8>, c: u8, i: int, hi: int, n: nat) -> Option<(int, int)>
    decreases n,
{
    let start = skip_byte(s, c, i, hi);
    if start >= hi {
        None
    } else if n == 0 {
        Some((start, field_end(s, c, start, hi)))
    } else {
        nth_field(s, c, field_end(s, c, start, hi), hi, (n - 1) as nat)
    }
}

pub proof fn lemma_skip_byte_bounds(s: Seq<u8>, c: u8, i: int, hi: int)
    requires
        0 <= i <= hi <= s.len(),
    ensures
        i <= skip_byte(s, c, i, hi) <= hi,
        skip_byte(s, c, i, hi) < hi ==> s[skip_byte(s, c, i, hi)] != c,
    decreases hi - i,
{
    if i < hi && s[i] == c {
        lemma_skip_byte_bounds(s, c, i + 1, hi);
    }
}

pub proof fn lemma_nth_field_bounds(s: Seq<u8>, c: u8, i: int, hi: int, n: nat)
    requires
        0 <= i <= hi <= s.len(),
    ensures
        nth_field(s, c, i, hi, n) matches Some((a, b)) ==> i <= a < b <= hi,
    decreases n,
{
    lemma_skip_byte_bounds(s, c, i, hi);
    let start = skip_byte(s, c, i, hi);
    if start < hi {
        lemma_index_from_bounds(s, c, start + 1, hi);
        let e = field_end(s, c, start, hi);
        assert(start < e <= hi);
        if n > 0 {
            lemma_nth_field_bounds(s, c, e, hi, (n - 1) as nat);
        }
    }
}

/// A position past a byte that is not white space stays within the trimmed text.
pub proof fn lemma_trim_end_past(s: Seq<u8>, a: int, b: int, j: int)
    requires
        0 <= a <= j < b <= s.len(),
        !is_space(s[j]),
    ensures
        j < trim_end(s, a, b) <= b,
    decreases b - a,
{
    if b - 1 > j {
        lemma_trim_end_past(s, a, b - 1, j);
    }
}

/// Bounds of the `n`-th (from zero) non-empty field of `s[i..hi]`, where
/// fields are separated by the byte `c` alone.
pub fn field(s: &[u8], c: u8, i: usize, hi: usize, n: usize) -> (r: Option<(usize, usize)>)
    requires
        i <= hi <= s@.len(),
    ensures
        match r {
            Some((a, b)) => nth_field(s@, c, i as int, hi as int, n as nat) == Some((a as int, b as int)),
            None => nth_field(s@, c, i as int, hi as int, n as nat) is None,
        },
{
    let mut at = i;
    let mut left = n;
    loop
        invariant
            i <= at <= hi <= s@.len(),
            left <= n,
            nth_field(s@, c, i as int, hi as int, n as nat) == nth_field(
                s@,
                c,
                at as int,
                hi as int,
                left as nat,
            ),
        decreases left,
    {
        let mut start = at;
        while start < hi && s[start] == c
            invariant
                at <= start <= hi <= s@.len(),
                skip_byte(s@, c, at as int, hi as int) == skip_byte(s@, c, start as int, hi as int),
            decreases hi - start,
        {
            start = start + 1;
        }
        if start >= hi {
            return None;
        }
        proof {
            lemma_index_from_bounds(s@, c, start as int, hi as int);
        }
        let end = match index_of(s, c, start, hi) {
            Some(k) => k,
            None => hi,
        };
        if left == 0 {
            return Some((start, end));
        }
        at = end;
        left = left - 1;
    }
}

/// The end of `s[a..b]` with trailing white space left out.
pub fn trim_end_at(s: &[u8], a: usize, b: usize) -> (r: usize)
    requires
        a <= b <= s@.len(),
    ensures
        r == trim_end(s@, a as int, b as int),
        a <= r <= b,
{
    let mut k = b;
    while a < k && is_space_byte(s[k - 1])
        invariant
            a <= k <= b <= s@.len(),
            trim_end(s@, a as int, b as int) == trim_end(s@, a as int, k as int),
        decreases k,
    {
        k = k - 1;
    }
    k
}

/// End of the line that starts at `i`.
pub fn line_end_at(t: &[u8], i: usize) -> (r: usize)
    requires
        i <= t@.len(),
    ensures
        r as int == line_end(t@, i as int),
        i <= r <= t@.len(),
{
    proof {
        lemma_index_from_bounds(t@, 10, i as int, t@.len() as int);
    }
    match index_of(t, 10, i, t.len()) {
        Some(k) => k,
        None => t.len(),
    }
}

} // verus!
