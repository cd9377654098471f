//! Byte-level text primitives shared by the text formats.
//!
//! Text is handled as its UTF-8 bytes. Every delimiter the formats use is an
//! ASCII byte, and no byte of a multi-byte UTF-8 character is ASCII, so byte
//! offsets found here are the ones `str::find` and `char_indices` report on
//! the same text. Whitespace is the set `char::is_whitespace` accepts, matched
//! on its UTF-8 encoding.
use vstd::prelude::*;
use vstd::slice::slice_subrange;

verus! {

// ───────────── appending ─────────────

/// Appends all of `b` to `out`.
pub fn append_bytes(out: &mut Vec<u8>, b: &[u8])
    ensures
        final(out)@ == old(out)@ + b@,
{
    let mut i: usize = 0;
    while i < b.len()
        invariant
            i <= b@.len(),
            out@ == old(out)@ + b@.take(i as int),
        decreases b@.len() - i,
    {
        out.push(b[i]);
        i = i + 1;
        assert(b@.take(i as int) =~= b@.take(i - 1).push(b@[i - 1]));
    }
    assert(b@.take(i as int) =~= b@);
}

// ───────────── decimal numbers ─────────────

/// The decimal digits of `n`, most significant first, without sign or padding.
pub open spec fn decimal(n: nat) -> Seq<u8>
    decreases n,
{
    if n < 10 {
        seq![(48 + n) as u8]
    } else {
        decimal(n / 10).push((48 + n % 10) as u8)
    }
}

pub open spec fn is_digit(b: u8) -> bool {
    48 <= b <= 57
}

pub open spec fn all_digits(s: Seq<u8>) -> bool {
    forall|i: int| 0 <= i < s.len() ==> #[trigger] is_digit(s[i])
}

/// The value of a run of decimal digits.
pub open spec fn digits_value(s: Seq<u8>) -> nat
    decreases s.len(),
{
    if s.len() == 0 {
        0
    } else {
        digits_value(s.drop_last()) * 10 + (s.last() - 48) as nat
    }
}

/// The digits of an unsigned number's text: one leading `+` is allowed.
pub open spec fn unsigned_digits(s: Seq<u8>) -> Seq<u8> {
    if s.len() > 0 && s[0] == 43 {
        s.drop_first()
    } else {
        s
    }
}

/// What `str::parse` gives for an unsigned integer type whose largest value
/// is `max`: an optional `+`, then at least one digit and nothing else, and a
/// value that fits.
pub open spec fn parse_unsigned(s: Seq<u8>, max: nat) -> Option<nat> {
    let d = unsigned_digits(s);
    if d.len() > 0 && all_digits(d) && digits_value(d) <= max {
        Some(digits_value(d))
    } else {
        None
    }
}

/// Appends the decimal digits of `n` to `out`.
pub fn push_decimal(out: &mut Vec<u8>, n: u64)
    ensures
        final(out)@ == old(out)@ + decimal(n as nat),
    decreases n,
{
    if n >= 10 {
        push_decimal(out, n / 10);
    }
    let d: u8 = (n % 10) as u8;
    out.push(48 + d);
    proof {
        if n >= 10 {
            assert(decimal(n as nat) == decimal((n / 10) as nat).push((48 + n % 10) as u8));
        } else {
            assert(decimal(n as nat) == seq![(48 + n) as u8]);
        }
    }
}

proof fn lemma_digits_value_take_step(d: Seq<u8>, i: int)
    requires
        0 <= i < d.len(),
    ensures
        digits_value(d.take(i + 1)) == digits_value(d.take(i)) * 10 + (d[i] - 48) as nat,
{
    assert(d.take(i + 1).drop_last() =~= d.take(i));
}

proof fn lemma_digits_value_prefix_le(d: Seq<u8>, k: int)
    requires
        0 <= k <= d.len(),
        all_digits(d),
    ensures
        digits_value(d.take(k)) <= digits_value(d),
    decreases d.len() - k,
{
    if k < d.len() {
        lemma_digits_value_take_step(d, k);
        assert(is_digit(d[k]));
        lemma_digits_value_prefix_le(d, k + 1);
        assert(digits_value(d.take(k)) <= digits_value(d.take(k)) * 10) by (nonlinear_arith);
    } else {
        assert(d.take(k) =~= d);
    }
}

/// Parses an unsigned decimal number no larger than `max`, as `str::parse`
/// does for the unsigned integer types.
pub fn parse_unsigned_bounded(s: &[u8], max: u64) -> (r: Option<u64>)
    ensures
        r is Some <==> parse_unsigned(s@, max as nat) is Some,
        r matches Some(v) ==> v as nat == parse_unsigned(s@, max as nat).unwrap(),
{
    let ghost d = unsigned_digits(s@);
    let start: usize = if s.len() > 0 && s[0] == 43 { 1 } else { 0 };
    assert(d =~= s@.skip(start as int));
    if start == s.len() {
        return None;
    }
    let mut acc: u64 = 0;
    let mut i: usize = start;
    while i < s.len()
        invariant
            start <= i <= s@.len(),
            d =~= s@.skip(start as int),
            d == unsigned_digits(s@),
            acc as nat == digits_value(d.take(i - start)),
            acc <= max,
            all_digits(d.take(i - start)),
        decreases s@.len() - i,
    {
        let b = s[i];
        proof {
            lemma_digits_value_take_step(d, i - start);
            assert(d[i - start] == s@[i as int]);
        }
        if b < 48 || b > 57 {
            assert(!is_digit(d[i - start]));
            return None;
        }
        let dg: u64 = (b - 48) as u64;
        let next = match acc.checked_mul(10) {
            Some(m) => m.checked_add(dg),
            None => None,
        };
        match next {
            Some(v) => {
                if v > max {
                    proof {
                        if all_digits(d) {
                            lemma_digits_value_prefix_le(d, i - start + 1);
                        }
                    }
                    return None;
                }
                acc = v;
            },
            None => {
                proof {
                    assert(digits_value(d.take(i - start + 1)) > u64::MAX);
                    if all_digits(d) {
                        lemma_digits_value_prefix_le(d, i - start + 1);
                    }
                }
                return None;
            },
        }
        i = i + 1;
        assert forall|j: int| 0 <= j < d.take(i - start).len() implies #[trigger] is_digit(
            d.take(i - start)[j],
        ) by {
            if j < i - 1 - start {
                assert(d.take(i - start)[j] == d.take(i - 1 - start)[j]);
            }
        }
    }
    assert(d.take(i - start) =~= d);
    Some(acc)
}

/// The digits of `n` read back give `n`.
pub proof fn lemma_decimal_parses(n: nat)
    ensures
        decimal(n).len() > 0,
        all_digits(decimal(n)),
        digits_value(decimal(n)) == n,
        decimal(n)[0] != 43,
    decreases n,
{
    if n >= 10 {
        lemma_decimal_parses(n / 10);
        let d = decimal(n);
        assert(d.drop_last() =~= decimal(n / 10));
        assert(d.last() == (48 + n % 10) as u8);
        assert((d.last() - 48) as nat == n % 10);
        assert(digits_value(d.drop_last()) == n / 10);
        assert(digits_value(d) == digits_value(d.drop_last()) * 10 + (d.last() - 48) as nat);
        assert forall|i: int| 0 <= i < d.len() implies #[trigger] is_digit(d[i]) by {
            if i < d.len() - 1 {
                assert(d[i] == decimal(n / 10)[i]);
            }
        }
        assert(n == (n / 10) * 10 + n % 10) by (nonlinear_arith);
        assert(digits_value(d) == n);
    } else {
        let d = decimal(n);
        assert(d == seq![(48 + n) as u8]);
        assert(d.drop_last() =~= Seq::<u8>::empty());
        assert(d.last() == 48 + n);
        assert(digits_value(d) == digits_value(d.drop_last()) * 10 + (d.last() - 48) as nat);
        assert(digits_value(d) == n);
    }
}

/// `parse_unsigned` reads back what `decimal` writes, up to the bound.
pub proof fn lemma_parse_decimal(n: nat, max: nat)
    requires
        n <= max,
    ensures
        parse_unsigned(decimal(n), max) == Some(n),
{
    lemma_decimal_parses(n);
}

// ───────────── whitespace and trimming ─────────────

/// The single-byte whitespace characters: `\t`, `\n`, vertical tab, form feed, `\r`, space.
pub open spec fn is_ascii_ws(b: u8) -> bool {
    (9 <= b <= 13) || b == 32
}

/// U+0085 and U+00A0.
pub open spec fn is_ws2(b0: u8, b1: u8) -> bool {
    b0 == 0xC2 && (b1 == 0x85 || b1 == 0xA0)
}

/// U+1680, U+2000 to U+200A, U+2028, U+2029, U+202F, U+205F and U+3000.
pub open spec fn is_ws3(b0: u8, b1: u8, b2: u8) -> bool {
    ||| (b0 == 0xE1 && b1 == 0x9A && b2 == 0x80)
    ||| (b0 == 0xE2 && b1 == 0x80 && ((0x80 <= b2 <= 0x8A) || b2 == 0xA8 || b2 == 0xA9
        || b2 == 0xAF))
    ||| (b0 == 0xE2 && b1 == 0x81 && b2 == 0x9F)
    ||| (b0 == 0xE3 && b1 == 0x80 && b2 == 0x80)
}

/// The length of the whitespace character that starts at `i`, or 0.
pub open spec fn ws_len_at(s: Seq<u8>, i: int) -> int {
    if 0 <= i < s.len() && is_ascii_ws(s[i]) {
        1
    } else if 0 <= i && i + 1 < s.len() && is_ws2(s[i], s[i + 1]) {
        2
    } else if 0 <= i && i + 2 < s.len() && is_ws3(s[i], s[i + 1], s[i + 2]) {
        3
    } else {
        0
    }
}

/// The length of the whitespace character that ends just before `j`, or 0.
pub open spec fn ws_len_before(s: Seq<u8>, j: int) -> int {
    if 1 <= j <= s.len() && is_ascii_ws(s[j - 1]) {
        1
    } else if 2 <= j <= s.len() && is_ws2(s[j - 2], s[j - 1]) {
        2
    } else if 3 <= j <= s.len() && is_ws3(s[j - 3], s[j - 2], s[j - 1]) {
        3
    } else {
        0
    }
}

/// The first position at or after `i` that does not start a whitespace character.
pub open spec fn skip_ws(s: Seq<u8>, i: int) -> int
    decreases s.len() - i,
{
    if 0 <= i < s.len() && ws_len_at(s, i) > 0 {
        skip_ws(s, i + ws_len_at(s, i))
    } else {
        i
    }
}

/// The last position at or before `j`, and not before `lo`, that does not end
/// a whitespace character.
pub open spec fn skip_ws_back(s: Seq<u8>, lo: int, j: int) -> int
    decreases j,
{
    if j > lo && ws_len_before(s, j) > 0 && j - ws_len_before(s, j) >= lo {
        skip_ws_back(s, lo, j - ws_len_before(s, j))
    } else {
        j
    }
}

/// `s` without leading and trailing whitespace, as `str::trim`.
pub open spec fn trim(s: Seq<u8>) -> Seq<u8> {
    let a = skip_ws(s, 0);
    s.subrange(a, skip_ws_back(s, a, s.len() as int))
}

proof fn lemma_skip_ws_bounds(s: Seq<u8>, i: int)
    requires
        0 <= i <= s.len(),
    ensures
        i <= skip_ws(s, i) <= s.len(),
    decreases s.len() - i,
{
    if 0 <= i < s.len() && ws_len_at(s, i) > 0 {
        lemma_skip_ws_bounds(s, i + ws_len_at(s, i));
    }
}

proof fn lemma_skip_ws_back_bounds(s: Seq<u8>, lo: int, j: int)
    requires
        0 <= lo <= j <= s.len(),
    ensures
        lo <= skip_ws_back(s, lo, j) <= j,
    decreases j,
{
    if j > lo && ws_len_before(s, j) > 0 && j - ws_len_before(s, j) >= lo {
        lemma_skip_ws_back_bounds(s, lo, j - ws_len_before(s, j));
    }
}

/// The length of the whitespace character at `i` (see `ws_len_at`).
pub fn ws_len_at_exec(s: &[u8], i: usize) -> (r: usize)
    ensures
        r == ws_len_at(s@, i as int),
{
    let n = s.len();
    if i < n && ((9 <= s[i] && s[i] <= 13) || s[i] == 32) {
        1
    } else if i < n && n - i > 1 && s[i] == 0xC2 && (s[i + 1] == 0x85 || s[i + 1] == 0xA0) {
        2
    } else if i < n && n - i > 2 && is_ws3_exec(s[i], s[i + 1], s[i + 2]) {
        3
    } else {
        0
    }
}

fn is_ws3_exec(b0: u8, b1: u8, b2: u8) -> (r: bool)
    ensures
        r == is_ws3(b0, b1, b2),
{
    (b0 == 0xE1 && b1 == 0x9A && b2 == 0x80) || (b0 == 0xE2 && b1 == 0x80 && ((0x80 <= b2
        && b2 <= 0x8A) || b2 == 0xA8 || b2 == 0xA9 || b2 == 0xAF)) || (b0 == 0xE2 && b1 == 0x81
        && b2 == 0x9F) || (b0 == 0xE3 && b1 == 0x80 && b2 == 0x80)
}

fn ws_len_before_exec(s: &[u8], j: usize) -> (r: usize)
    requires
        j <= s@.len(),
    ensures
        r == ws_len_before(s@, j as int),
{
    if j >= 1 && ((9 <= s[j - 1] && s[j - 1] <= 13) || s[j - 1] == 32) {
        1
    } else if j >= 2 && s[j - 2] == 0xC2 && (s[j - 1] == 0x85 || s[j - 1] == 0xA0) {
        2
    } else if j >= 3 && is_ws3_exec(s[j - 3], s[j - 2], s[j - 1]) {
        3
    } else {
        0
    }
}

/// Removes leading and trailing whitespace, as `str::trim`.
pub fn trim_bytes(s: &[u8]) -> (r: &[u8])
    ensures
        r@ == trim(s@),
{
    let mut a: usize = 0;
    while a < s.len() && ws_len_at_exec(s, a) > 0
        invariant
            a <= s@.len(),
            skip_ws(s@, a as int) == skip_ws(s@, 0),
        decreases s@.len() - a,
    {
        a = a + ws_len_at_exec(s, a);
    }
    let mut b: usize = s.len();
    while b > a && ws_len_before_exec(s, b) > 0 && b - ws_len_before_exec(s, b) >= a
        invariant
            a <= b <= s@.len(),
            a == skip_ws(s@, 0),
            skip_ws_back(s@, a as int, b as int) == skip_ws_back(s@, a as int, s@.len() as int),
        decreases b,
    {
        b = b - ws_len_before_exec(s, b);
    }
    slice_subrange(s, a, b)
}

// ───────────── searching ─────────────

/// `needle` occurs in `s` at position `i`.
pub open spec fn occurs_at(s: Seq<u8>, needle: Seq<u8>, i: int) -> bool {
    0 <= i && i + needle.len() <= s.len() && s.subrange(i, i + needle.len()) == needle
}

/// The first position at or after `k` where `needle` occurs.
pub open spec fn find_from(s: Seq<u8>, needle: Seq<u8>, k: int) -> Option<int>
    decreases s.len() + 1 - k,
{
    if k < 0 || k + needle.len() > s.len() {
        None
    } else if occurs_at(s, needle, k) {
        Some(k)
    } else {
        find_from(s, needle, k + 1)
    }
}

/// The first position where `needle` occurs, as `str::find` with a string pattern.
pub open spec fn find(s: Seq<u8>, needle: Seq<u8>) -> Option<int> {
    find_from(s, needle, 0)
}

/// A position found by `find_from` is an occurrence at or after `k`.
pub proof fn lemma_find_from_found(s: Seq<u8>, needle: Seq<u8>, k: int)
    ensures
        find_from(s, needle, k) matches Some(i) ==> k <= i && occurs_at(s, needle, i),
    decreases s.len() + 1 - k,
{
    if !(k < 0 || k + needle.len() > s.len()) && !occurs_at(s, needle, k) {
        lemma_find_from_found(s, needle, k + 1);
    }
}

/// An occurrence at `i` with none in `k..i` is what `find_from` finds.
pub proof fn lemma_find_from_first(s: Seq<u8>, needle: Seq<u8>, k: int, i: int)
    requires
        0 <= k <= i,
        occurs_at(s, needle, i),
        forall|j: int| k <= j < i ==> !occurs_at(s, needle, j),
    ensures
        find_from(s, needle, k) == Some(i),
    decreases i - k,
{
    if k < i {
        lemma_find_from_first(s, needle, k + 1, i);
    }
}

fn occurs_at_exec(s: &[u8], needle: &[u8], i: usize) -> (r: bool)
    requires
        i + needle@.len() <= s@.len(),
    ensures
        r == occurs_at(s@, needle@, i as int),
{
    let slen = s.len();
    let mut j: usize = 0;
    while j < needle.len()
        invariant
            slen == s@.len(),
            j <= needle@.len(),
            i + needle@.len() <= s@.len(),
            forall|t: int| 0 <= t < j ==> s@[i + t] == needle@[t],
        decreases needle@.len() - j,
    {
        if s[i + j] != needle[j] {
            assert(s@.subrange(i as int, i + needle@.len())[j as int] != needle@[j as int]);
            return false;
        }
        j = j + 1;
    }
    assert(s@.subrange(i as int, i + needle@.len()) =~= needle@);
    true
}

/// The first position where `needle` occurs in `s`.
pub fn find_bytes(s: &[u8], needle: &[u8]) -> (r: Option<usize>)
    ensures
        r matches Some(i) ==> find(s@, needle@) == Some(i as int),
        r is None ==> find(s@, needle@) is None,
{
    let mut k: usize = 0;
    while k <= s.len() && needle.len() <= s.len() - k
        invariant
            find_from(s@, needle@, k as int) == find(s@, needle@),
        decreases s@.len() + 1 - k,
    {
        if needle.len() == 0 {
            assert(s@.subrange(k as int, k as int) =~= needle@);
        }
        if occurs_at_exec(s, needle, k) {
            return Some(k);
        }
        k = k + 1;
    }
    None
}

/// The first position at or after `k` holding `a` or `b`, or the length of `s`.
pub open spec fn first_of_from(s: Seq<u8>, a: u8, b: u8, k: int) -> int
    decreases s.len() - k,
{
    if k < 0 || k >= s.len() {
        s.len() as int
    } else if s[k] == a || s[k] == b {
        k
    } else {
        first_of_from(s, a, b, k + 1)
    }
}

/// The first position holding `a` or `b`, or the length of `s`.
pub open spec fn first_of(s: Seq<u8>, a: u8, b: u8) -> int {
    first_of_from(s, a, b, 0)
}

pub proof fn lemma_first_of_from_bounds(s: Seq<u8>, a: u8, b: u8, k: int)
    requires
        0 <= k <= s.len(),
    ensures
        k <= first_of_from(s, a, b, k) <= s.len(),
    decreases s.len() - k,
{
    if k < s.len() && !(s[k] == a || s[k] == b) {
        lemma_first_of_from_bounds(s, a, b, k + 1);
    }
}

/// The first position holding `a` or `b`, or the length of `s`.
pub fn first_of_exec(s: &[u8], a: u8, b: u8) -> (r: usize)
    ensures
        r == first_of(s@, a, b),
        r <= s@.len(),
{
    let mut k: usize = 0;
    while k < s.len()
        invariant
            k <= s@.len(),
            first_of_from(s@, a, b, k as int) == first_of(s@, a, b),
        decreases s@.len() - k,
    {
        if s[k] == a || s[k] == b {
            return k;
        }
        k = k + 1;
    }
    k
}

// ───────────── literals ─────────────

/// The bytes of an ASCII literal.
pub open spec fn lit(s: &str) -> Seq<u8> {
    s@.map_values(|c: char| c as u8)
}

/// The bytes of an ASCII literal, as a slice.
pub fn lit_bytes(s: &str) -> (r: &[u8])
    requires
        vstd::string::is_ascii(s),
    ensures
        r@ == lit(s),
{
    proof {
        vstd::string::is_ascii_spec_bytes(s);
    }
    let b = s.as_bytes();
    assert(b@ =~= lit(s));
    b
}

/// Appends the bytes of an ASCII literal.
pub fn push_lit(out: &mut Vec<u8>, s: &str)
    requires
        vstd::string::is_ascii(s),
    ensures
        final(out)@ == old(out)@ + lit(s),
{
    append_bytes(out, lit_bytes(s));
}

// ───────────── bracket nesting ─────────────

/// The nesting depth after the first `n` bytes of `s`, starting from `d0`:
/// each `open` byte adds one and each `close` byte takes one away.
pub open spec fn nest_depth(s: Seq<u8>, n: int, open: u8, close: u8, d0: int) -> int
    decreases n,
{
    if n <= 0 {
        d0
    } else {
        nest_depth(s, n - 1, open, close, d0) + (if s[n - 1] == open {
            1int
        } else if s[n - 1] == close {
            -1int
        } else {
            0int
        })
    }
}

/// The `close` byte at `i` brings the depth back to zero.
pub open spec fn closes_at(s: Seq<u8>, i: int, open: u8, close: u8, d0: int) -> bool {
    0 <= i < s.len() && s[i] == close && nest_depth(s, i + 1, open, close, d0) == 0
}

/// The first position at or after `k` where a `close` byte brings the depth to zero.
pub open spec fn first_close_from(s: Seq<u8>, k: int, open: u8, close: u8, d0: int) -> Option<int>
    decreases s.len() - k,
{
    if k < 0 || k >= s.len() {
        None
    } else if closes_at(s, k, open, close, d0) {
        Some(k)
    } else {
        first_close_from(s, k + 1, open, close, d0)
    }
}

/// A position found by `first_close_from` closes the nesting, and none before it does.
pub proof fn lemma_first_close_from(s: Seq<u8>, k: int, open: u8, close: u8, d0: int)
    requires
        0 <= k,
    ensures
        first_close_from(s, k, open, close, d0) matches Some(i) ==> k <= i && closes_at(
            s,
            i,
            open,
            close,
            d0,
        ) && forall|j: int| k <= j < i ==> !closes_at(s, j, open, close, d0),
        first_close_from(s, k, open, close, d0) is None ==> forall|j: int|
            k <= j < s.len() ==> !closes_at(s, j, open, close, d0),
    decreases s.len() - k,
{
    if k < s.len() && !closes_at(s, k, open, close, d0) {
        lemma_first_close_from(s, k + 1, open, close, d0);
    }
}

/// A position that closes the nesting with none closing before it is what
/// `first_close_from` finds.
pub proof fn lemma_first_close_is(s: Seq<u8>, k: int, i: int, open: u8, close: u8, d0: int)
    requires
        0 <= k <= i,
        closes_at(s, i, open, close, d0),
        forall|j: int| k <= j < i ==> !closes_at(s, j, open, close, d0),
    ensures
        first_close_from(s, k, open, close, d0) == Some(i),
    decreases i - k,
{
    if k < i {
        lemma_first_close_is(s, k + 1, i, open, close, d0);
    }
}

/// The first position where a `close` byte brings the nesting depth, which
/// starts at `start_depth`, to zero.
pub fn find_closing(s: &[u8], open: u8, close: u8, start_depth: u8) -> (r: Option<usize>)
    requires
        open != close,
    ensures
        r matches Some(i) ==> first_close_from(s@, 0, open, close, start_depth as int) == Some(
            i as int,
        ),
        r is None ==> first_close_from(s@, 0, open, close, start_depth as int) is None,
{
    let ghost d0 = start_depth as int;
    let mut depth: i128 = start_depth as i128;
    let mut i: usize = 0;
    while i < s.len()
        invariant
            i <= s@.len(),
            open != close,
            d0 == start_depth as int,
            depth == nest_depth(s@, i as int, open, close, d0),
            d0 - i <= depth <= d0 + i,
            first_close_from(s@, i as int, open, close, d0) == first_close_from(
                s@,
                0,
                open,
                close,
                d0,
            ),
        decreases s@.len() - i,
    {
        let c = s[i];
        if c == open {
            depth = depth + 1;
        } else if c == close {
            depth = depth - 1;
            if depth == 0 {
                assert(closes_at(s@, i as int, open, close, d0));
                return Some(i);
            }
        }
        assert(!closes_at(s@, i as int, open, close, d0));
        i = i + 1;
    }
    None
}

// ───────────── splitting ─────────────

/// The pieces of `s` between the bytes `c`, empty pieces included, as `str::split`.
pub open spec fn split_at_byte(s: Seq<u8>, c: u8) -> Seq<Seq<u8>>
    decreases s.len(),
{
    let i = first_of(s, c, c);
    if i >= s.len() {
        seq![s]
    } else {
        proof {
            lemma_first_of_from_bounds(s, c, c, 0);
        }
        seq![s.take(i)] + split_at_byte(s.skip(i + 1), c)
    }
}

/// The end of the token that starts at `i`: the first position at or after
/// `i` that starts a whitespace character.
pub open spec fn token_end(s: Seq<u8>, i: int) -> int
    decreases s.len() - i,
{
    if 0 <= i < s.len() && ws_len_at(s, i) == 0 {
        token_end(s, i + 1)
    } else {
        i
    }
}

pub proof fn lemma_token_end_bounds(s: Seq<u8>, i: int)
    requires
        0 <= i <= s.len(),
    ensures
        i <= token_end(s, i) <= s.len(),
    decreases s.len() - i,
{
    if 0 <= i < s.len() && ws_len_at(s, i) == 0 {
        lemma_token_end_bounds(s, i + 1);
    }
}

/// The whitespace-separated tokens of `s` from position `i` on, as
/// `str::split_whitespace`.
pub open spec fn ws_tokens_from(s: Seq<u8>, i: int) -> Seq<Seq<u8>>
    decreases s.len() - i,
{
    if i < 0 || i >= s.len() {
        Seq::empty()
    } else if ws_len_at(s, i) > 0 {
        ws_tokens_from(s, i + ws_len_at(s, i))
    } else {
        proof {
            lemma_token_end_bounds(s, i + 1);
        }
        seq![s.subrange(i, token_end(s, i))] + ws_tokens_from(s, token_end(s, i))
    }
}

/// The whitespace-separated tokens of `s`.
pub open spec fn ws_tokens(s: Seq<u8>) -> Seq<Seq<u8>> {
    ws_tokens_from(s, 0)
}

/// The views of a list of slices.
pub open spec fn slices_view(v: Seq<&[u8]>) -> Seq<Seq<u8>> {
    v.map_values(|x: &[u8]| x@)
}

/// Splits `s` at every byte `c`, as `str::split` with a one-byte pattern.
pub fn split_bytes(s: &[u8], c: u8) -> (r: Vec<&[u8]>)
    ensures
        slices_view(r@) == split_at_byte(s@, c),
{
    let mut r: Vec<&[u8]> = Vec::new();
    let mut rest: &[u8] = s;
    loop
        invariant
            slices_view(r@) + split_at_byte(rest@, c) == split_at_byte(s@, c),
        decreases rest@.len(),
    {
        let i = first_of_exec(rest, c, c);
        if i >= rest.len() {
            let ghost before = r@;
            r.push(rest);
            assert(slices_view(r@) =~= slices_view(before) + seq![rest@]);
            return r;
        }
        let ghost before = r@;
        let piece = slice_subrange(rest, 0, i);
        r.push(piece);
        assert(slices_view(r@) =~= slices_view(before) + seq![piece@]);
        let ghost old_rest = rest@;
        rest = slice_subrange(rest, i + 1, rest.len());
        assert(rest@ =~= old_rest.skip(i + 1));
        assert(piece@ =~= old_rest.take(i as int));
        assert(split_at_byte(old_rest, c) == seq![piece@] + split_at_byte(rest@, c));
        assert(slices_view(r@) + split_at_byte(rest@, c) =~= slices_view(before) + split_at_byte(
            old_rest,
            c,
        ));
    }
}

/// Splits `s` into its whitespace-separated tokens, as `str::split_whitespace`.
pub fn split_whitespace_bytes(s: &[u8]) -> (r: Vec<&[u8]>)
    ensures
        slices_view(r@) == ws_tokens(s@),
{
    let mut r: Vec<&[u8]> = Vec::new();
    let mut i: usize = 0;
    while i < s.len()
        invariant
            i <= s@.len(),
            slices_view(r@) + ws_tokens_from(s@, i as int) == ws_tokens(s@),
        decreases s@.len() - i,
    {
        let w = ws_len_at_exec(s, i);
        if w > 0 {
            i = i + w;
        } else {
            let mut j: usize = i + 1;
            while j < s.len() && ws_len_at_exec(s, j) == 0
                invariant
                    i < j <= s@.len(),
                    token_end(s@, j as int) == token_end(s@, i as int),
                decreases s@.len() - j,
            {
                j = j + 1;
            }
            let ghost before = r@;
            let piece = slice_subrange(s, i, j);
            r.push(piece);
            assert(slices_view(r@) =~= slices_view(before) + seq![piece@]);
            assert(ws_tokens_from(s@, i as int) == seq![piece@] + ws_tokens_from(s@, j as int));
            assert(slices_view(r@) + ws_tokens_from(s@, j as int) =~= slices_view(before)
                + ws_tokens_from(s@, i as int));
            i = j;
        }
    }
    assert(slices_view(r@) =~= slices_view(r@) + ws_tokens_from(s@, i as int));
    r
}

// ───────────── facts used by the round-trip laws ─────────────

/// A byte that a number's text may hold and that no format here treats
/// specially: printable ASCII other than space, `"`, `,`, brackets and braces.
/// `f64`'s `Display` writes only such bytes.
pub open spec fn plain_byte(b: u8) -> bool {
    33 <= b <= 126 && b != 34 && b != 44 && b != 91 && b != 93 && b != 123 && b != 125
}

/// A text made of plain bytes only.
pub open spec fn plain(t: Seq<u8>) -> bool {
    forall|i: int| 0 <= i < t.len() ==> #[trigger] plain_byte(t[i])
}

/// Decimal digits are plain.
pub proof fn lemma_decimal_plain(n: nat)
    ensures
        plain(decimal(n)),
        decimal(n).len() > 0,
{
    lemma_decimal_parses(n);
    assert forall|i: int| 0 <= i < decimal(n).len() implies #[trigger] plain_byte(decimal(n)[i]) by {
        assert(is_digit(decimal(n)[i]));
    }
}

/// A plain text is its own trim.
pub proof fn lemma_trim_plain(t: Seq<u8>)
    requires
        plain(t),
    ensures
        trim(t) == t,
{
    if t.len() > 0 {
        assert(plain_byte(t[0]));
        assert(plain_byte(t[t.len() - 1]));
        if t.len() > 1 {
            assert(plain_byte(t[1]));
            assert(plain_byte(t[t.len() - 2]));
        }
        if t.len() > 2 {
            assert(plain_byte(t[2]));
            assert(plain_byte(t[t.len() - 3]));
        }
        assert(ws_len_at(t, 0) == 0);
        assert(skip_ws(t, 0) == 0);
        assert(ws_len_before(t, t.len() as int) == 0);
    }
    assert(t.subrange(0, t.len() as int) =~= t);
}

/// Searching `x + y` for `a` or `b`, where `x` holds neither and `y` starts
/// with one (or is empty), stops at the end of `x`.
pub proof fn lemma_first_of_concat(x: Seq<u8>, y: Seq<u8>, a: u8, b: u8, k: int)
    requires
        0 <= k <= x.len(),
        forall|i: int| 0 <= i < x.len() ==> x[i] != a && x[i] != b,
        y.len() > 0 ==> (y[0] == a || y[0] == b),
    ensures
        first_of_from(x + y, a, b, k) == x.len(),
    decreases x.len() - k,
{
    if k < x.len() {
        assert((x + y)[k] == x[k]);
        lemma_first_of_concat(x, y, a, b, k + 1);
    }
}

/// `needle` cannot occur at `j` when one of its first two bytes differs there.
pub proof fn lemma_not_occurs(s: Seq<u8>, needle: Seq<u8>, j: int)
    requires
        needle.len() >= 2,
        0 <= j,
        j + 1 < s.len(),
        s[j] != needle[0] || s[j + 1] != needle[1],
    ensures
        !occurs_at(s, needle, j),
{
    if occurs_at(s, needle, j) {
        assert(s.subrange(j, j + needle.len())[0] == needle[0]);
        assert(s.subrange(j, j + needle.len())[1] == needle[1]);
    }
}

/// The first occurrence of `needle` is at `p` when it occurs there and no
/// earlier position starts with its first two bytes.
pub proof fn lemma_find_is(s: Seq<u8>, needle: Seq<u8>, p: int)
    requires
        needle.len() >= 2,
        occurs_at(s, needle, p),
        forall|j: int| #![trigger s[j]] 0 <= j < p ==> s[j] != needle[0] || s[j + 1] != needle[1],
    ensures
        find(s, needle) == Some(p),
{
    assert forall|j: int| 0 <= j < p implies !occurs_at(s, needle, j) by {
        lemma_not_occurs(s, needle, j);
    }
    lemma_find_from_first(s, needle, 0, p);
}

/// Over bytes that are neither `open` nor `close` the depth stays where it started.
pub proof fn lemma_nest_flat(s: Seq<u8>, n: int, open: u8, close: u8, d0: int)
    requires
        0 <= n <= s.len(),
        forall|i: int| 0 <= i < n ==> s[i] != open && s[i] != close,
    ensures
        nest_depth(s, n, open, close, d0) == d0,
    decreases n,
{
    if n > 0 {
        lemma_nest_flat(s, n - 1, open, close, d0);
    }
}

/// Content without `open` or `close` bytes, followed by a `close` byte, is
/// closed right after the content when the depth starts at one.
pub proof fn lemma_close_after_flat(x: Seq<u8>, y: Seq<u8>, open: u8, close: u8)
    requires
        open != close,
        forall|i: int| 0 <= i < x.len() ==> x[i] != open && x[i] != close,
        y.len() > 0,
        y[0] == close,
    ensures
        first_close_from(x + y, 0, open, close, 1) == Some(x.len() as int),
{
    let s = x + y;
    assert forall|i: int| 0 <= i < x.len() implies s[i] != open && s[i] != close by {
        assert(s[i] == x[i]);
    }
    lemma_nest_flat(s, x.len() as int, open, close, 1);
    assert(closes_at(s, x.len() as int, open, close, 1));
    assert forall|j: int| 0 <= j < x.len() implies !closes_at(s, j, open, close, 1) by {
        assert(s[j] == x[j]);
    }
    lemma_first_close_is(s, 0, x.len() as int, open, close, 1);
}

// ───────────── concatenation ─────────────

/// The pieces, one after the other.
pub open spec fn concat(lines: Seq<Seq<u8>>) -> Seq<u8>
    decreases lines.len(),
{
    if lines.len() == 0 {
        Seq::empty()
    } else {
        concat(lines.drop_last()) + lines.last()
    }
}

pub proof fn lemma_concat_front(lines: Seq<Seq<u8>>)
    requires
        lines.len() > 0,
    ensures
        concat(lines) == lines[0] + concat(lines.drop_first()),
    decreases lines.len(),
{
    if lines.len() == 1 {
        assert(lines.drop_first() =~= Seq::<Seq<u8>>::empty());
        assert(concat(lines.drop_last()) =~= Seq::<u8>::empty());
        assert(concat(lines) =~= lines[0]);
    } else {
        lemma_concat_front(lines.drop_last());
        assert(lines.drop_last().drop_first() =~= lines.drop_first().drop_last());
        assert(lines.drop_first().last() == lines.last());
        assert(lines.drop_last()[0] == lines[0]);
    }
}

/// The concatenation of two lists of pieces.
pub proof fn lemma_concat_append(x: Seq<Seq<u8>>, y: Seq<Seq<u8>>)
    ensures
        concat(x + y) == concat(x) + concat(y),
    decreases y.len(),
{
    if y.len() == 0 {
        assert(x + y =~= x);
        assert(concat(x) + concat(y) =~= concat(x));
    } else {
        lemma_concat_append(x, y.drop_last());
        assert((x + y).drop_last() =~= x + y.drop_last());
        assert((x + y).last() == y.last());
    }
}

/// A plain byte starts no whitespace character.
pub proof fn lemma_plain_not_ws(s: Seq<u8>, j: int)
    requires
        0 <= j < s.len(),
        plain_byte(s[j]),
    ensures
        ws_len_at(s, j) == 0,
{
}

/// A run of plain bytes ending at `e`, where the text ends or an ASCII
/// whitespace byte stands, is a token that ends at `e`.
pub proof fn lemma_token_end_run(s: Seq<u8>, k: int, e: int)
    requires
        0 <= k <= e <= s.len(),
        forall|j: int| k <= j < e ==> plain_byte(#[trigger] s[j]),
        e == s.len() || is_ascii_ws(s[e]),
    ensures
        token_end(s, k) == e,
    decreases e - k,
{
    if k < e {
        lemma_plain_not_ws(s, k);
        lemma_token_end_run(s, k + 1, e);
    }
}

/// A non-empty plain word at `i`, followed by the end or ASCII whitespace, is
/// the next whitespace-separated token.
pub proof fn lemma_token_at(s: Seq<u8>, i: int, w: Seq<u8>)
    requires
        0 <= i,
        i + w.len() <= s.len(),
        w.len() > 0,
        plain(w),
        s.subrange(i, i + w.len()) == w,
        i + w.len() == s.len() || is_ascii_ws(s[i + w.len()]),
    ensures
        ws_tokens_from(s, i) == seq![w] + ws_tokens_from(s, i + w.len()),
{
    assert forall|j: int| i <= j < i + w.len() implies plain_byte(#[trigger] s[j]) by {
        assert(s[j] == w[j - i]);
    }
    lemma_token_end_run(s, i, i + w.len());
    lemma_plain_not_ws(s, i);
}

// ───────────── groups ─────────────

/// The scanner state while splitting top-level groups `open ... close`: the
/// depth, where the current top-level group started, and the spans of the
/// groups closed so far (each from its `open` to just after its `close`).
pub open spec fn group_step(
    st: (int, Option<int>, Seq<(int, int)>),
    c: u8,
    i: int,
    open: u8,
    close: u8,
) -> (int, Option<int>, Seq<(int, int)>) {
    if c == open {
        (st.0 + 1, if st.0 == 0 { Some(i) } else { st.1 }, st.2)
    } else if c == close {
        let d = st.0 - 1;
        (d, st.1, if d == 0 && st.1 is Some { st.2.push((st.1->0, i + 1)) } else { st.2 })
    } else {
        st
    }
}

/// The scanner state after the first `n` bytes of `s`.
pub open spec fn group_scan(s: Seq<u8>, n: int, open: u8, close: u8) -> (int, Option<int>, Seq<(int, int)>)
    decreases n,
{
    if n <= 0 {
        (0, None, Seq::empty())
    } else {
        group_step(group_scan(s, n - 1, open, close), s[n - 1], n - 1, open, close)
    }
}

/// The items joined by commas.
pub open spec fn join_commas(items: Seq<Seq<u8>>) -> Seq<u8>
    decreases items.len(),
{
    if items.len() == 0 {
        Seq::empty()
    } else if items.len() == 1 {
        items[0]
    } else {
        join_commas(items.drop_last()) + seq![44u8] + items.last()
    }
}

/// `open`, content without `open` or `close`, then `close`.
pub open spec fn braced(x: Seq<u8>, open: u8, close: u8) -> bool {
    &&& x.len() >= 2
    &&& x[0] == open
    &&& x[x.len() - 1] == close
    &&& forall|i: int| 1 <= i < x.len() - 1 ==> #[trigger] x[i] != open && x[i] != close
}

pub proof fn lemma_group_scan_prefix(s: Seq<u8>, t: Seq<u8>, n: int, open: u8, close: u8)
    requires
        0 <= n <= s.len(),
        n <= t.len(),
        forall|i: int| 0 <= i < n ==> s[i] == t[i],
    ensures
        group_scan(s, n, open, close) == group_scan(t, n, open, close),
    decreases n,
{
    if n > 0 {
        lemma_group_scan_prefix(s, t, n - 1, open, close);
    }
}

pub proof fn lemma_group_scan_flat(s: Seq<u8>, lo: int, hi: int, open: u8, close: u8)
    requires
        0 <= lo <= hi <= s.len(),
        forall|i: int| lo <= i < hi ==> s[i] != open && s[i] != close,
    ensures
        group_scan(s, hi, open, close) == group_scan(s, lo, open, close),
    decreases hi - lo,
{
    if hi > lo {
        lemma_group_scan_flat(s, lo, hi - 1, open, close);
    }
}

pub proof fn lemma_group_scan_item(s: Seq<u8>, o: int, len: int, open: u8, close: u8)
    requires
        0 <= o,
        2 <= len,
        o + len <= s.len(),
        open != close,
        braced(s.subrange(o, o + len), open, close),
        group_scan(s, o, open, close).0 == 0,
    ensures
        group_scan(s, o + len, open, close) == (0int, Some(o), group_scan(s, o, open, close).2.push((o, o + len))),
{
    let x = s.subrange(o, o + len);
    assert(s[o] == x[0]);
    assert(s[o + len - 1] == x[len - 1]);
    assert forall|i: int| o + 1 <= i < o + len - 1 implies s[i] != open && s[i] != close by {
        assert(s[i] == x[i - o]);
    }
    lemma_group_scan_flat(s, o + 1, o + len - 1, open, close);
}

/// The top-level groups of braced items joined by commas are those items.
pub proof fn lemma_groups_of_join(items: Seq<Seq<u8>>, open: u8, close: u8)
    requires
        open != close,
        open != 44,
        close != 44,
        forall|k: int| 0 <= k < items.len() ==> braced(#[trigger] items[k], open, close),
    ensures
        ({
            let j = join_commas(items);
            let st = group_scan(j, j.len() as int, open, close);
            &&& st.0 == 0
            &&& st.2.len() == items.len()
            &&& forall|k: int|
                0 <= k < items.len() ==> 0 <= (#[trigger] st.2[k]).0 <= st.2[k].1 <= j.len()
                    && j.subrange(st.2[k].0, st.2[k].1) == items[k]
        }),
    decreases items.len(),
{
    let j = join_commas(items);
    if items.len() == 1 {
        assert(braced(items[0], open, close));
        assert(j.subrange(0, j.len() as int) =~= j);
        lemma_group_scan_item(j, 0, j.len() as int, open, close);
    } else if items.len() > 1 {
        let init = items.drop_last();
        assert forall|k: int| 0 <= k < init.len() implies braced(#[trigger] init[k], open, close) by {
            assert(init[k] == items[k]);
        }
        lemma_groups_of_join(init, open, close);
        let ji = join_commas(init);
        let last = items.last();
        assert(braced(items[items.len() - 1], open, close));
        assert(j == ji + seq![44u8] + last);
        lemma_group_scan_prefix(j, ji, ji.len() as int, open, close);
        lemma_group_scan_flat(j, ji.len() as int, (ji.len() + 1) as int, open, close);
        assert(j.subrange((ji.len() + 1) as int, j.len() as int) =~= last);
        lemma_group_scan_item(j, (ji.len() + 1) as int, last.len() as int, open, close);
        let st = group_scan(j, j.len() as int, open, close);
        let sti = group_scan(ji, ji.len() as int, open, close);
        assert forall|k: int| 0 <= k < items.len() implies 0 <= (#[trigger] st.2[k]).0 <= st.2[k].1
            <= j.len() && j.subrange(st.2[k].0, st.2[k].1) == items[k] by {
            if k < init.len() {
                assert(st.2[k] == sti.2[k]);
                assert(j.subrange(st.2[k].0, st.2[k].1) =~= ji.subrange(sti.2[k].0, sti.2[k].1));
            }
        }
    }
}

/// The contents of the top-level groups of `s`, each without its `open` and `close`.
pub open spec fn group_contents(s: Seq<u8>, open: u8, close: u8) -> Seq<Seq<u8>> {
    group_scan(s, s.len() as int, open, close).2.map_values(|p: (int, int)| s.subrange(p.0 + 1, p.1 - 1))
}

/// Splits out the contents of the top-level `open ... close` groups of `s`.
pub fn split_group_contents(s: &[u8], open: u8, close: u8) -> (r: Vec<&[u8]>)
    requires
        open != close,
    ensures
        slices_view(r@) == group_contents(s@, open, close),
{
    let mut r: Vec<&[u8]> = Vec::new();
    let mut depth: i128 = 0;
    let mut start: Option<usize> = None;
    let mut i: usize = 0;
    while i < s.len()
        invariant
            i <= s@.len(),
            open != close,
            depth == group_scan(s@, i as int, open, close).0,
            -(i as int) <= depth <= i,
            match start {
                Some(x) => group_scan(s@, i as int, open, close).1 == Some(x as int) && x < i,
                None => group_scan(s@, i as int, open, close).1 is None,
            },
            slices_view(r@) == group_scan(s@, i as int, open, close).2.map_values(
                |p: (int, int)| s@.subrange(p.0 + 1, p.1 - 1),
            ),
            forall|k: int|
                0 <= k < group_scan(s@, i as int, open, close).2.len() ==> 0 <= (
                #[trigger] group_scan(s@, i as int, open, close).2[k]).0 < group_scan(
                    s@,
                    i as int,
                    open,
                    close,
                ).2[k].1 <= i,
        decreases s@.len() - i,
    {
        let c = s[i];
        let ghost st = group_scan(s@, i as int, open, close);
        assert(group_scan(s@, i + 1, open, close) == group_step(st, c, i as int, open, close));
        if c == open {
            if depth == 0 {
                start = Some(i);
            }
            depth = depth + 1;
        } else if c == close {
            depth = depth - 1;
            if depth == 0 {
                match start {
                    Some(x) => {
                        let ghost before = r@;
                        let piece = slice_subrange(s, x + 1, i);
                        r.push(piece);
                        assert(slices_view(r@) =~= slices_view(before).push(piece@));
                        assert(group_scan(s@, i + 1, open, close).2 == st.2.push((x as int, i + 1)));
                        assert(slices_view(r@) =~= group_scan(s@, i + 1, open, close).2.map_values(
                            |p: (int, int)| s@.subrange(p.0 + 1, p.1 - 1),
                        ));
                    },
                    None => {},
                }
            }
        }
        i = i + 1;
    }
    r
}

/// Splitting `x`, `c`, `y` at `c`, when `x` holds no `c`, gives `x` first.
pub proof fn lemma_split_first(x: Seq<u8>, y: Seq<u8>, c: u8)
    requires
        forall|i: int| 0 <= i < x.len() ==> x[i] != c,
    ensures
        split_at_byte(x + seq![c] + y, c) == seq![x] + split_at_byte(y, c),
{
    let s = x + seq![c] + y;
    assert(s =~= x + (seq![c] + y));
    lemma_first_of_concat(x, seq![c] + y, c, c, 0);
    assert(s.take(x.len() as int) =~= x);
    assert(s.skip(x.len() + 1int) =~= y);
}

/// A text without `c` is a single piece.
pub proof fn lemma_split_none(x: Seq<u8>, c: u8)
    requires
        forall|i: int| 0 <= i < x.len() ==> x[i] != c,
    ensures
        split_at_byte(x, c) == seq![x],
{
    lemma_first_of_concat(x, Seq::empty(), c, c, 0);
    assert(x + Seq::<u8>::empty() =~= x);
}

/// `join_commas` seen from the front.
pub proof fn lemma_join_commas_front(items: Seq<Seq<u8>>)
    requires
        items.len() >= 2,
    ensures
        join_commas(items) == items[0] + seq![44u8] + join_commas(items.drop_first()),
    decreases items.len(),
{
    if items.len() == 2 {
        assert(items.drop_last() =~= seq![items[0]]);
        assert(items.drop_first() =~= seq![items[1]]);
        assert(join_commas(seq![items[0]]) == items[0]);
        assert(join_commas(seq![items[1]]) == items[1]);
    } else {
        lemma_join_commas_front(items.drop_last());
        assert(items.drop_last().drop_first() =~= items.drop_first().drop_last());
        assert(items.drop_first().last() == items.last());
        assert(items.drop_last()[0] == items[0]);
    }
}

/// Comma-free texts joined by commas split back at commas; no texts at all
/// read back as one empty text.
pub proof fn lemma_split_join(ws: Seq<Seq<u8>>)
    requires
        forall|k: int, i: int| 0 <= k < ws.len() && 0 <= i < ws[k].len() ==> #[trigger] ws[k][i] != 44,
    ensures
        split_at_byte(join_commas(ws), 44) == (if ws.len() == 0 {
            seq![Seq::<u8>::empty()]
        } else {
            ws
        }),
    decreases ws.len(),
{
    if ws.len() == 0 {
        lemma_split_none(Seq::<u8>::empty(), 44);
    } else if ws.len() == 1 {
        assert forall|i: int| 0 <= i < ws[0].len() implies ws[0][i] != 44 by {
            assert(ws[0][i] != 44);
        }
        lemma_split_none(ws[0], 44);
        assert(seq![ws[0]] =~= ws);
    } else {
        lemma_join_commas_front(ws);
        let rest = ws.drop_first();
        assert forall|k: int, i: int| 0 <= k < rest.len() && 0 <= i < rest[k].len() implies #[trigger] rest[k][i] != 44 by {
            assert(rest[k] == ws[k + 1]);
        }
        lemma_split_join(rest);
        assert forall|i: int| 0 <= i < ws[0].len() implies ws[0][i] != 44 by {
            assert(ws[0][i] != 44);
        }
        lemma_split_first(ws[0], join_commas(rest), 44);
        assert(seq![ws[0]] + rest =~= ws);
    }
}

// ───────────── balanced nesting ─────────────

pub proof fn lemma_nest_shift(s: Seq<u8>, n: int, open: u8, close: u8, d0: int)
    requires
        0 <= n <= s.len(),
    ensures
        nest_depth(s, n, open, close, d0) == d0 + nest_depth(s, n, open, close, 0),
    decreases n,
{
    if n > 0 {
        lemma_nest_shift(s, n - 1, open, close, d0);
    }
}

pub proof fn lemma_nest_prefix(s: Seq<u8>, t: Seq<u8>, n: int, open: u8, close: u8, d0: int)
    requires
        0 <= n <= s.len(),
        n <= t.len(),
        forall|i: int| 0 <= i < n ==> s[i] == t[i],
    ensures
        nest_depth(s, n, open, close, d0) == nest_depth(t, n, open, close, d0),
    decreases n,
{
    if n > 0 {
        lemma_nest_prefix(s, t, n - 1, open, close, d0);
    }
}

pub proof fn lemma_nest_concat(x: Seq<u8>, y: Seq<u8>, n: int, open: u8, close: u8, d0: int)
    requires
        0 <= n <= y.len(),
    ensures
        nest_depth(x + y, x.len() + n, open, close, d0) == nest_depth(x, x.len() as int, open, close, d0)
            + nest_depth(y, n, open, close, 0),
    decreases n,
{
    if n > 0 {
        lemma_nest_concat(x, y, n - 1, open, close, d0);
        assert((x + y)[x.len() + n - 1] == y[n - 1]);
    } else {
        assert forall|i: int| 0 <= i < x.len() implies (x + y)[i] == x[i] by {}
        lemma_nest_prefix(x + y, x, x.len() as int, open, close, d0);
    }
}

/// Every prefix of `x` opens at least as many groups as it closes, and `x`
/// as a whole closes all it opens.
pub open spec fn balanced(x: Seq<u8>, open: u8, close: u8) -> bool {
    &&& nest_depth(x, x.len() as int, open, close, 0) == 0
    &&& forall|n: int| 0 <= n <= x.len() ==> #[trigger] nest_depth(x, n, open, close, 0) >= 0
}

pub proof fn lemma_balanced_concat(x: Seq<u8>, y: Seq<u8>, open: u8, close: u8)
    requires
        balanced(x, open, close),
        balanced(y, open, close),
    ensures
        balanced(x + y, open, close),
{
    let s = x + y;
    assert forall|n: int| 0 <= n <= s.len() implies #[trigger] nest_depth(s, n, open, close, 0) >= 0 by {
        if n <= x.len() {
            assert forall|i: int| 0 <= i < n implies s[i] == x[i] by {}
            lemma_nest_prefix(s, x, n, open, close, 0);
        } else {
            lemma_nest_concat(x, y, n - x.len(), open, close, 0);
        }
    }
    lemma_nest_concat(x, y, y.len() as int, open, close, 0);
}

pub proof fn lemma_flat_balanced(x: Seq<u8>, open: u8, close: u8)
    requires
        forall|i: int| 0 <= i < x.len() ==> x[i] != open && x[i] != close,
    ensures
        balanced(x, open, close),
{
    assert forall|n: int| 0 <= n <= x.len() implies #[trigger] nest_depth(x, n, open, close, 0) >= 0 by {
        lemma_nest_flat(x, n, open, close, 0);
    }
    lemma_nest_flat(x, x.len() as int, open, close, 0);
}

pub proof fn lemma_wrapped_balanced(x: Seq<u8>, open: u8, close: u8)
    requires
        open != close,
        balanced(x, open, close),
    ensures
        balanced(seq![open] + x + seq![close], open, close),
{
    let a = seq![open];
    let s = a + x + seq![close];
    let ax = a + x;
    assert(nest_depth(a, 0, open, close, 0) == 0);
    assert(nest_depth(a, 1, open, close, 0) == 1);
    assert(nest_depth(seq![close], 0, open, close, 0) == 0);
    assert(nest_depth(seq![close], 1, open, close, 0) == -1);
    assert forall|n: int| 0 <= n <= ax.len() implies #[trigger] nest_depth(ax, n, open, close, 0) >= 1 || n == 0 by {
        if n >= 1 {
            lemma_nest_concat(a, x, n - 1, open, close, 0);
        }
    }
    lemma_nest_concat(a, x, x.len() as int, open, close, 0);
    assert forall|n: int| 0 <= n <= s.len() implies #[trigger] nest_depth(s, n, open, close, 0) >= 0 by {
        if n <= ax.len() {
            assert forall|i: int| 0 <= i < n implies s[i] == ax[i] by {}
            lemma_nest_prefix(s, ax, n, open, close, 0);
            assert(nest_depth(ax, n, open, close, 0) >= 1 || n == 0);
        } else {
            lemma_nest_concat(ax, seq![close], 1, open, close, 0);
            assert(nest_depth(seq![close], 1, open, close, 0) == -1);
        }
    }
    lemma_nest_concat(ax, seq![close], 1, open, close, 0);
    assert(nest_depth(seq![close], 1, open, close, 0) == -1);
}

pub proof fn lemma_join_balanced(items: Seq<Seq<u8>>, open: u8, close: u8)
    requires
        open != 44,
        close != 44,
        forall|k: int| 0 <= k < items.len() ==> balanced(#[trigger] items[k], open, close),
    ensures
        balanced(join_commas(items), open, close),
    decreases items.len(),
{
    if items.len() == 0 {
        lemma_flat_balanced(Seq::<u8>::empty(), open, close);
    } else if items.len() == 1 {
        assert(balanced(items[0], open, close));
    } else {
        let init = items.drop_last();
        assert forall|k: int| 0 <= k < init.len() implies balanced(#[trigger] init[k], open, close) by {
            assert(init[k] == items[k]);
        }
        lemma_join_balanced(init, open, close);
        lemma_flat_balanced(seq![44u8], open, close);
        lemma_balanced_concat(join_commas(init), seq![44u8], open, close);
        assert(balanced(items[items.len() - 1], open, close));
        lemma_balanced_concat(join_commas(init) + seq![44u8], items.last(), open, close);
    }
}

/// Balanced content followed by `close` is closed right after it when the
/// depth starts at one.
pub proof fn lemma_close_after_balanced(x: Seq<u8>, y: Seq<u8>, open: u8, close: u8)
    requires
        open != close,
        balanced(x, open, close),
        y.len() > 0,
        y[0] == close,
    ensures
        first_close_from(x + y, 0, open, close, 1) == Some(x.len() as int),
{
    let s = x + y;
    assert forall|j: int| 0 <= j < x.len() implies !closes_at(s, j, open, close, 1) by {
        assert forall|i: int| 0 <= i < j + 1 implies s[i] == x[i] by {}
        lemma_nest_prefix(s, x, j + 1, open, close, 1);
        lemma_nest_shift(x, j + 1, open, close, 1);
        assert(nest_depth(x, j + 1, open, close, 0) >= 0);
    }
    lemma_nest_concat(x, y, 1, open, close, 1);
    lemma_nest_shift(x, x.len() as int, open, close, 1);
    assert(nest_depth(y, 0, open, close, 0) == 0);
    assert(nest_depth(y, 1, open, close, 0) == -1);
    lemma_first_close_is(s, 0, x.len() as int, open, close, 1);
}

/// A braced item followed by anything is closed at its last byte when the
/// depth starts at zero.
pub proof fn lemma_braced_close(x: Seq<u8>, y: Seq<u8>, open: u8, close: u8)
    requires
        open != close,
        braced(x, open, close),
    ensures
        first_close_from(x + y, 0, open, close, 0) == Some(x.len() - 1),
{
    let s = x + y;
    let n = x.len() as int;
    assert(s[0] == open);
    assert(nest_depth(s, 0, open, close, 0) == 0);
    assert(nest_depth(s, 1, open, close, 0) == 1);
    assert forall|i: int| 1 <= i < n - 1 implies s[i] != open && s[i] != close by {
        assert(s[i] == x[i]);
    }
    assert forall|m: int| 1 <= m <= n - 1 implies #[trigger] nest_depth(s, m, open, close, 0) == 1 by {
        lemma_nest_flat_from(s, 1, m, open, close, 0);
    }
    assert(s[n - 1] == close);
    assert(nest_depth(s, n - 1, open, close, 0) == 1);
    assert(nest_depth(s, n, open, close, 0) == 0);
    assert(closes_at(s, n - 1, open, close, 0));
    assert forall|j: int| 0 <= j < n - 1 implies !closes_at(s, j, open, close, 0) by {
        if j == 0 {
        } else {
            assert(s[j] != close);
        }
    }
    lemma_first_close_is(s, 0, n - 1, open, close, 0);
}

/// Over bytes that are neither `open` nor `close`, from `lo` to `hi`, the depth does not change.
pub proof fn lemma_nest_flat_from(s: Seq<u8>, lo: int, hi: int, open: u8, close: u8, d0: int)
    requires
        0 <= lo <= hi <= s.len(),
        forall|i: int| lo <= i < hi ==> s[i] != open && s[i] != close,
    ensures
        nest_depth(s, hi, open, close, d0) == nest_depth(s, lo, open, close, d0),
    decreases hi - lo,
{
    if hi > lo {
        lemma_nest_flat_from(s, lo, hi - 1, open, close, d0);
    }
}

/// `needle` cannot occur at `j` when its byte `k` differs there.
pub proof fn lemma_not_occurs_at(s: Seq<u8>, needle: Seq<u8>, j: int, k: int)
    requires
        0 <= k < needle.len(),
        0 <= j,
        j + k < s.len(),
        s[j + k] != needle[k],
    ensures
        !occurs_at(s, needle, j),
{
    if occurs_at(s, needle, j) {
        assert(s.subrange(j, j + needle.len())[k] == needle[k]);
    }
}

/// The contents of braced items joined by commas are the items without their
/// first and last bytes.
pub proof fn lemma_group_contents_of_join(items: Seq<Seq<u8>>, open: u8, close: u8)
    requires
        open != close,
        open != 44,
        close != 44,
        forall|k: int| 0 <= k < items.len() ==> braced(#[trigger] items[k], open, close),
    ensures
        group_contents(join_commas(items), open, close) == items.map_values(
            |x: Seq<u8>| x.subrange(1, x.len() - 1),
        ),
{
    lemma_groups_of_join(items, open, close);
    let j = join_commas(items);
    let st = group_scan(j, j.len() as int, open, close);
    let want = items.map_values(|x: Seq<u8>| x.subrange(1, x.len() - 1));
    assert forall|k: int| 0 <= k < items.len() implies #[trigger] group_contents(j, open, close)[k] == want[k] by {
        let p = st.2[k];
        assert(j.subrange(p.0, p.1) == items[k]);
        assert(braced(items[k], open, close));
        assert(j.subrange(p.0 + 1, p.1 - 1) =~= items[k].subrange(1, items[k].len() - 1));
    }
    assert(group_contents(j, open, close) =~= want);
}

} // verus!
