//! Which texts `str::parse::<f64>` accepts.
//!
//! The standard library documents the accepted texts by a grammar over the
//! text with ASCII letters lowered:
//!
//! ```text
//! Float  ::= Sign? ( 'inf' | 'infinity' | 'nan' | Number )
//! Number ::= ( Digit+ | Digit+ '.' Digit* | Digit* '.' Digit+ ) Exp?
//! Exp    ::= 'e' Sign? Digit+
//! Sign   ::= [+-]
//! Digit  ::= [0-9]
//! ```
//!
//! The formats check their number texts against it, so that a text they hand
//! out as a number is one the caller's parse accepts, and a text that is not
//! is refused where the reading meets it. An index written as a number's text
//! is read here too (`IndexText`): exactly where the text spells an unsigned
//! integer that `f64` holds, and otherwise handed to the caller as text.
use vstd::prelude::*;
use vstd::slice::{slice_subrange, slice_to_vec};

use crate::text::{
    all_digits, decimal, first_of, first_of_exec, first_of_from, is_digit, lemma_decimal_parses,
    lemma_first_of_concat, lemma_first_of_from_bounds, parse_unsigned, parse_unsigned_bounded,
    plain, plain_byte,
};

verus! {

/// `b` with an ASCII capital letter made small.
pub open spec fn ascii_lower(b: u8) -> u8 {
    if 65 <= b <= 90 {
        (b + 32) as u8
    } else {
        b
    }
}

/// `s` with its ASCII capital letters made small.
pub open spec fn lowered(s: Seq<u8>) -> Seq<u8> {
    s.map_values(|b: u8| ascii_lower(b))
}

/// `s` without one leading `+` or `-`.
pub open spec fn strip_sign(s: Seq<u8>) -> Seq<u8> {
    if s.len() > 0 && (s[0] == 43 || s[0] == 45) {
        s.drop_first()
    } else {
        s
    }
}

/// `Digit+`
pub open spec fn digit_run(s: Seq<u8>) -> bool {
    s.len() > 0 && all_digits(s)
}

/// `Digit+ | Digit+ '.' Digit* | Digit* '.' Digit+`
pub open spec fn is_mantissa(s: Seq<u8>) -> bool {
    let d = first_of(s, 46, 46);
    if d >= s.len() {
        digit_run(s)
    } else {
        all_digits(s.take(d)) && all_digits(s.skip(d + 1)) && s.len() > 1
    }
}

/// `Number`, on a lowered text.
pub open spec fn is_number(s: Seq<u8>) -> bool {
    let e = first_of(s, 101, 101);
    if e >= s.len() {
        is_mantissa(s)
    } else {
        is_mantissa(s.take(e)) && digit_run(strip_sign(s.skip(e + 1)))
    }
}

/// `s` is a text that `str::parse::<f64>` accepts.
pub open spec fn is_float_text(s: Seq<u8>) -> bool {
    let u = strip_sign(lowered(s));
    ||| u == seq![105u8, 110u8, 102u8]
    ||| u == seq![105u8, 110u8, 102u8, 105u8, 110u8, 105u8, 116u8, 121u8]
    ||| u == seq![110u8, 97u8, 110u8]
    ||| is_number(u)
}

fn lowered_exec(s: &[u8]) -> (r: Vec<u8>)
    ensures
        r@ == lowered(s@),
{
    let mut r: Vec<u8> = Vec::new();
    let mut i: usize = 0;
    while i < s.len()
        invariant
            i <= s@.len(),
            r@ == lowered(s@.take(i as int)),
        decreases s@.len() - i,
    {
        let b = s[i];
        let l: u8 = if 65 <= b && b <= 90 { b + 32 } else { b };
        r.push(l);
        i = i + 1;
        assert(r@ =~= lowered(s@.take(i as int)));
    }
    assert(s@.take(i as int) =~= s@);
    r
}

fn strip_sign_exec(s: &[u8]) -> (r: &[u8])
    ensures
        r@ == strip_sign(s@),
{
    if s.len() > 0 && (s[0] == 43 || s[0] == 45) {
        let r = slice_subrange(s, 1, s.len());
        assert(r@ =~= s@.drop_first());
        r
    } else {
        s
    }
}

fn all_digits_exec(s: &[u8]) -> (r: bool)
    ensures
        r == all_digits(s@),
{
    let mut i: usize = 0;
    while i < s.len()
        invariant
            i <= s@.len(),
            forall|j: int| 0 <= j < i ==> #[trigger] is_digit(s@[j]),
        decreases s@.len() - i,
    {
        if s[i] < 48 || s[i] > 57 {
            assert(!is_digit(s@[i as int]));
            return false;
        }
        i = i + 1;
    }
    true
}

fn is_mantissa_exec(s: &[u8]) -> (r: bool)
    ensures
        r == is_mantissa(s@),
{
    let d = first_of_exec(s, 46, 46);
    if d >= s.len() {
        s.len() > 0 && all_digits_exec(s)
    } else {
        let a = slice_subrange(s, 0, d);
        let b = slice_subrange(s, d + 1, s.len());
        assert(a@ =~= s@.take(d as int));
        assert(b@ =~= s@.skip(d + 1));
        all_digits_exec(a) && all_digits_exec(b) && s.len() > 1
    }
}

fn is_number_exec(s: &[u8]) -> (r: bool)
    ensures
        r == is_number(s@),
{
    let e = first_of_exec(s, 101, 101);
    if e >= s.len() {
        is_mantissa_exec(s)
    } else {
        let m = slice_subrange(s, 0, e);
        let x = slice_subrange(s, e + 1, s.len());
        assert(m@ =~= s@.take(e as int));
        assert(x@ =~= s@.skip(e + 1));
        let xs = strip_sign_exec(x);
        is_mantissa_exec(m) && xs.len() > 0 && all_digits_exec(xs)
    }
}

/// Whether `str::parse::<f64>` accepts the text `s`.
pub fn check_float_text(s: &[u8]) -> (r: bool)
    ensures
        r == is_float_text(s@),
{
    let low = lowered_exec(s);
    let u = strip_sign_exec(low.as_slice());
    let n = u.len();
    if n == 3 && u[0] == 105 && u[1] == 110 && u[2] == 102 {
        assert(u@ =~= seq![105u8, 110u8, 102u8]);
        return true;
    }
    if n == 8 && u[0] == 105 && u[1] == 110 && u[2] == 102 && u[3] == 105 && u[4] == 110 && u[5]
        == 105 && u[6] == 116 && u[7] == 121 {
        assert(u@ =~= seq![105u8, 110u8, 102u8, 105u8, 110u8, 105u8, 116u8, 121u8]);
        return true;
    }
    if n == 3 && u[0] == 110 && u[1] == 97 && u[2] == 110 {
        assert(u@ =~= seq![110u8, 97u8, 110u8]);
        return true;
    }
    proof {
        if u@ == seq![105u8, 110u8, 102u8] {
            assert(u@[0] == 105 && u@[1] == 110 && u@[2] == 102);
        }
        if u@ == seq![105u8, 110u8, 102u8, 105u8, 110u8, 105u8, 116u8, 121u8] {
            assert(u@[0] == 105 && u@[1] == 110 && u@[2] == 102 && u@[3] == 105);
            assert(u@[4] == 110 && u@[5] == 105 && u@[6] == 116 && u@[7] == 121);
        }
        if u@ == seq![110u8, 97u8, 110u8] {
            assert(u@[0] == 110 && u@[1] == 97 && u@[2] == 110);
        }
    }
    is_number_exec(u)
}

/// The largest index read exactly from a number text: 2^53 (every integer up
/// to it is an `f64` exactly), or `usize::MAX` where that is smaller. Up to
/// it, the integer a text spells is what `parse::<f64>()` followed by
/// `as usize` gives.
pub open spec fn index_limit() -> nat {
    if usize::MAX < 0x20_0000_0000_0000 {
        usize::MAX as nat
    } else {
        0x20_0000_0000_0000
    }
}

/// `index_limit()`, as a number.
pub fn index_limit_exec() -> (r: u64)
    ensures
        r == index_limit(),
{
    if (usize::MAX as u64) < 0x20_0000_0000_0000u64 {
        usize::MAX as u64
    } else {
        0x20_0000_0000_0000u64
    }
}

/// An index as a number's text gives it.
#[derive(Debug, Clone, PartialEq, Eq)]
pub enum IndexText {
    /// The text spells this unsigned integer, at most `index_limit()`.
    Exact(usize),
    /// Any other number's text: its index is what `parse::<f64>()` followed
    /// by `as usize` gives, a floating-point step left to the caller.
    Float(Vec<u8>),
}

/// The content of an `IndexText`.
pub enum IndexValue {
    Exact(usize),
    Float(Seq<u8>),
}

impl View for IndexText {
    type V = IndexValue;

    open spec fn view(&self) -> IndexValue {
        match self {
            IndexText::Exact(v) => IndexValue::Exact(*v),
            IndexText::Float(t) => IndexValue::Float(t@),
        }
    }
}

/// The index that the number's text `t` gives.
pub open spec fn index_value(t: Seq<u8>) -> IndexValue {
    match parse_unsigned(t, index_limit()) {
        Some(v) => IndexValue::Exact(v as usize),
        None => IndexValue::Float(t),
    }
}

/// Reads the index that the number's text `t` gives.
pub fn read_index(t: &[u8]) -> (r: IndexText)
    ensures
        r@ == index_value(t@),
{
    match parse_unsigned_bounded(t, index_limit_exec()) {
        Some(v) => IndexText::Exact(v as usize),
        None => IndexText::Float(slice_to_vec(t)),
    }
}

// ───────────── which texts are numbers ─────────────

/// An optional sign: nothing, `+` or `-`.
pub open spec fn sign_text(s: Seq<u8>) -> bool {
    s.len() == 0 || s == seq![43u8] || s == seq![45u8]
}

/// Decimal digits only.
pub open spec fn digits_text(s: Seq<u8>) -> bool {
    forall|i: int| 0 <= i < s.len() ==> 48 <= #[trigger] s[i] <= 57
}

/// `t` is `sign`, then the digits `int_digits`, then a point and the digits
/// `frac_digits` if `point`, then `mark` (`e` or `E`), `exp_sign` and the
/// digits `exp_digits` if `exponent`, with a digit before or after the point.
pub open spec fn decimal_shape(
    t: Seq<u8>,
    sign: Seq<u8>,
    int_digits: Seq<u8>,
    point: bool,
    frac_digits: Seq<u8>,
    exponent: bool,
    mark: u8,
    exp_sign: Seq<u8>,
    exp_digits: Seq<u8>,
) -> bool {
    &&& sign_text(sign)
    &&& digits_text(int_digits)
    &&& digits_text(frac_digits)
    &&& point ==> int_digits.len() + frac_digits.len() > 0
    &&& !point ==> int_digits.len() > 0 && frac_digits.len() == 0
    &&& exponent ==> (mark == 101 || mark == 69) && sign_text(exp_sign) && exp_digits.len() > 0
        && digits_text(exp_digits)
    &&& !exponent ==> exp_sign.len() == 0 && exp_digits.len() == 0
    &&& t == sign + (if point {
        int_digits + seq![46u8] + frac_digits
    } else {
        int_digits
    }) + (if exponent {
        seq![mark] + exp_sign + exp_digits
    } else {
        Seq::<u8>::empty()
    })
}

/// `t` is `sign` then `word`, which spells `name` (`inf`, `infinity` or
/// `nan`) in any mix of small and capital letters.
pub open spec fn special_shape(t: Seq<u8>, sign: Seq<u8>, word: Seq<u8>, name: Seq<u8>) -> bool {
    &&& sign_text(sign)
    &&& (name == seq![105u8, 110u8, 102u8] || name == seq![105u8, 110u8, 102u8, 105u8, 110u8, 105u8,
        116u8, 121u8] || name == seq![110u8, 97u8, 110u8])
    &&& word.len() == name.len()
    &&& forall|i: int| 0 <= i < word.len() ==> #[trigger] word[i] == name[i] || word[i] + 32 == name[i]
    &&& t == sign + word
}

/// Every decimal number text is one `str::parse::<f64>` accepts: an optional
/// sign, then digits, or digits, a point and digits with a digit on either
/// side of it, then optionally `e` or `E`, an optional sign and digits.
pub proof fn lemma_decimal_texts_are_float_texts(
    t: Seq<u8>,
    sign: Seq<u8>,
    int_digits: Seq<u8>,
    point: bool,
    frac_digits: Seq<u8>,
    exponent: bool,
    mark: u8,
    exp_sign: Seq<u8>,
    exp_digits: Seq<u8>,
)
    requires
        decimal_shape(t, sign, int_digits, point, frac_digits, exponent, mark, exp_sign, exp_digits),
    ensures
        is_float_text(t),
{
    let m = if point {
        int_digits + seq![46u8] + frac_digits
    } else {
        int_digits
    };
    let x = if exponent {
        seq![mark] + exp_sign + exp_digits
    } else {
        Seq::<u8>::empty()
    };
    let xl = if exponent {
        seq![101u8] + exp_sign + exp_digits
    } else {
        Seq::<u8>::empty()
    };
    // lowering changes only the exponent mark
    assert(m.len() > 0);
    assert forall|i: int| 0 <= i < t.len() implies #[trigger] lowered(t)[i] == (sign + m + xl)[i] by {
        if i < sign.len() {
            assert(sign[i] == 43 || sign[i] == 45);
        } else if i < sign.len() + m.len() {
            let k = i - sign.len();
            if point && k == int_digits.len() {
                assert(m[k] == 46);
            } else if point && k > int_digits.len() {
                assert(m[k] == frac_digits[k - int_digits.len() - 1]);
            } else {
                assert(m[k] == int_digits[k]);
            }
        } else {
            let k = i - sign.len() - m.len();
            if k > 0 {
                if k <= exp_sign.len() {
                    assert(x[k] == exp_sign[k - 1]);
                    assert(exp_sign[k - 1] == 43 || exp_sign[k - 1] == 45);
                } else {
                    assert(x[k] == exp_digits[k - 1 - exp_sign.len()]);
                }
            }
        }
    }
    assert(lowered(t) =~= sign + m + xl);
    let u = m + xl;
    assert(strip_sign(lowered(t)) =~= u) by {
        if sign.len() == 0 {
            assert(sign + m + xl =~= u);
            if point && int_digits.len() == 0 {
                assert(u[0] == 46);
            } else {
                assert(u[0] == int_digits[0]);
            }
        } else {
            assert((sign + m + xl).drop_first() =~= u);
        }
    }
    // the mantissa
    assert forall|i: int| 0 <= i < int_digits.len() implies int_digits[i] != 46u8 && int_digits[i] != 101u8 by {}
    assert forall|i: int| 0 <= i < m.len() implies m[i] != 101u8 by {
        if point && i == int_digits.len() {
        } else if point && i > int_digits.len() {
            assert(m[i] == frac_digits[i - int_digits.len() - 1]);
        } else {
            assert(m[i] == int_digits[i]);
        }
    }
    if point {
        lemma_first_of_concat(int_digits, seq![46u8] + frac_digits, 46, 46, 0);
        assert(m =~= int_digits + (seq![46u8] + frac_digits));
        assert(m.take(int_digits.len() as int) =~= int_digits);
        assert(m.skip(int_digits.len() + 1int) =~= frac_digits);
        assert(all_digits(int_digits));
        assert(all_digits(frac_digits));
    } else {
        lemma_first_of_concat(m, Seq::<u8>::empty(), 46, 46, 0);
        assert(m + Seq::<u8>::empty() =~= m);
        assert(all_digits(m));
    }
    assert(is_mantissa(m));
    // the exponent
    lemma_first_of_concat(m, xl, 101, 101, 0);
    if exponent {
        assert(u.take(m.len() as int) =~= m);
        assert(u.skip(m.len() + 1int) =~= exp_sign + exp_digits);
        assert(strip_sign(exp_sign + exp_digits) =~= exp_digits) by {
            if exp_sign.len() == 0 {
                assert(exp_sign + exp_digits =~= exp_digits);
                assert(48 <= exp_digits[0] <= 57);
            } else {
                assert((exp_sign + exp_digits).drop_first() =~= exp_digits);
            }
        }
        assert(all_digits(exp_digits));
    } else {
        assert(u =~= m);
    }
    assert(is_number(u));
}

/// The texts of infinity and of not-a-number, in any case and with an
/// optional sign, are ones `str::parse::<f64>` accepts.
pub proof fn lemma_special_texts_are_float_texts(t: Seq<u8>, sign: Seq<u8>, word: Seq<u8>, name: Seq<u8>)
    requires
        special_shape(t, sign, word, name),
    ensures
        is_float_text(t),
{
    assert forall|i: int| 0 <= i < t.len() implies #[trigger] lowered(t)[i] == (sign + name)[i] by {
        if i < sign.len() {
            assert(sign[i] == 43 || sign[i] == 45);
        } else {
            assert(word[i - sign.len()] == name[i - sign.len()] || word[i - sign.len()] + 32 == name[i
                - sign.len()]);
        }
    }
    assert(lowered(t) =~= sign + name);
    if sign.len() == 0 {
        assert(sign + name =~= name);
        assert(strip_sign(name) == name);
    } else {
        assert((sign + name).drop_first() =~= name);
    }
}

proof fn lemma_lowered_bytes(v: Seq<u8>)
    ensures
        lowered(v).len() == v.len(),
        forall|i: int|
            0 <= i < v.len() ==> {
                &&& !(97 <= #[trigger] lowered(v)[i] <= 122) ==> v[i] == lowered(v)[i]
                &&& (97 <= lowered(v)[i] <= 122) ==> (v[i] == lowered(v)[i] || v[i] + 32 == lowered(v)[i])
            },
{
}

proof fn lemma_digits_back(v: Seq<u8>, lo: int, hi: int)
    requires
        0 <= lo <= hi <= v.len(),
        all_digits(lowered(v).subrange(lo, hi)),
    ensures
        digits_text(v.subrange(lo, hi)),
        v.subrange(lo, hi) == lowered(v).subrange(lo, hi),
{
    lemma_lowered_bytes(v);
    assert forall|i: int| 0 <= i < hi - lo implies v.subrange(lo, hi)[i] == lowered(v).subrange(lo, hi)[i] by {
        assert(is_digit(lowered(v).subrange(lo, hi)[i]));
        assert(lowered(v)[lo + i] == lowered(v).subrange(lo, hi)[i]);
    }
    assert(v.subrange(lo, hi) =~= lowered(v).subrange(lo, hi));
    assert forall|i: int| 0 <= i < hi - lo implies 48 <= #[trigger] v.subrange(lo, hi)[i] <= 57 by {
        assert(is_digit(lowered(v).subrange(lo, hi)[i]));
    }
}

proof fn lemma_mantissa_parts(mant: Seq<u8>) -> (r: (Seq<u8>, bool, Seq<u8>))
    requires
        is_mantissa(lowered(mant)),
    ensures
        digits_text(r.0),
        digits_text(r.2),
        r.1 ==> r.0.len() + r.2.len() > 0,
        !r.1 ==> r.0.len() > 0 && r.2.len() == 0,
        mant == (if r.1 {
            r.0 + seq![46u8] + r.2
        } else {
            r.0
        }),
{
    let mu = lowered(mant);
    lemma_lowered_bytes(mant);
    let d = first_of(mu, 46, 46);
    lemma_first_of_from_bounds(mu, 46, 46, 0);
    lemma_first_of_hit(mu, 46, 46, 0);
    if d < mu.len() {
        assert(mu.take(d) =~= mu.subrange(0, d));
        assert(mu.skip(d + 1) =~= mu.subrange(d + 1, mant.len() as int));
        lemma_digits_back(mant, 0, d);
        lemma_digits_back(mant, d + 1, mant.len() as int);
        let a = mant.subrange(0, d);
        let b = mant.subrange(d + 1, mant.len() as int);
        assert(mant[d] == 46);
        assert(mant =~= a + seq![46u8] + b);
        (a, true, b)
    } else {
        assert(mu =~= mu.subrange(0, mant.len() as int));
        lemma_digits_back(mant, 0, mant.len() as int);
        assert(mant =~= mant.subrange(0, mant.len() as int));
        (mant, false, Seq::<u8>::empty())
    }
}

proof fn lemma_exponent_parts(rv: Seq<u8>) -> (r: (Seq<u8>, Seq<u8>))
    requires
        digit_run(strip_sign(lowered(rv))),
    ensures
        sign_text(r.0),
        r.1.len() > 0,
        digits_text(r.1),
        rv == r.0 + r.1,
{
    let ru = lowered(rv);
    lemma_lowered_bytes(rv);
    let j: int = if ru.len() > 0 && (ru[0] == 43 || ru[0] == 45) { 1 } else { 0 };
    if j == 1 {
        assert(rv[0] == ru[0]);
    }
    let es = rv.take(j);
    assert(strip_sign(ru) =~= ru.subrange(j, rv.len() as int));
    lemma_digits_back(rv, j, rv.len() as int);
    let ed = rv.subrange(j, rv.len() as int);
    if j == 1 {
        assert(es =~= seq![rv[0]]);
    } else {
        assert(es =~= Seq::<u8>::empty());
    }
    assert(rv =~= es + ed);
    (es, ed)
}

/// `str::parse::<f64>` accepts nothing else: a text it accepts is a decimal
/// number text or a text of infinity or not-a-number, each with an optional
/// sign.
#[verifier::rlimit(40)]
pub proof fn lemma_float_texts_are_decimal_or_special(t: Seq<u8>)
    requires
        is_float_text(t),
    ensures
        (exists|sign: Seq<u8>, a: Seq<u8>, point: bool, b: Seq<u8>, exponent: bool, mark: u8, es: Seq<u8>, ed: Seq<u8>|
            #[trigger] decimal_shape(t, sign, a, point, b, exponent, mark, es, ed))
            || (exists|sign: Seq<u8>, word: Seq<u8>, name: Seq<u8>| #[trigger] special_shape(t, sign, word, name)),
{
    let l = lowered(t);
    lemma_lowered_bytes(t);
    let k: int = if l.len() > 0 && (l[0] == 43 || l[0] == 45) { 1 } else { 0 };
    if k == 1 {
        assert(t[0] == l[0]);
    }
    let sign = t.take(k);
    let v = t.skip(k);
    let u = strip_sign(l);
    assert(u =~= lowered(v));
    assert(t =~= sign + v);
    assert(sign_text(sign)) by {
        if k == 1 {
            assert(sign =~= seq![t[0]]);
        } else {
            assert(sign =~= Seq::<u8>::empty());
        }
    }
    lemma_lowered_bytes(v);
    if u == seq![105u8, 110u8, 102u8] || u == seq![105u8, 110u8, 102u8, 105u8, 110u8, 105u8, 116u8, 121u8]
        || u == seq![110u8, 97u8, 110u8] {
        assert forall|i: int| 0 <= i < v.len() implies #[trigger] v[i] == u[i] || v[i] + 32 == u[i] by {
            assert(lowered(v)[i] == u[i]);
        }
        assert(special_shape(t, sign, v, u));
    } else {
        assert(is_number(u));
        let e = first_of(u, 101, 101);
        lemma_first_of_from_bounds(u, 101, 101, 0);
        lemma_first_of_hit(u, 101, 101, 0);
        if e < u.len() {
            let mant = v.take(e);
            let rv = v.skip(e + 1);
            assert(u.take(e) =~= lowered(mant));
            assert(u.skip(e + 1) =~= lowered(rv));
            let m = lemma_mantissa_parts(mant);
            let x = lemma_exponent_parts(rv);
            let mark = v[e];
            assert(u[e] == 101);
            assert(mark == 101 || mark == 69);
            assert(v =~= mant + (seq![mark] + rv));
            assert(seq![mark] + rv =~= seq![mark] + x.0 + x.1);
            assert(t == sign + mant + (seq![mark] + x.0 + x.1)) by {
                assert(t =~= sign + (mant + (seq![mark] + rv)));
            }
            assert(decimal_shape(t, sign, m.0, m.1, m.2, true, mark, x.0, x.1));
        } else {
            let m = lemma_mantissa_parts(v);
            assert(t == sign + v + Seq::<u8>::empty()) by {
                assert(t =~= sign + v + Seq::<u8>::empty());
            }
            assert(decimal_shape(t, sign, m.0, m.1, m.2, false, 0u8, Seq::<u8>::empty(), Seq::<u8>::empty()));
        }
    }
}

// ───────────── facts ─────────────

/// The bytes a lowered float text can hold: digits, `.`, `+`, `-` and the
/// small letters of `e`, `inf`, `infinity` and `nan`.
pub open spec fn float_byte(b: u8) -> bool {
    is_digit(b) || b == 46 || b == 43 || b == 45 || b == 101 || b == 105 || b == 110 || b == 102
        || b == 116 || b == 121 || b == 97
}

proof fn lemma_first_of_hit(s: Seq<u8>, a: u8, b: u8, k: int)
    requires
        0 <= k <= s.len(),
    ensures
        first_of_from(s, a, b, k) < s.len() ==> (s[first_of_from(s, a, b, k)] == a || s[first_of_from(s, a, b, k)] == b),
    decreases s.len() - k,
{
    if k < s.len() && !(s[k] == a || s[k] == b) {
        lemma_first_of_hit(s, a, b, k + 1);
    }
}

proof fn lemma_mantissa_bytes(m: Seq<u8>)
    requires
        is_mantissa(m),
    ensures
        forall|j: int| 0 <= j < m.len() ==> #[trigger] float_byte(m[j]),
{
    let d = first_of(m, 46, 46);
    lemma_first_of_from_bounds(m, 46, 46, 0);
    lemma_first_of_hit(m, 46, 46, 0);
    assert forall|j: int| 0 <= j < m.len() implies #[trigger] float_byte(m[j]) by {
        if d >= m.len() {
            assert(is_digit(m[j]));
        } else if j < d {
            assert(m.take(d)[j] == m[j]);
            assert(is_digit(m.take(d)[j]));
        } else if j > d {
            assert(m.skip(d + 1)[j - d - 1] == m[j]);
            assert(is_digit(m.skip(d + 1)[j - d - 1]));
        }
    }
}

proof fn lemma_number_bytes(u: Seq<u8>)
    requires
        is_number(u),
    ensures
        forall|j: int| 0 <= j < u.len() ==> #[trigger] float_byte(u[j]),
{
    let e = first_of(u, 101, 101);
    lemma_first_of_from_bounds(u, 101, 101, 0);
    lemma_first_of_hit(u, 101, 101, 0);
    if e >= u.len() {
        lemma_mantissa_bytes(u);
    } else {
        let m = u.take(e);
        let x = u.skip(e + 1);
        lemma_mantissa_bytes(m);
        let xs = strip_sign(x);
        assert forall|j: int| 0 <= j < u.len() implies #[trigger] float_byte(u[j]) by {
            if j < e {
                assert(m[j] == u[j]);
                assert(float_byte(m[j]));
            } else if j > e {
                assert(x[j - e - 1] == u[j]);
                if x.len() > 0 && (x[0] == 43 || x[0] == 45) {
                    if j > e + 1 {
                        assert(xs[j - e - 2] == x[j - e - 1]);
                        assert(is_digit(xs[j - e - 2]));
                    }
                } else {
                    assert(is_digit(xs[j - e - 1]));
                }
            }
        }
    }
}

/// A float text is a non-empty plain text: it holds no delimiter of the
/// formats and no whitespace.
pub proof fn lemma_float_text_plain(t: Seq<u8>)
    requires
        is_float_text(t),
    ensures
        plain(t),
        t.len() > 0,
{
    let l = lowered(t);
    let u = strip_sign(l);
    let signed = l.len() > 0 && (l[0] == 43 || l[0] == 45);
    if u == seq![105u8, 110u8, 102u8] || u == seq![105u8, 110u8, 102u8, 105u8, 110u8, 105u8, 116u8,
        121u8] || u == seq![110u8, 97u8, 110u8] {
        assert(float_byte(u[0]));
        assert forall|j: int| 0 <= j < u.len() implies #[trigger] float_byte(u[j]) by {}
    } else {
        lemma_number_bytes(u);
        let e = first_of(u, 101, 101);
        if u.len() == 0 {
            assert(first_of_from(u, 101, 101, 0) == 0);
            assert(first_of_from(u, 46, 46, 0) == 0);
        }
    }
    assert(u.len() > 0);
    assert forall|j: int| 0 <= j < t.len() implies #[trigger] plain_byte(t[j]) by {
        assert(l[j] == ascii_lower(t[j]));
        if signed {
            if j > 0 {
                assert(u[j - 1] == l[j]);
                assert(float_byte(u[j - 1]));
            }
        } else {
            assert(u[j] == l[j]);
            assert(float_byte(u[j]));
        }
    }
}

/// The decimal digits of a number are a float text.
pub proof fn lemma_decimal_float(n: nat)
    ensures
        is_float_text(decimal(n)),
{
    let d = decimal(n);
    lemma_decimal_parses(n);
    let l = lowered(d);
    assert forall|j: int| 0 <= j < d.len() implies l[j] == d[j] by {
        assert(is_digit(d[j]));
    }
    assert(l =~= d);
    assert(strip_sign(l) == d) by {
        assert(is_digit(d[0]));
    }
    assert forall|j: int| 0 <= j < d.len() implies d[j] != 101u8 && d[j] != 46u8 by {
        assert(is_digit(d[j]));
    }
    lemma_first_of_concat(d, Seq::<u8>::empty(), 101, 101, 0);
    lemma_first_of_concat(d, Seq::<u8>::empty(), 46, 46, 0);
    assert(d + Seq::<u8>::empty() =~= d);
}

} // verus!
