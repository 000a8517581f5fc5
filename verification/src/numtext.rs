//! Recognition of numeric literals as Rust's `f64` parser reads them.
//!
//! The script parsers classify a word as a number exactly when `str::parse::<f64>`
//! accepts it and the value is finite.  This module decides that with integer
//! arithmetic: the grammar is the one std documents for `f64: FromStr`, and a
//! literal is finite exactly when its value is below `2^1024 - 2^970`, the
//! point from which round-to-nearest-even yields infinity.
use vstd::prelude::*;
use crate::text::is_digit;

verus! {

pub open spec fn pow10(k: nat) -> nat
    decreases k,
{
    if k == 0 {
        1
    } else {
        10 * pow10((k - 1) as nat)
    }
}

pub open spec fn digit_val(c: char) -> nat {
    ((c as u32) - ('0' as u32)) as nat
}

/// The integer written by a sequence of decimal digits.
pub open spec fn digits_value(d: Seq<char>) -> nat
    decreases d.len(),
{
    if d.len() == 0 {
        0
    } else {
        digits_value(d.drop_last()) * 10 + digit_val(d.last())
    }
}

pub open spec fn all_digits(d: Seq<char>) -> bool {
    forall|i: int| 0 <= i < d.len() ==> is_digit(#[trigger] d[i])
}

pub open spec fn is_sign(c: char) -> bool {
    c == '+' || c == '-'
}

/// End of the run of digits of `t` that starts at `i`.
pub open spec fn digit_end(t: Seq<char>, i: int) -> int
    decreases t.len() - i,
{
    if 0 <= i < t.len() && is_digit(t[i]) {
        digit_end(t, i + 1)
    } else {
        i
    }
}

pub open spec fn mantissa_start(t: Seq<char>) -> int {
    if t.len() > 0 && is_sign(t[0]) {
        1
    } else {
        0
    }
}

pub open spec fn int_end(t: Seq<char>) -> int {
    digit_end(t, mantissa_start(t))
}

pub open spec fn has_dot(t: Seq<char>) -> bool {
    int_end(t) < t.len() && t[int_end(t)] == '.'
}

pub open spec fn frac_start(t: Seq<char>) -> int {
    if has_dot(t) {
        int_end(t) + 1
    } else {
        int_end(t)
    }
}

pub open spec fn frac_end(t: Seq<char>) -> int {
    if has_dot(t) {
        digit_end(t, frac_start(t))
    } else {
        int_end(t)
    }
}

/// The mantissa digits of `t`, with the decimal point removed.
pub open spec fn mantissa_digits(t: Seq<char>) -> Seq<char> {
    t.subrange(mantissa_start(t), int_end(t)) + t.subrange(frac_start(t), frac_end(t))
}

/// Where the digits of an exponent part `x` (`e`, optional sign, digits) begin.
pub open spec fn exp_digits_start(x: Seq<char>) -> int {
    if x.len() >= 2 && is_sign(x[1]) {
        2
    } else {
        1
    }
}

/// `x` is an exponent part: `e` or `E`, an optional sign, and at least one digit.
pub open spec fn exp_syntax(x: Seq<char>) -> bool {
    &&& x.len() >= 2
    &&& (x[0] == 'e' || x[0] == 'E')
    &&& exp_digits_start(x) < x.len()
    &&& digit_end(x, exp_digits_start(x)) == x.len()
}

pub open spec fn exp_part(t: Seq<char>) -> Seq<char> {
    t.subrange(frac_end(t), t.len() as int)
}

/// `t` is `Sign? (Digit+ | Digit+ '.' Digit* | Digit* '.' Digit+) Exp?`.
pub open spec fn number_syntax(t: Seq<char>) -> bool {
    &&& mantissa_digits(t).len() >= 1
    &&& (frac_end(t) == t.len() || exp_syntax(exp_part(t)))
}

/// The signed value of the exponent part (zero when there is none).
pub open spec fn exp_value(t: Seq<char>) -> int {
    if frac_end(t) == t.len() {
        0
    } else {
        let x = exp_part(t);
        let v = digits_value(x.subrange(exp_digits_start(x), x.len() as int)) as int;
        if x[1] == '-' {
            -v
        } else {
            v
        }
    }
}

/// `2^1024 - 2^970` in decimal: the smallest value that `f64` parsing rounds to infinity.
#[verifier::opaque]
pub open spec fn overflow_digits() -> Seq<char> {
    seq!['1','7','9','7','6','9','3','1','3','4','8','6','2','3','1','5','8','0','7','9','3','7','2','8','9','7','1','4','0','5','3','0','3','4','1','5','0','7','9','9','3','4','1','3','2','7','1','0','0','3','7','8','2','6','9','3','6','1','7','3','7','7','8','9','8','0','4','4','4','9','6','8','2','9','2','7','6','4','7','5','0','9','4','6','6','4','9','0','1','7','9','7','7','5','8','7','2','0','7','0','9','6','3','3','0','2','8','6','4','1','6','6','9','2','8','8','7','9','1','0','9','4','6','5','5','5','5','4','7','8','5','1','9','4','0','4','0','2','6','3','0','6','5','7','4','8','8','6','7','1','5','0','5','8','2','0','6','8','1','9','0','8','9','0','2','0','0','0','7','0','8','3','8','3','6','7','6','2','7','3','8','5','4','8','4','5','8','1','7','7','1','1','5','3','1','7','6','4','4','7','5','7','3','0','2','7','0','0','6','9','8','5','5','5','7','1','3','6','6','9','5','9','6','2','2','8','4','2','9','1','4','8','1','9','8','6','0','8','3','4','9','3','6','4','7','5','2','9','2','7','1','9','0','7','4','1','6','8','4','4','4','3','6','5','5','1','0','7','0','4','3','4','2','7','1','1','5','5','9','6','9','9','5','0','8','0','9','3','0','4','2','8','8','0','1','7','7','9','0','4','1','7','4','4','9','7','7','9','2']
}

pub open spec fn overflow_bound() -> nat {
    digits_value(overflow_digits())
}

/// `m * 10^k` (a rational when `k < 0`) lies below the overflow bound.
pub open spec fn below_overflow(m: nat, k: int) -> bool {
    if k >= 0 {
        m * pow10(k as nat) < overflow_bound()
    } else {
        m < overflow_bound() * pow10((-k) as nat)
    }
}

/// `t` is a decimal literal that `f64` parsing accepts with a finite result.
pub open spec fn finite_float_text(t: Seq<char>) -> bool {
    &&& number_syntax(t)
    &&& below_overflow(
        digits_value(mantissa_digits(t)),
        exp_value(t) - (frac_end(t) - frac_start(t)),
    )
}

} // verus!

verus! {

// ---------------------------------------------------------------------------
// Arithmetic facts about digit strings
// ---------------------------------------------------------------------------

pub proof fn lemma_pow10_add(a: nat, b: nat)
    ensures
        pow10(a + b) == pow10(a) * pow10(b),
    decreases a,
{
    if a > 0 {
        lemma_pow10_add((a - 1) as nat, b);
        assert(((a + b) - 1) as nat == ((a - 1) as nat + b) as nat);
        assert(pow10(a + b) == 10 * pow10((a - 1 + b) as nat));
        assert(pow10(a) == 10 * pow10((a - 1) as nat));
        assert(10 * (pow10((a - 1) as nat) * pow10(b)) == (10 * pow10((a - 1) as nat)) * pow10(b))
            by (nonlinear_arith);
    } else {
        assert(pow10(0) == 1);
        assert(a + b == b);
    }
}

pub proof fn lemma_pow10_positive(a: nat)
    ensures
        pow10(a) >= 1,
    decreases a,
{
    if a > 0 {
        lemma_pow10_positive((a - 1) as nat);
    }
}

pub proof fn lemma_pow10_mono(a: nat, b: nat)
    requires
        a <= b,
    ensures
        pow10(a) <= pow10(b),
{
    lemma_pow10_add(a, (b - a) as nat);
    lemma_pow10_positive((b - a) as nat);
    lemma_pow10_positive(a);
    assert(pow10(a) * pow10((b - a) as nat) >= pow10(a) * 1) by (nonlinear_arith)
        requires
            pow10((b - a) as nat) >= 1,
    ;
    assert(a + (b - a) as nat == b);
}

pub proof fn lemma_digits_append(a: Seq<char>, b: Seq<char>)
    ensures
        digits_value(a + b) == digits_value(a) * pow10(b.len()) + digits_value(b),
    decreases b.len(),
{
    if b.len() == 0 {
        assert(a + b =~= a);
        assert(pow10(0) == 1);
        assert(digits_value(b) == 0);
        assert(digits_value(a) * 1 == digits_value(a));
    } else {
        let b1 = b.drop_last();
        assert(digits_value(a + b) == digits_value((a + b).drop_last()) * 10 + digit_val(
            (a + b).last(),
        ));
        assert(digits_value(b) == digits_value(b1) * 10 + digit_val(b.last()));
        assert((a + b).drop_last() =~= a + b1);
        assert((a + b).last() == b.last());
        lemma_digits_append(a, b1);
        let va = digits_value(a);
        let p = pow10(b1.len());
        let vb1 = digits_value(b1);
        assert(pow10(b.len()) == 10 * p);
        assert((va * p + vb1) * 10 + digit_val(b.last()) == va * (10 * p) + (vb1 * 10 + digit_val(
            b.last(),
        ))) by (nonlinear_arith);
    }
}

pub proof fn lemma_digits_upper(d: Seq<char>)
    requires
        all_digits(d),
    ensures
        digits_value(d) < pow10(d.len()),
    decreases d.len(),
{
    if d.len() > 0 {
        let d1 = d.drop_last();
        assert(all_digits(d1));
        lemma_digits_upper(d1);
        assert(is_digit(d[d.len() - 1]));
        assert(digit_val(d.last()) <= 9);
        let v1 = digits_value(d1);
        let p = pow10(d1.len());
        assert(v1 * 10 + digit_val(d.last()) < 10 * p) by (nonlinear_arith)
            requires
                v1 < p,
                digit_val(d.last()) <= 9,
        ;
    }
}

pub proof fn lemma_digits_single(c: char)
    ensures
        digits_value(seq![c]) == digit_val(c),
{
    assert(seq![c].drop_last() =~= Seq::<char>::empty());
    assert(digits_value(Seq::<char>::empty()) == 0);
    assert(seq![c].last() == c);
}

pub proof fn lemma_digits_lower(d: Seq<char>)
    requires
        all_digits(d),
        d.len() >= 1,
        d[0] != '0',
    ensures
        digits_value(d) >= pow10((d.len() - 1) as nat),
{
    let a = d.take(1);
    let b = d.skip(1);
    assert(a + b =~= d);
    assert(a =~= seq![d[0]]);
    lemma_digits_append(a, b);
    lemma_digits_single(d[0]);
    assert(is_digit(d[0]));
    assert(digit_val(d[0]) >= 1);
    let p = pow10(b.len());
    assert(digit_val(d[0]) * p >= p) by (nonlinear_arith)
        requires
            digit_val(d[0]) >= 1,
    ;
}

pub proof fn lemma_digits_zeros(z: Seq<char>)
    requires
        forall|i: int| 0 <= i < z.len() ==> z[i] == '0',
    ensures
        digits_value(z) == 0,
    decreases z.len(),
{
    if z.len() > 0 {
        lemma_digits_zeros(z.drop_last());
    }
}

/// Of two digit strings of one length, the one that is smaller at the first
/// position where they differ writes the smaller number.
pub proof fn lemma_digits_lex_less(a: Seq<char>, b: Seq<char>, i: int)
    requires
        all_digits(a),
        all_digits(b),
        a.len() == b.len(),
        0 <= i < a.len(),
        a.take(i) == b.take(i),
        a[i] < b[i],
    ensures
        digits_value(a) < digits_value(b),
{
    let n = a.len();
    let ra = a.skip(i + 1);
    let rb = b.skip(i + 1);
    assert(a.take(i + 1) + ra =~= a);
    assert(b.take(i + 1) + rb =~= b);
    lemma_digits_append(a.take(i + 1), ra);
    lemma_digits_append(b.take(i + 1), rb);
    assert(a.take(i + 1).drop_last() =~= a.take(i));
    assert(b.take(i + 1).drop_last() =~= b.take(i));
    let c = digits_value(a.take(i));
    assert(digits_value(a.take(i + 1)) == c * 10 + digit_val(a[i]));
    assert(digits_value(b.take(i + 1)) == c * 10 + digit_val(b[i]));
    assert(all_digits(ra));
    lemma_digits_upper(ra);
    assert(is_digit(a[i]) && is_digit(b[i]));
    assert(digit_val(a[i]) + 1 <= digit_val(b[i]));
    let p = pow10(ra.len());
    assert(rb.len() == ra.len());
    let x = digit_val(a[i]);
    let y = digit_val(b[i]);
    let va = digits_value(ra);
    let vb = digits_value(rb);
    assert((c * 10 + x) * p + va < (c * 10 + y) * p + vb) by (nonlinear_arith)
        requires
            va < p,
            x + 1 <= y,
            vb >= 0,
    ;
}

pub proof fn lemma_overflow_bound_range()
    ensures
        pow10(308) <= overflow_bound() < pow10(309),
        all_digits(overflow_digits()),
        overflow_digits().len() == 309,
{
    reveal(overflow_digits);
    let t = overflow_digits();
    assert(t.len() == 309);
    assert(all_digits(t));
    lemma_digits_upper(t);
    lemma_digits_lower(t);
}

} // verus!

verus! {

/// `d` cut or zero-padded to `m` digits.
pub open spec fn pad_trunc(d: Seq<char>, m: nat) -> Seq<char> {
    if d.len() >= m {
        d.take(m as int)
    } else {
        d + Seq::new((m - d.len()) as nat, |i: int| '0')
    }
}

/// Where the value `v * 10^k` of `n` significant digits lies against the overflow bound
/// is decided by its decimal exponent `n - 1 + k`, and on the bound's own
/// exponent by comparing the first 309 digits.
pub proof fn lemma_overflow_by_exponent(d: Seq<char>, k: int)
    requires
        all_digits(d),
        d.len() >= 1,
        d[0] != '0',
    ensures
        d.len() - 1 + k < 308 ==> below_overflow(digits_value(d), k),
        d.len() - 1 + k > 308 ==> !below_overflow(digits_value(d), k),
        d.len() - 1 + k == 308 ==> (below_overflow(digits_value(d), k) <==> digits_value(
            pad_trunc(d, 309),
        ) < overflow_bound()),
{
    let n = d.len();
    let v = digits_value(d);
    let t = overflow_bound();
    lemma_overflow_bound_range();
    lemma_digits_upper(d);
    lemma_digits_lower(d);
    if k >= 0 {
        let kn = k as nat;
        lemma_pow10_add(n, kn);
        lemma_pow10_add((n - 1) as nat, kn);
        lemma_pow10_positive(kn);
        if n - 1 + k < 308 {
            lemma_pow10_mono(n + kn, 308);
            assert(v * pow10(kn) < pow10(n) * pow10(kn)) by (nonlinear_arith)
                requires
                    v < pow10(n),
                    pow10(kn) >= 1,
            ;
        } else if n - 1 + k > 308 {
            lemma_pow10_mono(309, (n - 1 + kn) as nat);
            assert(v * pow10(kn) >= pow10((n - 1) as nat) * pow10(kn)) by (nonlinear_arith)
                requires
                    v >= pow10((n - 1) as nat),
            ;
        } else {
            let z = Seq::new((309 - n) as nat, |i: int| '0');
            assert(pad_trunc(d, 309) == d + z);
            lemma_digits_append(d, z);
            lemma_digits_zeros(z);
            assert(z.len() == kn);
        }
    } else {
        let m = (-k) as nat;
        lemma_pow10_positive(m);
        if n - 1 + k < 308 {
            lemma_pow10_mono(n, 308 + m);
            lemma_pow10_add(308, m);
            assert(pow10(308) * pow10(m) <= t * pow10(m)) by (nonlinear_arith)
                requires
                    pow10(308) <= t,
            ;
        } else if n - 1 + k > 308 {
            let e = (n - 1 - m) as nat;
            lemma_pow10_add(e, m);
            assert(e + m == (n - 1) as nat);
            lemma_pow10_mono(309, e);
            assert(pow10(e) * pow10(m) > t * pow10(m)) by (nonlinear_arith)
                requires
                    pow10(e) > t,
                    pow10(m) >= 1,
            ;
        } else {
            let p = d.take(309);
            let r = d.skip(309);
            assert(p + r =~= d);
            assert(pad_trunc(d, 309) == p);
            lemma_digits_append(p, r);
            assert(all_digits(r));
            lemma_digits_upper(r);
            assert(r.len() == m);
            let vp = digits_value(p);
            let vr = digits_value(r);
            let pm = pow10(m);
            if vp < t {
                assert(vp * pm + vr < t * pm) by (nonlinear_arith)
                    requires
                        vp + 1 <= t,
                        vr < pm,
                ;
            } else {
                assert(vp * pm + vr >= t * pm) by (nonlinear_arith)
                    requires
                        vp >= t,
                        vr >= 0,
                ;
            }
        }
    }
}

} // verus!

verus! {

pub fn is_digit_char(c: char) -> (r: bool)
    ensures
        r == is_digit(c),
{
    '0' <= c && c <= '9'
}

/// End of the run of digits of `s[a..b]` that starts at absolute position `i`.
pub fn scan_digits(s: &Vec<char>, a: usize, b: usize, i: usize) -> (j: usize)
    requires
        a <= i <= b <= s.len(),
    ensures
        i <= j <= b,
        j - a == digit_end(s@.subrange(a as int, b as int), i - a),
        forall|k: int| i <= k < j ==> is_digit(#[trigger] s@[k]),
{
    let ghost t = s@.subrange(a as int, b as int);
    let mut j = i;
    while j < b && is_digit_char(s[j])
        invariant
            a <= i <= j <= b <= s.len(),
            t == s@.subrange(a as int, b as int),
            digit_end(t, j - a) == digit_end(t, i - a),
            forall|k: int| i <= k < j ==> is_digit(#[trigger] s@[k]),
        decreases b - j,
    {
        assert(t[j - a] == s@[j as int]);
        j += 1;
    }
    j
}

/// The overflow bound's digit at position `j`.
fn overflow_digit(j: usize) -> (c: char)
    requires
        j < 309,
    ensures
        c == overflow_digits()[j as int],
{
    let t: [char; 309] = ['1','7','9','7','6','9','3','1','3','4','8','6','2','3','1','5','8','0','7','9','3','7','2','8','9','7','1','4','0','5','3','0','3','4','1','5','0','7','9','9','3','4','1','3','2','7','1','0','0','3','7','8','2','6','9','3','6','1','7','3','7','7','8','9','8','0','4','4','4','9','6','8','2','9','2','7','6','4','7','5','0','9','4','6','6','4','9','0','1','7','9','7','7','5','8','7','2','0','7','0','9','6','3','3','0','2','8','6','4','1','6','6','9','2','8','8','7','9','1','0','9','4','6','5','5','5','5','4','7','8','5','1','9','4','0','4','0','2','6','3','0','6','5','7','4','8','8','6','7','1','5','0','5','8','2','0','6','8','1','9','0','8','9','0','2','0','0','0','7','0','8','3','8','3','6','7','6','2','7','3','8','5','4','8','4','5','8','1','7','7','1','1','5','3','1','7','6','4','4','7','5','7','3','0','2','7','0','0','6','9','8','5','5','5','7','1','3','6','6','9','5','9','6','2','2','8','4','2','9','1','4','8','1','9','8','6','0','8','3','4','9','3','6','4','7','5','2','9','2','7','1','9','0','7','4','1','6','8','4','4','4','3','6','5','5','1','0','7','0','4','3','4','2','7','1','1','5','5','9','6','9','9','5','0','8','0','9','3','0','4','2','8','8','0','1','7','7','9','0','4','1','7','4','4','9','7','7','9','2'];
    proof { reveal(overflow_digits); }
    assert(t@ == overflow_digits());
    t[j]
}

} // verus!

verus! {

/// The exponent-magnitude cap: far above any exponent that can matter for
/// inputs whose length fits in `usize`.
const EXP_CAP: u128 = 100_000_000_000_000_000_000u128;

/// Reads the exponent part `s[p..b]`: whether it is well formed, whether it is
/// negative, and its magnitude capped at `EXP_CAP`.
fn scan_exponent(s: &Vec<char>, p: usize, b: usize) -> (r: (bool, bool, u128))
    requires
        p < b <= s.len(),
    ensures
        r.0 == exp_syntax(s@.subrange(p as int, b as int)),
        r.0 ==> ({
            let x = s@.subrange(p as int, b as int);
            let v = digits_value(x.subrange(exp_digits_start(x), x.len() as int));
            &&& r.1 == (x[1] == '-')
            &&& r.2 == (if v < EXP_CAP { v } else { EXP_CAP as nat })
        }),
{
    let ghost x = s@.subrange(p as int, b as int);
    if b - p < 2 || !(s[p] == 'e' || s[p] == 'E') {
        return (false, false, 0);
    }
    let q: usize = if s[p + 1] == '+' || s[p + 1] == '-' { 2 } else { 1 };
    assert(q == exp_digits_start(x));
    if p + q >= b {
        return (false, false, 0);
    }
    let e = scan_digits(s, p, b, p + q);
    if e != b {
        return (false, false, 0);
    }
    let neg = s[p + 1] == '-';
    let mut v: u128 = 0;
    let mut j = p + q;
    while j < b
        invariant
            p + q <= j <= b <= s.len(),
            x == s@.subrange(p as int, b as int),
            q == exp_digits_start(x),
            forall|k: int| p + q <= k < b ==> is_digit(#[trigger] s@[k]),
            v == (if digits_value(x.subrange(q as int, j - p)) < EXP_CAP {
                digits_value(x.subrange(q as int, j - p))
            } else {
                EXP_CAP as nat
            }),
        decreases b - j,
    {
        let c = s[j];
        assert(is_digit(s@[j as int]));
        let d = (c as u32 - '0' as u32) as u128;
        let ghost pre = x.subrange(q as int, j - p);
        let ghost nxt = x.subrange(q as int, j + 1 - p);
        assert(nxt.drop_last() =~= pre);
        assert(nxt.last() == c);
        assert(digits_value(nxt) == digits_value(pre) * 10 + digit_val(c));
        let w = v * 10 + d;
        v = if w < EXP_CAP { w } else { EXP_CAP };
        j += 1;
    }
    assert(x.subrange(q as int, b - p) =~= x.subrange(q as int, x.len() as int));
    (true, neg, v)
}

} // verus!

verus! {

/// The digit at index `i` of the mantissa of a literal whose integer digits
/// are `s[p0..p1]` and fraction digits `s[p2..p3]`.
fn mantissa_digit(s: &Vec<char>, p0: usize, p1: usize, p2: usize, p3: usize, i: usize) -> (c: char)
    requires
        p0 <= p1 <= p2 <= p3 <= s.len(),
        i < (p1 - p0) + (p3 - p2),
    ensures
        c == (s@.subrange(p0 as int, p1 as int) + s@.subrange(p2 as int, p3 as int))[i as int],
{
    if i < p1 - p0 {
        s[p0 + i]
    } else {
        s[p2 + (i - (p1 - p0))]
    }
}

/// Whether `s[a..b]` is a decimal literal that Rust's `f64` parsing accepts with a
/// finite result.
/// Positions of the parts of the literal `s[a..b]`: the mantissa begins at
/// `p0`, its integer digits end at `p1`, its fraction digits run `p2..p3`.
fn mantissa_layout(s: &Vec<char>, a: usize, b: usize) -> (r: (usize, usize, usize, usize))
    requires
        a <= b <= s.len(),
    ensures
        ({
            let t = s@.subrange(a as int, b as int);
            &&& a <= r.0 <= r.1 <= r.2 <= r.3 <= b
            &&& r.0 - a == mantissa_start(t)
            &&& r.1 - a == int_end(t)
            &&& r.2 - a == frac_start(t)
            &&& r.3 - a == frac_end(t)
            &&& mantissa_digits(t) == s@.subrange(r.0 as int, r.1 as int) + s@.subrange(
                r.2 as int,
                r.3 as int,
            )
            &&& all_digits(mantissa_digits(t))
        }),
{
    let ghost t = s@.subrange(a as int, b as int);
    let p0 = if a < b && (s[a] == '+' || s[a] == '-') { a + 1 } else { a };
    assert(p0 - a == mantissa_start(t));
    let p1 = scan_digits(s, a, b, p0);
    let dot = p1 < b && s[p1] == '.';
    assert(dot == has_dot(t));
    let p2 = if dot { p1 + 1 } else { p1 };
    let p3 = if dot { scan_digits(s, a, b, p2) } else { p1 };
    let ghost dd = mantissa_digits(t);
    assert(dd =~= s@.subrange(p0 as int, p1 as int) + s@.subrange(p2 as int, p3 as int));
    assert(all_digits(dd));
    (p0, p1, p2, p3)
}

pub fn is_finite_float_text(s: &Vec<char>, a: usize, b: usize) -> (r: bool)
    requires
        a <= b <= s.len(),
    ensures
        r == finite_float_text(s@.subrange(a as int, b as int)),
{
    let ghost t = s@.subrange(a as int, b as int);
    let (p0, p1, p2, p3) = mantissa_layout(s, a, b);
    let ghost dd = mantissa_digits(t);
    let total = (p1 - p0) + (p3 - p2);
    if total == 0 {
        return false;
    }
    let mut neg = false;
    let mut mag: u128 = 0;
    if p3 < b {
        let (ok, ng, mg) = scan_exponent(s, p3, b);
        assert(s@.subrange(p3 as int, b as int) =~= exp_part(t));
        if !ok {
            return false;
        }
        neg = ng;
        mag = mg;
    }
    assert(number_syntax(t));
    assert(all_digits(dd));
    // Skip leading zeros of the mantissa.
    let mut z: usize = 0;
    while z < total && mantissa_digit(s, p0, p1, p2, p3, z) == '0'
        invariant
            z <= total,
            total == dd.len(),
            p0 <= p1 <= p2 <= p3 <= b <= s.len(),
            dd =~= s@.subrange(p0 as int, p1 as int) + s@.subrange(p2 as int, p3 as int),
            forall|i: int| 0 <= i < z ==> dd[i] == '0',
        decreases total - z,
    {
        z += 1;
    }
    let ghost frac_len = (p3 - p2) as int;
    let ghost k = exp_value(t) - frac_len;
    assert(dd.take(z as int) + dd.skip(z as int) =~= dd);
    proof { lemma_digits_append(dd.take(z as int), dd.skip(z as int)); }
    proof {
        lemma_digits_zeros(dd.take(z as int));
        let pz = pow10(dd.skip(z as int).len());
        assert(0nat * pz == 0) by (nonlinear_arith);
    }
    if z == total {
        // The mantissa is zero, which is always finite.
        proof { lemma_overflow_bound_range(); }
        proof { lemma_pow10_positive(0); }
        assert(digits_value(dd) == 0);
        proof {
            if k >= 0 {
                assert(0nat * pow10(k as nat) == 0) by (nonlinear_arith);
            } else {
                lemma_pow10_positive((-k) as nat);
                lemma_pow10_positive(308);
                assert(overflow_bound() * pow10((-k) as nat) > 0) by (nonlinear_arith)
                    requires
                        overflow_bound() >= pow10(308),
                        pow10(308) >= 1,
                        pow10((-k) as nat) >= 1,
                ;
            }
        }
        return true;
    }
    let ghost sig = dd.skip(z as int);
    assert(digits_value(dd) == digits_value(sig));
    let n = total - z;
    assert(all_digits(sig));
    proof { lemma_overflow_by_exponent(sig, k); }
    let exp_signed: i128 = if neg { -(mag as i128) } else { mag as i128 };
    let e: i128 = (n as i128) - 1 + exp_signed - ((p3 - p2) as i128);
    assert(e < 308 ==> n - 1 + k < 308);
    assert(e > 308 ==> n - 1 + k > 308);
    assert(e == 308 ==> n - 1 + k == 308);
    if e < 308 {
        return true;
    }
    if e > 308 {
        return false;
    }
    // The value has the bound's decimal exponent: compare the first 309 digits.
    let r = padded_below_bound(s, p0, p1, p2, p3, z);
    assert(finite_float_text(t) == below_overflow(digits_value(sig), k));
    r
}

/// Whether the significant mantissa digits (from index `z` on), cut or padded to
/// 309 digits, write a number below the overflow bound.
fn padded_below_bound(s: &Vec<char>, p0: usize, p1: usize, p2: usize, p3: usize, z: usize) -> (r: bool)
    requires
        p0 <= p1 <= p2 <= p3 <= s.len(),
        z < (p1 - p0) + (p3 - p2),
        all_digits(s@.subrange(p0 as int, p1 as int) + s@.subrange(p2 as int, p3 as int)),
    ensures
        r == (digits_value(
            pad_trunc((s@.subrange(p0 as int, p1 as int) + s@.subrange(p2 as int, p3 as int)).skip(
                z as int,
            ), 309),
        ) < overflow_bound()),
{
    let ghost dd = s@.subrange(p0 as int, p1 as int) + s@.subrange(p2 as int, p3 as int);
    let ghost sig = dd.skip(z as int);
    let ghost pd = pad_trunc(sig, 309);
    let total = (p1 - p0) + (p3 - p2);
    let n = total - z;
    proof {
        lemma_overflow_bound_range();
        assert(all_digits(sig));
        assert(all_digits(pd));
    }
    let mut j: usize = 0;
    while j < 309
        invariant
            j <= 309,
            z < total,
            n == total - z,
            total == dd.len(),
            sig == dd.skip(z as int),
            p0 <= p1 <= p2 <= p3 <= s.len(),
            dd == s@.subrange(p0 as int, p1 as int) + s@.subrange(p2 as int, p3 as int),
            pd == pad_trunc(sig, 309),
            pd.len() == 309,
            all_digits(pd),
            all_digits(overflow_digits()),
            overflow_digits().len() == 309,
            pd.take(j as int) == overflow_digits().take(j as int),
        decreases 309 - j,
    {
        let pc = if j < n { mantissa_digit(s, p0, p1, p2, p3, z + j) } else { '0' };
        assert(pc == pd[j as int]);
        let tc = overflow_digit(j);
        if pc < tc {
            proof { lemma_digits_lex_less(pd, overflow_digits(), j as int); }
            return true;
        }
        if pc > tc {
            proof { lemma_digits_lex_less(overflow_digits(), pd, j as int); }
            return false;
        }
        assert(pd.take(j + 1) =~= overflow_digits().take(j + 1));
        j += 1;
    }
    assert(pd =~= overflow_digits().take(309));
    assert(overflow_digits().take(309) =~= overflow_digits());
    false
}

} // verus!

verus! {

/// ASCII lowercase of a character (other characters unchanged).
pub open spec fn ascii_lower(c: char) -> char {
    if 'A' <= c && c <= 'Z' {
        ((c as u32) + 32) as char
    } else {
        c
    }
}

pub open spec fn lower_seq(t: Seq<char>) -> Seq<char> {
    t.map_values(|c: char| ascii_lower(c))
}

/// `t` is `Sign? ('inf' | 'infinity' | 'nan')`, ignoring case.
pub open spec fn special_float_text(t: Seq<char>) -> bool {
    let r = lower_seq(t.subrange(mantissa_start(t), t.len() as int));
    r == seq!['i', 'n', 'f'] || r == seq!['i', 'n', 'f', 'i', 'n', 'i', 't', 'y'] || r == seq![
        'n',
        'a',
        'n',
    ]
}

/// `t` is accepted by Rust's `f64` parsing (finite or not).
pub open spec fn float_syntax(t: Seq<char>) -> bool {
    number_syntax(t) || special_float_text(t)
}

pub fn to_ascii_lower(c: char) -> (r: char)
    ensures
        r == ascii_lower(c),
{
    if 'A' <= c && c <= 'Z' {
        let v = c as u32 + 32;
        ((v as u8) as char)
    } else {
        c
    }
}

/// Whether `s[a..b]`, lowercased, equals the ASCII word `w`.
fn lower_equals(s: &Vec<char>, a: usize, b: usize, w: &Vec<char>) -> (r: bool)
    requires
        a <= b <= s.len(),
    ensures
        r == (lower_seq(s@.subrange(a as int, b as int)) == w@),
{
    let ghost t = s@.subrange(a as int, b as int);
    if b - a != w.len() {
        assert(lower_seq(t).len() != w@.len());
        return false;
    }
    let mut k: usize = 0;
    while k < w.len()
        invariant
            a <= b <= s.len(),
            b - a == w.len(),
            k <= w.len(),
            t == s@.subrange(a as int, b as int),
            forall|j: int| 0 <= j < k ==> ascii_lower(#[trigger] t[j]) == w@[j],
        decreases w.len() - k,
    {
        if to_ascii_lower(s[a + k]) != w[k] {
            assert(lower_seq(t)[k as int] != w@[k as int]);
            return false;
        }
        k += 1;
    }
    assert(lower_seq(t) =~= w@);
    true
}

/// Whether `s[a..b]` follows the grammar of `f64` numeric literals.
pub fn is_number_text(s: &Vec<char>, a: usize, b: usize) -> (r: bool)
    requires
        a <= b <= s.len(),
    ensures
        r == number_syntax(s@.subrange(a as int, b as int)),
{
    let ghost t = s@.subrange(a as int, b as int);
    let (p0, p1, p2, p3) = mantissa_layout(s, a, b);
    if (p1 - p0) + (p3 - p2) == 0 {
        return false;
    }
    if p3 < b {
        let (ok, _, _) = scan_exponent(s, p3, b);
        assert(s@.subrange(p3 as int, b as int) =~= exp_part(t));
        return ok;
    }
    true
}

/// Whether Rust's `f64` parsing accepts `s[a..b]`.
pub fn is_float_text(s: &Vec<char>, a: usize, b: usize) -> (r: bool)
    requires
        a <= b <= s.len(),
    ensures
        r == float_syntax(s@.subrange(a as int, b as int)),
{
    let ghost t = s@.subrange(a as int, b as int);
    if is_number_text(s, a, b) {
        return true;
    }
    let p0 = if a < b && (s[a] == '+' || s[a] == '-') { a + 1 } else { a };
    assert(p0 - a == mantissa_start(t));
    assert(s@.subrange(p0 as int, b as int) =~= t.subrange(mantissa_start(t), t.len() as int));
    let inf = vec!['i', 'n', 'f'];
    let infinity = vec!['i', 'n', 'f', 'i', 'n', 'i', 't', 'y'];
    let nan = vec!['n', 'a', 'n'];
    lower_equals(s, p0, b, &inf) || lower_equals(s, p0, b, &infinity) || lower_equals(
        s,
        p0,
        b,
        &nan,
    )
}

} // verus!
