//! IEEE-754 binary64 numbers held as their bit patterns: classification,
//! ordering, and the conversion of an integer to the nearest double.
use vstd::prelude::*;

verus! {

pub open spec fn p2(e: nat) -> nat
    decreases e,
{
    if e == 0 {
        1
    } else {
        2 * p2((e - 1) as nat)
    }
}

/// The position of the highest set bit of `n` (for `n >= 1`).
pub open spec fn msb(n: nat) -> nat
    decreases n,
{
    if n <= 1 {
        0
    } else {
        1 + msb(n / 2)
    }
}

pub open spec fn sign_bit() -> nat {
    0x8000_0000_0000_0000
}

pub open spec fn exponent_field(b: u64) -> nat {
    ((b as nat) / p2(52)) % 2048
}

pub open spec fn mantissa_field(b: u64) -> nat {
    (b as nat) % p2(52)
}

/// A NaN: all exponent bits set and a non-zero mantissa.
pub open spec fn f64_is_nan(b: u64) -> bool {
    exponent_field(b) == 2047 && mantissa_field(b) != 0
}

/// An infinity: all exponent bits set and a zero mantissa.
pub open spec fn f64_is_infinite(b: u64) -> bool {
    exponent_field(b) == 2047 && mantissa_field(b) == 0
}

/// The ordering key of a non-NaN double: sign-magnitude read as a signed
/// integer, so that `-0.0` and `0.0` share the key zero.
pub open spec fn f64_key(b: u64) -> int {
    if b as nat >= sign_bit() {
        -((b as nat - sign_bit()) as int)
    } else {
        b as int
    }
}

/// IEEE `a < b` (false when either is NaN).
pub open spec fn f64_lt(a: u64, b: u64) -> bool {
    !f64_is_nan(a) && !f64_is_nan(b) && f64_key(a) < f64_key(b)
}

/// IEEE `a == b` (false when either is NaN; `-0.0 == 0.0`).
pub open spec fn f64_eq(a: u64, b: u64) -> bool {
    !f64_is_nan(a) && !f64_is_nan(b) && f64_key(a) == f64_key(b)
}

/// A zero of either sign.
pub open spec fn f64_is_zero(b: u64) -> bool {
    b == 0 || b as nat == sign_bit()
}

/// std's `f64::max`: the other argument when one is NaN, else the larger;
/// of two equal values (`-0.0` and `0.0`) the first.
pub open spec fn f64_max(a: u64, b: u64) -> u64 {
    if f64_is_nan(a) {
        b
    } else if f64_is_nan(b) {
        a
    } else if f64_key(a) < f64_key(b) {
        b
    } else {
        a
    }
}

/// std's `f64::min`: the other argument when one is NaN, else the smaller;
/// of two equal values the first.
pub open spec fn f64_min(a: u64, b: u64) -> u64 {
    if f64_is_nan(a) {
        b
    } else if f64_is_nan(b) {
        a
    } else if f64_key(b) < f64_key(a) {
        b
    } else {
        a
    }
}

/// The significand (with its leading one) and the exponent of the double
/// nearest to `n` (`1 <= n`), ties going to the even significand.
pub open spec fn round_magnitude(n: nat) -> (nat, nat) {
    let p = msb(n);
    if p <= 52 {
        (n * p2((52 - p) as nat), p)
    } else {
        let sh = (p - 52) as nat;
        let q = n / p2(sh);
        let r = n % p2(sh);
        let h = p2((sh - 1) as nat);
        let q2 = if r > h || (r == h && q % 2 == 1) {
            q + 1
        } else {
            q
        };
        if q2 == p2(53) {
            (p2(52), p + 1)
        } else {
            (q2, p)
        }
    }
}

/// The bit pattern of the double nearest to the integer `i` (what `i as f64`
/// gives), for `|i| < 2^64`.
pub open spec fn f64_bits_of_int(i: int) -> u64 {
    if i == 0 {
        0
    } else {
        let n = if i < 0 {
            -i
        } else {
            i
        };
        let (m, e) = round_magnitude(n as nat);
        let s: int = if i < 0 {
            sign_bit() as int
        } else {
            0
        };
        (s + (e + 1023) * p2(52) + (m - p2(52))) as u64
    }
}

pub proof fn lemma_p2_facts(e: nat)
    ensures
        p2(e) >= 1,
        p2(e + 1) == 2 * p2(e),
    decreases e,
{
    if e > 0 {
        lemma_p2_facts((e - 1) as nat);
    }
}

pub proof fn lemma_p2_mono(a: nat, b: nat)
    requires
        a <= b,
    ensures
        p2(a) <= p2(b),
    decreases b,
{
    if a < b {
        lemma_p2_mono(a, (b - 1) as nat);
        lemma_p2_facts((b - 1) as nat);
    }
}

pub proof fn lemma_p2_add(a: nat, b: nat)
    ensures
        p2(a) * p2(b) == p2(a + b),
    decreases b,
{
    if b == 0 {
        assert(p2(0) == 1);
        assert(a + b == a);
    } else {
        lemma_p2_add(a, (b - 1) as nat);
        lemma_p2_facts((b - 1) as nat);
        lemma_p2_facts((a + b - 1) as nat);
        assert((a + b - 1) as nat + 1 == a + b);
        assert(p2(a + b) == 2 * p2((a + b - 1) as nat));
        assert(p2(a) * p2(b) == p2(a) * (2 * p2((b - 1) as nat)));
        assert(p2(a) * (2 * p2((b - 1) as nat)) == 2 * (p2(a) * p2((b - 1) as nat))) by (nonlinear_arith);
    }
}

/// `msb(n)` is the exponent of the highest power of two not above `n`.
pub proof fn lemma_msb(n: nat)
    requires
        n >= 1,
    ensures
        p2(msb(n)) <= n < p2(msb(n) + 1),
    decreases n,
{
    if n > 1 {
        lemma_msb(n / 2);
        lemma_p2_facts(msb(n / 2));
        lemma_p2_facts(msb(n / 2) + 1);
    }
}

/// The exponent of a power-of-two bracket is `msb`.
pub proof fn lemma_msb_unique(n: nat, p: nat)
    requires
        p2(p) <= n < p2(p + 1),
    ensures
        msb(n) == p,
{
    lemma_p2_facts(p);
    lemma_msb(n);
    let m = msb(n);
    if m < p {
        lemma_p2_mono(m + 1, p);
    } else if m > p {
        lemma_p2_mono(p + 1, m);
    }
}

pub proof fn lemma_p2_values()
    ensures
        p2(52) == 0x10_0000_0000_0000,
        p2(53) == 0x20_0000_0000_0000,
        p2(63) == 0x8000_0000_0000_0000,
        p2(64) == 0x1_0000_0000_0000_0000,
{
    reveal_with_fuel(p2, 65);
}

/// An integer `n` with `1 <= n < 2^53` is a double exactly: its bits are
/// the biased exponent `msb(n) + 1023` over the 52 mantissa bits of `n`
/// shifted up to 53 significant bits.
pub proof fn lemma_small_int_bits(n: nat)
    requires
        1 <= n < 0x20_0000_0000_0000,
    ensures
        msb(n) <= 52,
        p2(52) <= n * p2((52 - msb(n)) as nat) < p2(53),
        f64_bits_of_int(n as int) as int == (msb(n) + 1022) * p2(52) + n * p2((52 - msb(n)) as nat),
        !f64_is_nan(f64_bits_of_int(n as int)),
        f64_key(f64_bits_of_int(n as int)) == f64_bits_of_int(n as int) as int,
{
    lemma_p2_values();
    lemma_msb(n);
    let p = msb(n);
    if p > 52 {
        lemma_p2_mono(53, p);
    }
    let sh = (52 - p) as nat;
    lemma_p2_add(p, sh);
    lemma_p2_add(p + 1, sh);
    assert(p + sh == 52);
    assert(p + 1 + sh == 53);
    lemma_p2_facts(sh);
    assert(p2(p) * p2(sh) <= n * p2(sh)) by (nonlinear_arith)
        requires
            p2(p) <= n,
            p2(sh) >= 1,
    ;
    assert(n * p2(sh) < p2(p + 1) * p2(sh)) by (nonlinear_arith)
        requires
            n < p2(p + 1),
            p2(sh) >= 1,
    ;
    let m = n * p2(sh);
    assert(round_magnitude(n) == (m, p));
    let v: int = (p + 1023) * p2(52) + (m - p2(52));
    assert(v == (p + 1022) * p2(52) + m);
    assert(0 <= v < 0x8000_0000_0000_0000) by (nonlinear_arith)
        requires
            v == (p + 1022) * p2(52) + m,
            p <= 52,
            p2(52) == 0x10_0000_0000_0000,
            p2(52) <= m < 0x20_0000_0000_0000,
    ;
    assert(f64_bits_of_int(n as int) == v as u64);
    let b = f64_bits_of_int(n as int);
    assert(b as int == v);
    assert(exponent_field(b) == p + 1022 + 1) by (nonlinear_arith)
        requires
            b as int == (p + 1022) * p2(52) + m,
            p2(52) == 0x10_0000_0000_0000,
            p2(52) <= m < 2 * p2(52),
            p <= 52,
            exponent_field(b) == ((b as nat) / p2(52)) % 2048,
    {
        assert(b as int == (p + 1023) * p2(52) + (m - p2(52)));
        assert((b as nat) / p2(52) == p + 1023);
    }
}

/// Integers below `2^53` keep their order as doubles: the double nearest
/// to `x` is below the double nearest to `y` whenever `x < y`.
pub proof fn lemma_small_int_bits_monotone(x: nat, y: nat)
    requires
        x < y < 0x20_0000_0000_0000,
    ensures
        f64_lt(f64_bits_of_int(x as int), f64_bits_of_int(y as int)),
{
    lemma_small_int_bits(y);
    lemma_p2_values();
    let q = msb(y);
    let by = f64_bits_of_int(y as int);
    if x == 0 {
        assert(f64_bits_of_int(0) == 0);
        assert(f64_key(0) == 0);
        assert(!f64_is_nan(0)) by {
            assert(mantissa_field(0) == 0);
        }
        assert(by as int > 0) by (nonlinear_arith)
            requires
                by as int == (q + 1022) * p2(52) + y * p2((52 - q) as nat),
                p2(52) <= y * p2((52 - q) as nat),
                p2(52) == 0x10_0000_0000_0000,
                q >= 0,
        ;
    } else {
        lemma_small_int_bits(x);
        let p = msb(x);
        let bx = f64_bits_of_int(x as int);
        let mx = x * p2((52 - p) as nat);
        let my = y * p2((52 - q) as nat);
        lemma_msb(x);
        lemma_msb(y);
        if p == q {
            assert(mx < my) by (nonlinear_arith)
                requires
                    x < y,
                    mx == x * p2((52 - p) as nat),
                    my == y * p2((52 - p) as nat),
                    p2((52 - p) as nat) >= 1,
            {
            }
            lemma_p2_facts((52 - p) as nat);
        } else {
            if q < p {
                lemma_p2_mono(q + 1, p);
            }
            assert(p < q);
            assert((p + 1022) * p2(52) + mx < (q + 1022) * p2(52) + my) by (nonlinear_arith)
                requires
                    p < q,
                    mx < 2 * p2(52),
                    p2(52) <= my,
            ;
        }
    }
}

/// Whether the double with bits `b` is a NaN.
pub fn is_nan(b: u64) -> (r: bool)
    ensures
        r == f64_is_nan(b),
{
    proof {
        lemma_p2_values();
    }
    let e = (b / 0x10_0000_0000_0000) % 2048;
    let m = b % 0x10_0000_0000_0000;
    e == 2047 && m != 0
}

/// Whether the double with bits `b` is an infinity.
pub fn is_infinite(b: u64) -> (r: bool)
    ensures
        r == f64_is_infinite(b),
{
    proof {
        lemma_p2_values();
    }
    let e = (b / 0x10_0000_0000_0000) % 2048;
    let m = b % 0x10_0000_0000_0000;
    e == 2047 && m == 0
}

/// Whether the double with bits `b` is a zero of either sign.
pub fn is_zero(b: u64) -> (r: bool)
    ensures
        r == f64_is_zero(b),
{
    b == 0 || b == 0x8000_0000_0000_0000
}

/// The ordering key of `b`, as a signed 128-bit integer.
fn key(b: u64) -> (r: i128)
    ensures
        r == f64_key(b),
{
    if b >= 0x8000_0000_0000_0000 {
        -((b - 0x8000_0000_0000_0000) as i128)
    } else {
        b as i128
    }
}

/// IEEE `a < b` on bit patterns.
pub fn lt(a: u64, b: u64) -> (r: bool)
    ensures
        r == f64_lt(a, b),
{
    !is_nan(a) && !is_nan(b) && key(a) < key(b)
}

/// IEEE `a == b` on bit patterns.
pub fn eq(a: u64, b: u64) -> (r: bool)
    ensures
        r == f64_eq(a, b),
{
    !is_nan(a) && !is_nan(b) && key(a) == key(b)
}

/// `f64::max` on bit patterns.
pub fn max(a: u64, b: u64) -> (r: u64)
    ensures
        r == f64_max(a, b),
{
    if is_nan(a) {
        b
    } else if is_nan(b) {
        a
    } else if key(a) < key(b) {
        b
    } else {
        a
    }
}

/// `f64::min` on bit patterns.
pub fn min(a: u64, b: u64) -> (r: u64)
    ensures
        r == f64_min(a, b),
{
    if is_nan(a) {
        b
    } else if is_nan(b) {
        a
    } else if key(b) < key(a) {
        b
    } else {
        a
    }
}

/// The highest set bit of `n` and the matching power of two.
fn highest_bit(n: u64) -> (r: (u64, u64))
    requires
        n >= 1,
    ensures
        r.0 == msb(n as nat),
        r.1 == p2(r.0 as nat),
{
    let mut p: u64 = 0;
    let mut pw: u64 = 1;
    while pw <= n / 2
        invariant
            1 <= n,
            pw == p2(p as nat),
            1 <= pw <= n,
            p < 64,
        decreases n - pw,
    {
        proof {
            lemma_p2_facts(p as nat);
            if p >= 63 {
                lemma_p2_mono(63, p as nat);
                lemma_p2_values();
            }
        }
        pw = pw * 2;
        p = p + 1;
    }
    proof {
        lemma_p2_facts(p as nat);
        lemma_msb_unique(n as nat, p as nat);
    }
    (p, pw)
}

/// The bits of the double nearest to `n` (what `n as f64` gives).
pub fn u64_to_f64_bits(n: u64) -> (r: u64)
    ensures
        r == f64_bits_of_int(n as int),
{
    magnitude_bits(n, false)
}

/// The bits of the double nearest to `i` (what `i as f64` gives).
pub fn i64_to_f64_bits(i: i64) -> (r: u64)
    ensures
        r == f64_bits_of_int(i as int),
{
    if i < 0 {
        let n: u64 = if i == i64::MIN {
            0x8000_0000_0000_0000
        } else {
            (-i) as u64
        };
        magnitude_bits(n, true)
    } else {
        magnitude_bits(i as u64, false)
    }
}

/// The bits of `±n` rounded to a double.
fn magnitude_bits(n: u64, negative: bool) -> (r: u64)
    requires
        negative ==> 1 <= n <= 0x8000_0000_0000_0000,
    ensures
        r == f64_bits_of_int(if negative { -(n as int) } else { n as int }),
{
    if n == 0 {
        return 0;
    }
    proof {
        lemma_p2_values();
        lemma_msb(n as nat);
    }
    let (p, pw) = highest_bit(n);
    proof {
        if p > 63 {
            lemma_p2_mono(64, p as nat);
        }
    }
    let ghost rm = round_magnitude(n as nat);
    let mut m: u64;
    let mut e: u64;
    if p <= 52 {
        let mut mult: u64 = 1;
        let mut k: u64 = 0;
        proof {
            lemma_p2_facts((52 - p) as nat);
            lemma_p2_mono((52 - p) as nat, 52);
        }
        while k < 52 - p
            invariant
                p <= 52,
                k <= 52 - p,
                mult == p2(k as nat),
                mult <= p2((52 - p) as nat),
            decreases 52 - p - k,
        {
            proof {
                lemma_p2_facts(k as nat);
                lemma_p2_mono((k + 1) as nat, (52 - p) as nat);
                lemma_p2_mono((52 - p) as nat, 52);
                lemma_p2_values();
            }
            mult = mult * 2;
            k = k + 1;
        }
        proof {
            lemma_p2_add(p as nat, (52 - p) as nat);
            lemma_p2_facts(p as nat);
            lemma_p2_add((p + 1) as nat, (52 - p) as nat);
            assert((n as nat) * mult < p2((p + 1) as nat) * mult) by (nonlinear_arith)
                requires
                    (n as nat) < p2((p + 1) as nat),
                    mult >= 1,
            ;
            assert(p2((p + 1) as nat) * mult == p2(53));
        }
        m = n * mult;
        e = p;
        proof {
            assert((pw as nat) * mult <= (n as nat) * mult) by (nonlinear_arith)
                requires
                    pw <= n,
            ;
        }
    } else {
        let sh = p - 52;
        let mut d: u64 = 1;
        let mut k: u64 = 0;
        proof {
            lemma_p2_facts(sh as nat);
        }
        while k < sh
            invariant
                k <= sh,
                sh == p - 52,
                p <= 63,
                d == p2(k as nat),
                d <= p2(sh as nat),
            decreases sh - k,
        {
            proof {
                lemma_p2_facts(k as nat);
                lemma_p2_mono((k + 1) as nat, sh as nat);
                lemma_p2_mono(sh as nat, 11);
                reveal_with_fuel(p2, 12);
            }
            d = d * 2;
            k = k + 1;
        }
        let q = n / d;
        let rem = n % d;
        let h = d / 2;
        proof {
            lemma_p2_facts((sh - 1) as nat);
            assert(h == p2((sh - 1) as nat));
            lemma_p2_add(52, sh as nat);
            lemma_p2_add(53, sh as nat);
            lemma_p2_facts(p as nat);
            // 2^52 <= q < 2^53
            assert(q >= p2(52)) by (nonlinear_arith)
                requires
                    q == n / d,
                    n >= p2(52) * d,
                    d >= 1,
            ;
            assert(q < p2(53)) by (nonlinear_arith)
                requires
                    q == n / d,
                    n < p2(53) * d,
                    d >= 1,
            ;
        }
        let q2: u64 = if rem > h || (rem == h && q % 2 == 1) {
            q + 1
        } else {
            q
        };
        if q2 == 0x20_0000_0000_0000 {
            m = 0x10_0000_0000_0000;
            e = p + 1;
        } else {
            m = q2;
            e = p;
        }
    }
    proof {
        assert(rm == (m as nat, e as nat));
    }
    let frac = m - 0x10_0000_0000_0000;
    let body = (e + 1023) * 0x10_0000_0000_0000 + frac;
    if negative {
        proof {
            if p == 63 {
                // only 2^63 itself reaches the top bit, and it is exact
                assert(n as nat == p2(63));
            }
        }
        0x8000_0000_0000_0000 + body
    } else {
        body
    }
}

} // verus!
