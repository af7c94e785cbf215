//! The number with 53 binary digits that is next to a fraction, as far as its whole part
//! goes.

use vstd::prelude::*;

verus! {

/// A power of two.
pub open spec fn twos(n: int) -> int
    decreases n,
{
    if n <= 0 {
        1
    } else {
        2 * twos(n - 1)
    }
}

/// A power of ten.
pub open spec fn tens(n: int) -> int
    decreases n,
{
    if n <= 0 {
        1
    } else {
        10 * tens(n - 1)
    }
}

/// How many binary digits a whole number has.
pub open spec fn bits(n: int) -> int
    decreases n,
{
    if n <= 0 {
        0
    } else {
        1 + bits(n / 2)
    }
}

/// The whole number next to a fraction; of two that are equally near, the even one.
pub open spec fn half_even(n: int, d: int) -> int {
    let q = n / d;
    let r = n % d;
    if 2 * r > d || (2 * r == d && q % 2 == 1) {
        q + 1
    } else {
        q
    }
}

/// The whole part of the number with 53 binary digits that is next to a fraction; of two
/// that are equally near, the one whose last binary digit is zero.
pub open spec fn nearest_whole(n: int, d: int) -> int {
    let b = bits(n / d);
    if b <= 53 {
        half_even(n * twos(53 - b), d) / twos(53 - b)
    } else {
        half_even(n, d * twos(b - 53)) * twos(b - 53)
    }
}

/// Fractions from here on are next to no number with 53 binary digits and an exponent of
/// at most 1023: they count as infinite.
pub open spec fn limit() -> int {
    (twos(54) - 1) * twos(970)
}

/// Powers are positive.
pub proof fn lemma_powers(n: int)
    ensures
        twos(n) >= 1,
        tens(n) >= 1,
    decreases n,
{
    if n > 0 {
        lemma_powers(n - 1);
    }
}

/// The product of two powers of two.
pub proof fn lemma_twos_adds(a: int, b: int)
    requires
        a >= 0,
        b >= 0,
    ensures
        twos(a + b) == twos(a) * twos(b),
    decreases a,
{
    if a > 0 {
        lemma_twos_adds(a - 1, b);
        let x = twos(a - 1);
        let y = twos(b);
        assert((2 * x) * y == 2 * (x * y)) by (nonlinear_arith);
    } else {
        assert(1 * twos(b) == twos(b));
    }
}

/// The product of two powers of ten.
pub proof fn lemma_tens_adds(a: int, b: int)
    requires
        a >= 0,
        b >= 0,
    ensures
        tens(a + b) == tens(a) * tens(b),
    decreases a,
{
    if a > 0 {
        lemma_tens_adds(a - 1, b);
        let x = tens(a - 1);
        let y = tens(b);
        assert((10 * x) * y == 10 * (x * y)) by (nonlinear_arith);
    } else {
        assert(1 * tens(b) == tens(b));
    }
}

/// A number lies between the powers of two that its binary digits tell.
pub proof fn lemma_bits(n: int)
    requires
        n >= 1,
    ensures
        bits(n) >= 1,
        twos(bits(n) - 1) <= n < twos(bits(n)),
    decreases n,
{
    if n >= 2 {
        lemma_bits(n / 2);
    } else {
        assert(bits(0) == 0);
        assert(bits(1) == 1);
        assert(twos(0) == 1);
        assert(twos(1) == 2 * twos(0));
    }
}

/// More binary digits make a larger power of two.
pub proof fn lemma_twos_grow(a: int, b: int)
    requires
        a <= b,
    ensures
        twos(a) <= twos(b),
    decreases b - a,
{
    lemma_powers(a);
    if a < b {
        lemma_powers(b - 1);
        lemma_twos_grow(a, b - 1);
    }
}

/// More digits make a larger power of ten.
pub proof fn lemma_tens_grow(a: int, b: int)
    requires
        a <= b,
    ensures
        tens(a) <= tens(b),
    decreases b - a,
{
    if a < b {
        lemma_powers(b - 1);
        lemma_tens_grow(a, b - 1);
    }
}

/// A quotient and a remainder are told by what they make up.
pub proof fn lemma_division(n: int, d: int, q: int, r: int)
    requires
        d >= 1,
        0 <= r < d,
        n == q * d + r,
    ensures
        n / d == q,
        n % d == r,
{
    vstd::arithmetic::div_mod::lemma_fundamental_div_mod_converse(n, d, q, r);
}

/// Whether a number with at most 53 binary digits before the point goes up to the next
/// whole one.
pub open spec fn goes_up(i: int, f: int, d: int) -> bool {
    let s = 53 - bits(i);
    let gap = (d - f) * twos(s + 1);
    gap < d || (gap == d && (s > 0 || i % 2 == 1))
}

/// How a number with at most 53 binary digits before the point is rounded.
pub proof fn lemma_round_small(i: int, f: int, d: int)
    requires
        i >= 0,
        0 <= f < d,
        bits(i) <= 53,
    ensures
        nearest_whole(i * d + f, d) == if goes_up(i, f, d) {
            i + 1
        } else {
            i
        },
{
    let n = i * d + f;
    lemma_division(n, d, i, f);
    if i >= 1 {
        lemma_bits(i);
    }
    let s = 53 - bits(i);
    let t = twos(s);
    lemma_powers(s);
    let g = f * t;
    let c = g / d;
    let r = g % d;
    vstd::arithmetic::div_mod::lemma_fundamental_div_mod(g, d);
    assert(g == c * d + r) by (nonlinear_arith)
        requires
            g == d * c + r,
    ;
    assert(0 <= r < d) by {
        vstd::arithmetic::div_mod::lemma_mod_bound(g, d);
    }
    assert(0 <= g < t * d) by (nonlinear_arith)
        requires
            g == f * t,
            0 <= f < d,
            t >= 1,
    ;
    assert(0 <= c < t) by (nonlinear_arith)
        requires
            g == c * d + r,
            0 <= r < d,
            0 <= g < t * d,
    ;
    let q = i * t + c;
    assert(n * t == q * d + r) by (nonlinear_arith)
        requires
            n == i * d + f,
            g == f * t,
            g == c * d + r,
            q == i * t + c,
    ;
    lemma_division(n * t, d, q, r);
    let up = 2 * r > d || (2 * r == d && q % 2 == 1);
    let h = if up {
        q + 1
    } else {
        q
    };
    assert(half_even(n * t, d) == h);
    let k = if up {
        c + 1
    } else {
        c
    };
    assert(h == i * t + k);
    if k < t {
        lemma_division(h, t, i, k);
    } else {
        assert(h == (i + 1) * t + 0) by (nonlinear_arith)
            requires
                h == i * t + k,
                k == t,
        ;
        lemma_division(h, t, i + 1, 0);
    }
    assert(twos(s + 1) == 2 * t);
    let gap = (d - f) * twos(s + 1);
    assert(gap == 2 * (d * t - g)) by (nonlinear_arith)
        requires
            gap == (d - f) * (2 * t),
            g == f * t,
    ;
    if c == t - 1 {
        assert(d * t - g == d - r) by (nonlinear_arith)
            requires
                g == c * d + r,
                c == t - 1,
        ;
        if s > 0 {
            assert(t == 2 * twos(s - 1));
            let half = twos(s - 1);
            assert(q == 2 * (i * half + half - 1) + 1) by (nonlinear_arith)
                requires
                    q == i * t + c,
                    c == t - 1,
                    t == 2 * half,
            ;
            assert(q % 2 == 1);
        } else {
            assert(t == 1);
            assert(i * 1 == i);
            assert(q == i);
        }
    } else {
        assert(d * t - g > d) by (nonlinear_arith)
            requires
                g == c * d + r,
                r < d,
                c <= t - 2,
                d >= 1,
        ;
    }
}

/// Whether a number with more than 53 binary digits before the point goes up.
pub open spec fn goes_up_far(i: int, f: int) -> bool {
    let t = twos(bits(i) - 53);
    2 * (i % t) > t || (2 * (i % t) == t && (f > 0 || (i / t) % 2 == 1))
}

/// How a number with more than 53 binary digits before the point is rounded.
pub proof fn lemma_round_big(i: int, f: int, d: int)
    requires
        i >= 1,
        0 <= f < d,
        bits(i) > 53,
    ensures
        nearest_whole(i * d + f, d) == (i / twos(bits(i) - 53) + if goes_up_far(i, f) {
            1int
        } else {
            0
        }) * twos(bits(i) - 53),
{
    let n = i * d + f;
    lemma_division(n, d, i, f);
    let t = twos(bits(i) - 53);
    lemma_powers(bits(i) - 53);
    lemma_powers(bits(i) - 54);
    let u = twos(bits(i) - 54);
    assert(t == 2 * u);
    let q = i / t;
    let r = i % t;
    vstd::arithmetic::div_mod::lemma_fundamental_div_mod(i, t);
    vstd::arithmetic::div_mod::lemma_mod_bound(i, t);
    let rest = r * d + f;
    assert(n == q * (d * t) + rest) by (nonlinear_arith)
        requires
            n == i * d + f,
            i == t * q + r,
            rest == r * d + f,
    ;
    assert(0 <= rest < d * t) by (nonlinear_arith)
        requires
            rest == r * d + f,
            0 <= r < t,
            0 <= f < d,
    ;
    lemma_division(n, d * t, q, rest);
    if r > u {
        assert(2 * rest > d * t) by (nonlinear_arith)
            requires
                rest == r * d + f,
                r >= u + 1,
                t == 2 * u,
                0 <= f < d,
        ;
    } else if r == u {
        assert(2 * rest == d * t + 2 * f) by (nonlinear_arith)
            requires
                rest == r * d + f,
                r == u,
                t == 2 * u,
        ;
    } else {
        assert(2 * rest < d * t) by (nonlinear_arith)
            requires
                rest == r * d + f,
                r <= u - 1,
                t == 2 * u,
                0 <= f < d,
        ;
    }
}

/// A number that does not fit into 64 bits stays so when it is rounded.
pub proof fn lemma_round_huge(i: int, f: int, d: int)
    requires
        i >= twos(64),
        0 <= f < d,
    ensures
        nearest_whole(i * d + f, d) >= twos(64),
{
    lemma_powers(64);
    lemma_bits(i);
    let b = bits(i);
    if b <= 64 {
        lemma_twos_grow(b, 64);
    }
    let t = twos(b - 53);
    lemma_powers(b - 53);
    lemma_round_big(i, f, d);
    lemma_twos_adds(52, b - 53);
    lemma_twos_grow(64, b - 1);
    let q = i / t;
    vstd::arithmetic::div_mod::lemma_fundamental_div_mod(i, t);
    vstd::arithmetic::div_mod::lemma_mod_bound(i, t);
    let low = twos(52);
    assert(q >= low) by (nonlinear_arith)
        requires
            i == t * q + i % t,
            i % t < t,
            i >= low * t,
            t >= 1,
    ;
    assert(q * t >= low * t) by (nonlinear_arith)
        requires
            q >= low,
            t >= 1,
    ;
    assert((q + 1) * t >= q * t) by (nonlinear_arith)
        requires
            t >= 1,
    ;
}

/// Decimal digits, the last one of the number first.
pub open spec fn places(v: Seq<u8>) -> bool {
    forall|i: int| 0 <= i < v.len() ==> #[trigger] v[i] <= 9
}

/// The number that decimal digits write, the last one of the number first.
pub open spec fn count(v: Seq<u8>) -> int
    decreases v.len(),
{
    if v.len() == 0 {
        0
    } else {
        count(v.drop_last()) + v.last() * tens(v.len() - 1)
    }
}

/// A number is smaller than the power of ten that its digits tell.
pub proof fn lemma_count(v: Seq<u8>)
    requires
        places(v),
    ensures
        0 <= count(v) < tens(v.len() as int),
    decreases v.len(),
{
    if v.len() > 0 {
        let w = v.drop_last();
        assert(places(w)) by {
            assert forall|i: int| 0 <= i < w.len() implies #[trigger] w[i] <= 9 by {
                assert(w[i] == v[i]);
            }
        }
        lemma_count(w);
        let x = v.last();
        let p = tens(v.len() - 1);
        assert(v[v.len() - 1] <= 9);
        assert(0 <= x * p <= 9 * p) by (nonlinear_arith)
            requires
                0 <= x <= 9,
                p >= 0,
        ;
    }
}

/// A number counts zero only where every digit is zero.
pub proof fn lemma_count_zero(v: Seq<u8>)
    requires
        places(v),
    ensures
        count(v) == 0 <==> forall|i: int| 0 <= i < v.len() ==> #[trigger] v[i] == 0,
    decreases v.len(),
{
    if v.len() > 0 {
        let w = v.drop_last();
        assert(places(w)) by {
            assert forall|i: int| 0 <= i < w.len() implies #[trigger] w[i] <= 9 by {
                assert(w[i] == v[i]);
            }
        }
        lemma_count(w);
        lemma_count_zero(w);
        let x = v.last();
        let p = tens(v.len() - 1);
        lemma_powers(v.len() - 1);
        assert(v[v.len() - 1] == x);
        if x > 0 {
            assert(x * p >= 1) by (nonlinear_arith)
                requires
                    x >= 1,
                    p >= 1,
            ;
        } else {
            assert(0 * p == 0);
            assert forall|i: int|
                0 <= i < v.len() && (forall|j: int| 0 <= j < w.len() ==> #[trigger] w[j] == 0) implies #[trigger] v[i]
                == 0 by {
                if i < w.len() {
                    assert(w[i] == v[i]);
                }
            }
            assert forall|i: int|
                0 <= i < w.len() && (forall|j: int| 0 <= j < v.len() ==> #[trigger] v[j] == 0) implies #[trigger] w[i]
                == 0 by {
                assert(w[i] == v[i]);
            }
        }
    }
}

/// Doubles a number, and tells whether it has one digit more then.
fn double(v: &mut Vec<u8>) -> (more: bool)
    requires
        places(old(v)@),
    ensures
        places(final(v)@),
        final(v)@.len() == old(v)@.len(),
        count(final(v)@) + if more {
            tens(old(v)@.len() as int)
        } else {
            0
        } == 2 * count(old(v)@),
{
    let ghost from = v@;
    let mut carry: u8 = 0;
    let mut i: usize = 0;
    let n: usize = v.len();
    assert(from.take(0) =~= Seq::<u8>::empty());
    assert(v@.take(0) =~= Seq::<u8>::empty());
    assert(0 * tens(0) == 0);
    while i < n
        invariant
            n == v@.len(),
            n == from.len(),
            i <= n,
            carry <= 1,
            places(from),
            places(v@),
            forall|j: int| i <= j < n ==> #[trigger] v@[j] == from[j],
            count(v@.take(i as int)) + carry * tens(i as int) == 2 * count(from.take(i as int)),
        decreases n - i,
    {
        let x = v[i];
        assert(v@[i as int] == from[i as int]);
        assert(v@[i as int] <= 9);
        let y: u8 = 2 * x + carry;
        let ghost before = v@;
        let ghost was = carry;
        let (digit, next): (u8, u8) = if y >= 10 {
            (y - 10, 1)
        } else {
            (y, 0)
        };
        v.set(i, digit);
        proof {
            let a = v@.take(i + 1);
            let b = from.take(i + 1);
            assert(a.drop_last() =~= before.take(i as int));
            assert(b.drop_last() =~= from.take(i as int));
            assert(a.last() == digit);
            assert(b.last() == x);
            let p = tens(i as int);
            assert(tens(i + 1) == 10 * p);
            assert(digit * p + next * (10 * p) == 2 * (x * p) + was * p) by (nonlinear_arith)
                requires
                    digit + next * 10 == 2 * x + was,
            ;
            assert(places(v@)) by {
                assert forall|j: int| 0 <= j < v@.len() implies #[trigger] v@[j] <= 9 by {
                    if j != i {
                        assert(v@[j] == before[j]);
                    }
                }
            }
        }
        carry = next;
        i = i + 1;
    }
    assert(v@.take(n as int) =~= v@);
    assert(from.take(n as int) =~= from);
    assert(1 * tens(n as int) == tens(n as int));
    assert(0 * tens(n as int) == 0);
    carry == 1
}

/// Whether every digit is zero.
fn all_zero(v: &Vec<u8>) -> (r: bool)
    requires
        places(v@),
    ensures
        r == (count(v@) == 0),
{
    proof {
        lemma_count_zero(v@);
    }
    let mut i: usize = 0;
    while i < v.len()
        invariant
            i <= v@.len(),
            forall|j: int| 0 <= j < i ==> #[trigger] v@[j] == 0,
            count(v@) == 0 <==> forall|j: int| 0 <= j < v@.len() ==> #[trigger] v@[j] == 0,
        decreases v@.len() - i,
    {
        if v[i] != 0 {
            return false;
        }
        i = i + 1;
    }
    true
}

/// How many binary digits a number has.
fn bit_len(i: u64) -> (r: u64)
    ensures
        r == bits(i as int),
        r <= 64,
{
    let mut x: u64 = i;
    let mut r: u64 = 0;
    proof {
        lemma_word();
    }
    while x > 0
        invariant
            r + bits(x as int) == bits(i as int),
            x >= 1 ==> x < twos(64 - r),
            r <= 64,
            x == 0 || r <= 63,
        decreases x,
    {
        proof {
            lemma_room(x as int, r as int);
        }
        x = x / 2;
        r = r + 1;
    }
    r
}

/// A number of 64 bits has room for as many binary digits.
proof fn lemma_room(x: int, r: int)
    requires
        1 <= x,
        x < twos(64 - r),
        r <= 63,
    ensures
        x / 2 >= 1 ==> x / 2 < twos(64 - (r + 1)) && r + 1 <= 63,
{
    assert(twos(64 - r) == 2 * twos(63 - r));
    assert(twos(0) == 1);
}

/// The powers of two at the edges of the numbers of 64 bits.
pub proof fn lemma_word()
    ensures
        twos(11) == 2048,
        twos(54) == 0x40_0000_0000_0000,
        twos(64) == 0x1_0000_0000_0000_0000,
{
    reveal_with_fuel(twos, 17);
    assert(twos(16) == 65536);
    lemma_twos_adds(16, 16);
    lemma_twos_adds(32, 32);
    lemma_twos_adds(11, 11);
    lemma_twos_adds(22, 16);
    lemma_twos_adds(38, 16);
}

/// One step of finding out how near a fraction is to the next whole number.
proof fn lemma_step(f: int, d: int, j: int)
    requires
        0 <= f < d,
        j >= 1,
    ensures
        2 * f < d ==> (d - f) * twos(j) > d,
        2 * f >= d ==> (d - (2 * f - d)) * twos(j - 1) == (d - f) * twos(j),
{
    let t = twos(j - 1);
    lemma_powers(j - 1);
    assert(twos(j) == 2 * t);
    assert((d - (2 * f - d)) * t == (d - f) * (2 * t)) by (nonlinear_arith);
    if 2 * f < d {
        let g = d - f;
        assert(g * (2 * t) >= 2 * g) by (nonlinear_arith)
            requires
                g >= 0,
                t >= 1,
        ;
    }
}

/// Whether a number goes up to the next whole one, from its whole part, the number of its
/// binary digits, and the digits behind the point.
fn rounds_up(i: u64, b: u64, fraction: Vec<u8>) -> (r: bool)
    requires
        b == bits(i as int),
        b <= 53,
        places(fraction@),
    ensures
        r == goes_up(i as int, count(fraction@), tens(fraction@.len() as int)),
{
    let mut v = fraction;
    let ghost d = tens(v@.len() as int);
    let ghost f = count(v@);
    let s: u64 = 53 - b;
    let mut j: u64 = s + 1;
    while j > 0
        invariant
            places(v@),
            d == tens(v@.len() as int),
            j <= s + 1,
            (d - count(v@)) * twos(j as int) == (d - f) * twos(s + 1),
            s == 53 - b,
            b == bits(i as int),
            b <= 53,
            f == count(fraction@),
            d == tens(fraction@.len() as int),
        decreases j,
    {
        proof {
            lemma_count(v@);
            lemma_step(count(v@), d, j as int);
        }
        let ghost was = count(v@);
        if !double(&mut v) {
            proof {
                lemma_count(v@);
                assert(2 * was < d);
            }
            return false;
        }
        proof {
            lemma_count(v@);
            assert(count(v@) == 2 * was - d);
        }
        j = j - 1;
    }
    proof {
        lemma_count(v@);
        assert((d - count(v@)) * twos(0) == d - count(v@)) by (nonlinear_arith)
            requires
                twos(0) == 1,
        ;
    }
    !all_zero(&v) || s > 0 || i % 2 == 1
}

/// A number that is at most the largest of 64 bits.
pub open spec fn in_word(n: int) -> int {
    if n < u64::MAX {
        n
    } else {
        u64::MAX as int
    }
}

/// The whole part of the number with 53 binary digits that is next to another, from the
/// whole part of that and the digits behind the point, the last one first. It is at most
/// the largest number of 64 bits.
pub fn round(i: u64, fraction: Vec<u8>) -> (r: u64)
    requires
        places(fraction@),
    ensures
        r == in_word(
            nearest_whole(
                i * tens(fraction@.len() as int) + count(fraction@),
                tens(fraction@.len() as int),
            ),
        ),
{
    let ghost d = tens(fraction@.len() as int);
    let ghost f = count(fraction@);
    proof {
        lemma_count(fraction@);
        lemma_word();
    }
    let b = bit_len(i);
    if b <= 53 {
        proof {
            lemma_round_small(i as int, f, d);
        }
        return if rounds_up(i, b, fraction) {
            i.saturating_add(1)
        } else {
            i
        };
    }
    proof {
        lemma_round_big(i as int, f, d);
    }
    let mut t: u64 = 1;
    let mut k: u64 = 0;
    while k < b - 53
        invariant
            53 < b <= 64,
            k <= b - 53,
            t == twos(k as int),
            1 <= t <= 2048,
            k > 0 ==> t >= 2,
        decreases b - 53 - k,
    {
        proof {
            lemma_twos_grow(k + 1, 11);
            lemma_word();
        }
        t = t * 2;
        k = k + 1;
    }
    let q: u64 = i / t;
    let r: u64 = i % t;
    let some = !all_zero(&fraction);
    let up: u64 = if 2 * r > t || (2 * r == t && (some || q % 2 == 1)) {
        1
    } else {
        0
    };
    proof {
        vstd::arithmetic::div_mod::lemma_fundamental_div_mod(i as int, t as int);
        vstd::arithmetic::div_mod::lemma_mod_bound(i as int, t as int);
        assert(q * t <= i) by (nonlinear_arith)
            requires
                i == t * q + r,
                r >= 0,
        ;
        assert((q + up) * t == q * t + up * t) by (nonlinear_arith);
        assert(up * t <= t) by (nonlinear_arith)
            requires
                up <= 1,
        ;
        assert(q + up <= 0xffff_ffff_ffff_ffff) by (nonlinear_arith)
            requires
                q * t <= i,
                t >= 2,
                i <= 0xffff_ffff_ffff_ffff,
                up <= 1,
        ;
    }
    let out: u128 = (q + up) as u128 * t as u128;
    if out < u64::MAX as u128 {
        out as u64
    } else {
        u64::MAX
    }
}

/// The limit lies between two powers of ten.
pub proof fn lemma_limit()
    ensures
        tens(300) <= limit() < tens(400),
        limit() >= twos(54) - 1,
{
    lemma_thousands(100);
    lemma_eights(400);
    lemma_twos_adds(30, 970);
    lemma_twos_adds(54, 970);
    lemma_twos_grow(1024, 1200);
    lemma_word();
    lemma_twos_grow(30, 53);
    lemma_powers(53);
    lemma_powers(970);
    let p = twos(970);
    let a = twos(30);
    let b = twos(54);
    assert(b == 2 * twos(53));
    assert(a * p <= (b - 1) * p) by (nonlinear_arith)
        requires
            a <= b - 1,
            p >= 1,
    ;
    assert((b - 1) * p < b * p) by (nonlinear_arith)
        requires
            p >= 1,
    ;
    assert((b - 1) * p >= b - 1) by (nonlinear_arith)
        requires
            p >= 1,
            b >= 1,
    ;
}

/// A thousand is less than two to the tenth.
proof fn lemma_thousands(k: int)
    requires
        k >= 0,
    ensures
        tens(3 * k) <= twos(10 * k),
    decreases k,
{
    if k > 0 {
        lemma_thousands(k - 1);
        reveal_with_fuel(twos, 12);
        lemma_twos_adds(10, 10 * (k - 1));
        lemma_tens_adds(3, 3 * (k - 1));
        reveal_with_fuel(tens, 5);
        assert(twos(10) == 1024);
        assert(tens(3) == 1000);
        lemma_powers(3 * (k - 1));
    }
}

/// Eight is less than ten.
proof fn lemma_eights(k: int)
    requires
        k >= 0,
    ensures
        twos(3 * k) <= tens(k),
    decreases k,
{
    if k > 0 {
        lemma_eights(k - 1);
        lemma_twos_adds(3, 3 * (k - 1));
        reveal_with_fuel(twos, 5);
        assert(twos(3) == 8);
        lemma_powers(k - 1);
    }
}

/// Of two numbers with as many digits, the one with the smaller first digit in which they
/// differ is the smaller one.
proof fn lemma_less(a: Seq<u8>, b: Seq<u8>, i: int)
    requires
        places(a),
        places(b),
        a.len() == b.len(),
        0 <= i < a.len(),
        a[i] < b[i],
        forall|j: int| i < j < a.len() ==> #[trigger] a[j] == b[j],
    ensures
        count(a) < count(b),
    decreases a.len(),
{
    let x = a.drop_last();
    let y = b.drop_last();
    assert(places(x)) by {
        assert forall|j: int| 0 <= j < x.len() implies #[trigger] x[j] <= 9 by {
            assert(x[j] == a[j]);
        }
    }
    assert(places(y)) by {
        assert forall|j: int| 0 <= j < y.len() implies #[trigger] y[j] <= 9 by {
            assert(y[j] == b[j]);
        }
    }
    let p = tens(a.len() - 1);
    if i == a.len() - 1 {
        lemma_count(x);
        lemma_count(y);
        let u = a.last();
        let w = b.last();
        assert(u * p + p <= w * p) by (nonlinear_arith)
            requires
                u + 1 <= w,
                p >= 0,
        ;
    } else {
        assert(a[a.len() - 1] == b[a.len() - 1]);
        assert forall|j: int| i < j < x.len() implies #[trigger] x[j] == y[j] by {
            assert(a[j] == b[j]);
        }
        lemma_less(x, y, i);
    }
}

/// Whether a number is smaller than another with as many digits.
fn less(a: &Vec<u8>, b: &Vec<u8>) -> (r: bool)
    requires
        places(a@),
        places(b@),
        a@.len() == b@.len(),
    ensures
        r == (count(a@) < count(b@)),
{
    let mut i: usize = a.len();
    while i > 0
        invariant
            i <= a@.len(),
            a@.len() == b@.len(),
            places(a@),
            places(b@),
            forall|j: int| i <= j < a@.len() ==> #[trigger] a@[j] == b@[j],
        decreases i,
    {
        i = i - 1;
        if a[i] < b[i] {
            proof {
                lemma_less(a@, b@, i as int);
            }
            return true;
        }
        if a[i] > b[i] {
            proof {
                assert forall|j: int| i < j < a@.len() implies #[trigger] b@[j] == a@[j] by {
                    assert(a@[j] == b@[j]);
                }
                lemma_less(b@, a@, i as int);
            }
            return false;
        }
    }
    assert(a@ =~= b@);
    false
}

/// The digits of the limit.
fn limit_digits() -> (r: Vec<u8>)
    ensures
        places(r@),
        r@.len() == 400,
        count(r@) == limit(),
{
    let mut v: Vec<u8> = Vec::new();
    let mut x: u64 = 0x3f_ffff_ffff_ffff;
    let mut i: usize = 0;
    assert(0x3f_ffff_ffff_ffff * 1 == 0x3f_ffff_ffff_ffff);
    while i < 400
        invariant
            i <= 400,
            v@.len() == i,
            places(v@),
            count(v@) + x * tens(i as int) == 0x3f_ffff_ffff_ffff,
        decreases 400 - i,
    {
        let ghost before = v@;
        let d: u8 = (x % 10) as u8;
        let ghost was = x;
        v.push(d);
        x = x / 10;
        proof {
            assert(v@.drop_last() =~= before);
            let p = tens(i as int);
            assert(tens(i + 1) == 10 * p);
            assert(d * p + x * (10 * p) == was * p) by (nonlinear_arith)
                requires
                    was == 10 * x + d,
            ;
            assert forall|j: int| 0 <= j < v@.len() implies #[trigger] v@[j] <= 9 by {
                if j < i {
                    assert(v@[j] == before[j]);
                }
            }
        }
        i = i + 1;
    }
    proof {
        lemma_word();
        lemma_limit();
        lemma_count(v@);
        if x > 0 {
            let p = tens(400);
            assert(x * p >= p) by (nonlinear_arith)
                requires
                    x >= 1,
                    p >= 0,
            ;
        }
        assert(0 * tens(400) == 0);
    }
    let mut k: usize = 0;
    assert(twos(0) == 1);
    assert(count(v@) == (twos(54) - 1) * twos(0)) by (nonlinear_arith)
        requires
            twos(0) == 1,
            count(v@) == twos(54) - 1,
    ;
    while k < 970
        invariant
            k <= 970,
            v@.len() == 400,
            places(v@),
            count(v@) == (twos(54) - 1) * twos(k as int),
        decreases 970 - k,
    {
        let ghost was = count(v@);
        let more = double(&mut v);
        proof {
            lemma_limit();
            lemma_word();
            lemma_count(v@);
            let c = twos(54) - 1;
            let t = twos(k as int);
            assert(twos(k + 1) == 2 * t);
            assert(2 * (c * t) == c * (2 * t)) by (nonlinear_arith);
            lemma_twos_grow(k + 1, 970);
            assert(c * twos(k + 1) <= c * twos(970)) by (nonlinear_arith)
                requires
                    twos(k + 1) <= twos(970),
                    c >= 0,
            ;
            assert(!more);
        }
        k = k + 1;
    }
    v
}

/// Whether a number with 400 digits is below the limit.
pub fn below_limit(v: &Vec<u8>) -> (r: bool)
    requires
        places(v@),
        v@.len() == 400,
    ensures
        r == (count(v@) < limit()),
{
    let l = limit_digits();
    less(v, &l)
}

} // verus!
