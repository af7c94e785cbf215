//! Numbers with a fraction and an exponent, as texts write them.

use crate::nearest;
use crate::text;
use vstd::prelude::*;

verus! {

/// A number that a text writes.
#[derive(Debug, Clone, Copy, PartialEq, Eq, Structural)]
pub enum Number {
    /// Not a number.
    Nan,
    /// Infinite; negative or not.
    Infinite(bool),
    /// Negative or not, and the whole part of its size, at most the largest number
    /// of 64 bits.
    Finite(bool, u64),
}

/// The decimal digits.
pub open spec fn digits() -> spec_fn(char) -> bool {
    |c: char| text::is_digit(c, 10)
}

/// A number that is at most `max`.
pub open spec fn at_most(n: int, max: int) -> int {
    if n < max {
        n
    } else {
        max
    }
}

/// Whether a sign makes a number negative, and what stands behind the sign.
pub open spec fn signed(s: Seq<char>) -> (bool, Seq<char>) {
    if s.len() > 0 && s[0] == '-' {
        (true, s.skip(1))
    } else if s.len() > 0 && s[0] == '+' {
        (false, s.skip(1))
    } else {
        (false, s)
    }
}

/// The exponent that a text writes: nothing, or a letter and a whole number.
pub open spec fn exponent(s: Seq<char>) -> Option<int> {
    if s.len() == 0 {
        Some(0)
    } else if s[0] == 'e' || s[0] == 'E' {
        let (neg, d) = signed(s.skip(1));
        if d.len() > 0 && text::all_digits(d, 10) {
            Some(
                if neg {
                    -text::value(d, 10)
                } else {
                    text::value(d, 10)
                },
            )
        } else {
            None
        }
    } else {
        None
    }
}

/// The digits before the point, those behind it, and what follows.
pub open spec fn mantissa(s: Seq<char>) -> (Seq<char>, Seq<char>, Seq<char>) {
    let n = text::lead(s, digits());
    let rest = s.skip(n);
    if rest.len() > 0 && rest[0] == '.' {
        let r = rest.skip(1);
        let m = text::lead(r, digits());
        (s.take(n), r.take(m), r.skip(m))
    } else {
        (s.take(n), Seq::empty(), rest)
    }
}

/// A number times a power of ten, as a fraction.
pub open spec fn scaled(v: int, k: int) -> (int, int) {
    if k >= 0 {
        (v * nearest::tens(k), 1)
    } else {
        (v, nearest::tens(-k))
    }
}

/// The number of 64 bits with a fraction that is next to a fraction.
pub open spec fn rounded(neg: bool, n: int, d: int) -> Number {
    if n / d < nearest::limit() {
        Number::Finite(neg, nearest::in_word(nearest::nearest_whole(n, d)) as u64)
    } else {
        Number::Infinite(neg)
    }
}

/// The number that a text writes, rounded to one of 64 bits with a fraction: an optional
/// sign and then digits with an optional point and an optional exponent, or a word for
/// infinity or for no number in letters of either case.
pub open spec fn number_of(s: Seq<char>) -> Option<Number> {
    let (neg, b) = signed(s);
    if text::same_nocase(b, "nan"@) {
        Some(Number::Nan)
    } else if text::same_nocase(b, "inf"@) || text::same_nocase(b, "infinity"@) {
        Some(Number::Infinite(neg))
    } else {
        let (before, behind, rest) = mantissa(b);
        match exponent(rest) {
            Some(e) => if before.len() + behind.len() > 0 {
                let (n, d) = scaled(text::value(before + behind, 10), e - behind.len());
                Some(rounded(neg, n, d))
            } else {
                None
            },
            None => None,
        }
    }
}

/// The number of 64 bits next to a number: none is below zero, and no number
/// counts as zero.
pub open spec fn clamped(n: Number) -> u64 {
    match n {
        Number::Nan => 0,
        Number::Infinite(neg) => if neg {
            0
        } else {
            u64::MAX
        },
        Number::Finite(neg, w) => if neg {
            0
        } else {
            w
        },
    }
}

/// The number of 64 bits next to a number.
pub fn clamp(n: Number) -> (r: u64)
    ensures
        r == clamped(n),
{
    match n {
        Number::Nan => 0,
        Number::Infinite(neg) => if neg {
            0
        } else {
            u64::MAX
        },
        Number::Finite(neg, w) => if neg {
            0
        } else {
            w
        },
    }
}

/// The number that digits write, at most the largest of 128 bits.
fn read(cs: &[char]) -> (r: u128)
    requires
        text::all_digits(cs@, 10),
    ensures
        r == at_most(text::value(cs@, 10), u128::MAX as int),
{
    let mut acc: u128 = 0;
    let mut i: usize = 0;
    assert(cs@.take(0) =~= Seq::<char>::empty());
    while i < cs.len()
        invariant
            i <= cs@.len(),
            text::all_digits(cs@, 10),
            acc == at_most(text::value(cs@.take(i as int), 10), u128::MAX as int),
        decreases cs@.len() - i,
    {
        let c = cs[i];
        assert(text::is_digit(cs@[i as int], 10));
        let d: u128 = c as u128 - '0' as u128;
        proof {
            let now = cs@.take(i + 1);
            assert(now.drop_last() =~= cs@.take(i as int));
            assert(text::all_digits(cs@.take(i as int), 10)) by {
                assert forall|j: int| 0 <= j < i implies text::is_digit(
                    #[trigger] cs@.take(i as int)[j],
                    10,
                ) by {
                    assert(text::is_digit(cs@[j], 10));
                }
            }
            text::lemma_value_nonneg(cs@.take(i as int), 10);
        }
        if acc > (u128::MAX - d) / 10 {
            acc = u128::MAX;
        } else {
            acc = acc * 10 + d;
        }
        i = i + 1;
    }
    assert(cs@.take(i as int) =~= cs@);
    acc
}

/// How many digits a text starts with.
fn count_digits(cs: &[char]) -> (r: usize)
    ensures
        r == text::lead(cs@, digits()),
        r <= cs@.len(),
        text::all_digits(cs@.take(r as int), 10),
{
    let mut i: usize = 0;
    while i < cs.len() && text::decimal_digit(cs[i])
        invariant
            i <= cs@.len(),
            forall|j: int| 0 <= j < i ==> text::is_digit(#[trigger] cs@[j], 10),
        decreases cs@.len() - i,
    {
        i = i + 1;
    }
    proof {
        text::lemma_lead(cs@, digits(), i as int);
        assert forall|j: int| 0 <= j < i implies text::is_digit(#[trigger] cs@.take(i as int)[j], 10) by {
            assert(text::is_digit(cs@[j], 10));
        }
    }
    i
}

/// Whether a sign makes a number negative, and what stands behind the sign.
fn read_sign(cs: &[char]) -> (r: (bool, &[char]))
    ensures
        (r.0, r.1@) == signed(cs@),
{
    let n: usize = cs.len();
    if n > 0 && cs[0] == '-' {
        (true, vstd::slice::slice_subrange(cs, 1, n))
    } else if n > 0 && cs[0] == '+' {
        (false, vstd::slice::slice_subrange(cs, 1, n))
    } else {
        (false, cs)
    }
}

/// The exponent that a text writes: whether it is negative and its size, at most
/// the largest number of 128 bits.
fn read_exponent(cs: &[char]) -> (r: Option<(bool, u128)>)
    ensures
        match r {
            Some((neg, e)) => exponent(cs@) matches Some(x) && e == at_most(
                if neg {
                    -x
                } else {
                    x
                },
                u128::MAX as int,
            ) && (neg ==> x <= 0) && (!neg ==> x >= 0),
            None => exponent(cs@) is None,
        },
{
    let n: usize = cs.len();
    if n == 0 {
        return Some((false, 0));
    }
    if cs[0] != 'e' && cs[0] != 'E' {
        return None;
    }
    let (neg, d) = read_sign(vstd::slice::slice_subrange(cs, 1, n));
    assert(cs@.subrange(1, n as int) =~= cs@.skip(1));
    let m: usize = d.len();
    let k = count_digits(d);
    if m == 0 || k < m {
        proof {
            if m > 0 && text::all_digits(d@, 10) {
                text::lemma_lead_bounds(d@, digits());
                assert(!digits()(d@[k as int]));
                assert(text::is_digit(d@[k as int], 10));
            }
        }
        return None;
    }
    assert(d@.take(k as int) =~= d@);
    proof {
        text::lemma_value_nonneg(d@, 10);
    }
    Some((neg, read(d)))
}

/// The number that digits write, the first one of the number first.
pub open spec fn written(v: Seq<u8>) -> int
    decreases v.len(),
{
    if v.len() == 0 {
        0
    } else {
        written(v.drop_last()) * 10 + v.last()
    }
}

/// Digits behind others move those by as many places.
proof fn lemma_written_split(a: Seq<u8>, b: Seq<u8>)
    ensures
        written(a + b) == written(a) * nearest::tens(b.len() as int) + written(b),
    decreases b.len(),
{
    if b.len() == 0 {
        assert(a + b =~= a);
        assert(written(a) * 1 == written(a));
    } else {
        let c = b.drop_last();
        assert((a + b).drop_last() =~= a + c);
        lemma_written_split(a, c);
        let x = written(a);
        let t = nearest::tens(c.len() as int);
        assert(nearest::tens(b.len() as int) == 10 * t);
        assert((x * t) * 10 == x * (10 * t)) by (nonlinear_arith);
    }
}

/// Digits write a number that is smaller than the power of ten that they tell, and not
/// smaller than the one before it where the first digit is not zero.
proof fn lemma_written_bounds(v: Seq<u8>)
    requires
        nearest::places(v),
    ensures
        0 <= written(v) < nearest::tens(v.len() as int),
        v.len() > 0 && v[0] > 0 ==> written(v) >= nearest::tens(v.len() - 1),
    decreases v.len(),
{
    if v.len() > 0 {
        let w = v.drop_last();
        assert(nearest::places(w)) by {
            assert forall|i: int| 0 <= i < w.len() implies #[trigger] w[i] <= 9 by {
                assert(w[i] == v[i]);
            }
        }
        lemma_written_bounds(w);
        assert(v[v.len() - 1] <= 9);
        if w.len() > 0 {
            assert(w[0] == v[0]);
        }
    }
}

/// Zeros write nothing.
proof fn lemma_written_zeros(v: Seq<u8>)
    requires
        forall|i: int| 0 <= i < v.len() ==> #[trigger] v[i] == 0,
    ensures
        written(v) == 0,
    decreases v.len(),
{
    if v.len() > 0 {
        let w = v.drop_last();
        assert forall|i: int| 0 <= i < w.len() implies #[trigger] w[i] == 0 by {
            assert(w[i] == v[i]);
        }
        lemma_written_zeros(w);
        assert(v[v.len() - 1] == 0);
    }
}

/// Appends the digits of a text.
fn push_digits(out: &mut Vec<u8>, cs: &[char])
    requires
        text::all_digits(cs@, 10),
        nearest::places(old(out)@),
    ensures
        nearest::places(final(out)@),
        final(out)@.len() == old(out)@.len() + cs@.len(),
        forall|i: int| 0 <= i < old(out)@.len() ==> #[trigger] final(out)@[i] == old(out)@[i],
        forall|i: int|
            0 <= i < cs@.len() ==> #[trigger] final(out)@[old(out)@.len() + i] == text::digit(cs@[i]),
{
    let ghost from = out@;
    let mut i: usize = 0;
    while i < cs.len()
        invariant
            i <= cs@.len(),
            text::all_digits(cs@, 10),
            nearest::places(out@),
            out@.len() == from.len() + i,
            forall|j: int| 0 <= j < from.len() ==> #[trigger] out@[j] == from[j],
            forall|j: int|
                0 <= j < i ==> #[trigger] out@[from.len() + j] == text::digit(cs@[j]),
        decreases cs@.len() - i,
    {
        assert(text::is_digit(cs@[i as int], 10));
        let d: u8 = (cs[i] as u32 - '0' as u32) as u8;
        let ghost before = out@;
        out.push(d);
        proof {
            assert forall|j: int| 0 <= j < out@.len() implies #[trigger] out@[j] <= 9 by {
                if j < before.len() {
                    assert(out@[j] == before[j]);
                }
            }
            assert forall|j: int| 0 <= j < i + 1 implies #[trigger] out@[from.len() + j]
                == text::digit(cs@[j]) by {
                if j < i {
                    assert(out@[from.len() + j] == before[from.len() + j]);
                }
            }
            assert forall|j: int| 0 <= j < from.len() implies #[trigger] out@[j] == from[j] by {
                assert(out@[j] == before[j]);
            }
        }
        i = i + 1;
    }
}

/// The digits of a text write the number that the text writes.
proof fn lemma_written_text(v: Seq<u8>, s: Seq<char>)
    requires
        v.len() == s.len(),
        forall|i: int| 0 <= i < v.len() ==> #[trigger] v[i] == text::digit(s[i]),
    ensures
        written(v) == text::value(s, 10),
    decreases v.len(),
{
    if v.len() > 0 {
        let w = v.drop_last();
        let t = s.drop_last();
        assert forall|i: int| 0 <= i < w.len() implies #[trigger] w[i] == text::digit(t[i]) by {
            assert(w[i] == v[i]);
        }
        lemma_written_text(w, t);
        assert(v[v.len() - 1] == text::digit(s[v.len() - 1]));
    }
}

/// Digits the other way round write the same number.
proof fn lemma_turned(v: Seq<u8>, r: Seq<u8>)
    requires
        v.len() == r.len(),
        forall|i: int| 0 <= i < v.len() ==> #[trigger] r[i] == v[v.len() - 1 - i],
    ensures
        nearest::count(r) == written(v),
    decreases v.len(),
{
    if v.len() > 0 {
        let first = seq![v[0]];
        let rest = v.skip(1);
        let less = r.drop_last();
        assert(v =~= first + rest);
        lemma_written_split(first, rest);
        assert(first.drop_last() =~= Seq::<u8>::empty());
        assert(written(first.drop_last()) == 0);
        assert(written(first) == v[0]);
        assert forall|i: int| 0 <= i < rest.len() implies #[trigger] less[i] == rest[rest.len() - 1 - i] by {
            assert(less[i] == r[i]);
        }
        lemma_turned(rest, less);
        assert(r[v.len() - 1] == v[0]);
    }
}

/// Some digits of a number, the last one first.
fn turned(v: &Vec<u8>, from: usize, to: usize) -> (r: Vec<u8>)
    requires
        from <= to <= v@.len(),
        nearest::places(v@),
    ensures
        nearest::places(r@),
        r@.len() == to - from,
        nearest::count(r@) == written(v@.subrange(from as int, to as int)),
{
    let mut out: Vec<u8> = Vec::new();
    let mut i: usize = to;
    while i > from
        invariant
            from <= i <= to <= v@.len(),
            nearest::places(v@),
            nearest::places(out@),
            out@.len() == to - i,
            forall|j: int| 0 <= j < to - i ==> #[trigger] out@[j] == v@[to - 1 - j],
        decreases i,
    {
        i = i - 1;
        let ghost before = out@;
        let d = v[i];
        assert(v@[i as int] <= 9);
        out.push(d);
        proof {
            assert forall|j: int| 0 <= j < out@.len() implies #[trigger] out@[j] <= 9 by {
                if j < before.len() {
                    assert(out@[j] == before[j]);
                }
            }
            assert forall|j: int| 0 <= j < to - i implies #[trigger] out@[j] == v@[to - 1 - j] by {
                if j < before.len() {
                    assert(out@[j] == before[j]);
                }
            }
        }
    }
    proof {
        let part = v@.subrange(from as int, to as int);
        assert forall|j: int| 0 <= j < part.len() implies #[trigger] out@[j] == part[part.len() - 1 - j] by {
            assert(out@[j] == v@[to - 1 - j]);
        }
        lemma_turned(part, out@);
    }
    out
}

/// Zeros in front of a number do not change it.
proof fn lemma_count_padded(v: Seq<u8>, z: Seq<u8>)
    requires
        v.len() <= z.len(),
        forall|i: int| 0 <= i < v.len() ==> #[trigger] z[i] == v[i],
        forall|i: int| v.len() <= i < z.len() ==> #[trigger] z[i] == 0,
    ensures
        nearest::count(z) == nearest::count(v),
    decreases z.len(),
{
    if z.len() == v.len() {
        assert(z =~= v);
    } else {
        let y = z.drop_last();
        assert forall|i: int| 0 <= i < v.len() implies #[trigger] y[i] == v[i] by {
            assert(z[i] == v[i]);
        }
        assert forall|i: int| v.len() <= i < y.len() implies #[trigger] y[i] == 0 by {
            assert(z[i] == 0);
        }
        lemma_count_padded(v, y);
        assert(z[z.len() - 1] == 0);
        assert(0 * nearest::tens(z.len() - 1) == 0);
    }
}

/// Zeros behind a number multiply it by a power of ten.
proof fn lemma_count_shifted(v: Seq<u8>, z: Seq<u8>, k: int)
    requires
        k >= 0,
        z.len() == v.len() + k,
        forall|i: int| 0 <= i < k ==> #[trigger] z[i] == 0,
        forall|i: int| 0 <= i < v.len() ==> #[trigger] z[k + i] == v[i],
    ensures
        nearest::count(z) == nearest::count(v) * nearest::tens(k),
    decreases v.len(),
{
    if v.len() == 0 {
        lemma_count_padded(Seq::empty(), z);
        assert(0 * nearest::tens(k) == 0);
    } else {
        let y = z.drop_last();
        let w = v.drop_last();
        assert forall|i: int| 0 <= i < k implies #[trigger] y[i] == 0 by {
            assert(z[i] == 0);
        }
        assert forall|i: int| 0 <= i < w.len() implies #[trigger] y[k + i] == w[i] by {
            assert(z[k + i] == v[i]);
        }
        lemma_count_shifted(w, y, k);
        assert(z[k + (v.len() - 1)] == v[v.len() - 1]);
        nearest::lemma_tens_adds(k, v.len() - 1);
        let x = v.last();
        let c = nearest::count(w);
        let p = nearest::tens(v.len() - 1);
        let q = nearest::tens(k);
        assert(c * q + x * (q * p) == (c + x * p) * q) by (nonlinear_arith);
    }
}

/// The whole part and the digits behind the point of a number: `v` without zeros at its
/// start, with the point behind its first `w` digits.
pub open spec fn parts(v: Seq<u8>, w: int) -> (int, int, int) {
    if w >= v.len() {
        (written(v) * nearest::tens(w - v.len()), 0, 1)
    } else {
        (written(v.take(w)), written(v.skip(w)), nearest::tens(v.len() - w))
    }
}

/// A number is made up of its whole part and the digits behind the point.
proof fn lemma_parts(v: Seq<u8>, w: int)
    requires
        nearest::places(v),
        w >= 0,
    ensures
        ({
            let (i, f, d) = parts(v, w);
            &&& i >= 0
            &&& 0 <= f < d
            &&& scaled(written(v), w - v.len()) == (i * d + f, d)
            &&& i < nearest::tens(w)
            &&& v.len() > 0 && v[0] > 0 && w > 0 ==> i >= nearest::tens(w - 1)
        }),
{
    lemma_written_bounds(v);
    if w >= v.len() {
        let t = nearest::tens(w - v.len());
        nearest::lemma_powers(w - v.len());
        nearest::lemma_tens_adds(v.len() as int, w - v.len());
        let x = written(v);
        assert((x * t) * 1 + 0 == x * t);
        let p = nearest::tens(v.len() as int);
        assert(0 <= x * t < p * t) by (nonlinear_arith)
            requires
                0 <= x < p,
                t >= 1,
        ;
        if v.len() > 0 && v[0] > 0 {
            nearest::lemma_tens_adds(v.len() - 1, w - v.len());
            let q = nearest::tens(v.len() - 1);
            assert(x * t >= q * t) by (nonlinear_arith)
                requires
                    x >= q,
                    t >= 1,
            ;
        }
    } else {
        let a = v.take(w);
        let b = v.skip(w);
        assert(nearest::places(a)) by {
            assert forall|i: int| 0 <= i < a.len() implies #[trigger] a[i] <= 9 by {
                assert(a[i] == v[i]);
            }
        }
        assert(nearest::places(b)) by {
            assert forall|i: int| 0 <= i < b.len() implies #[trigger] b[i] <= 9 by {
                assert(b[i] == v[w + i]);
            }
        }
        assert(v =~= a + b);
        lemma_written_split(a, b);
        lemma_written_bounds(a);
        lemma_written_bounds(b);
        if w > 0 {
            assert(a[0] == v[0]);
        }
    }
}

/// Whether the whole part of a number is below the limit: `v` without zeros at its start,
/// with the point behind its first `w` digits.
fn below(v: &Vec<u8>, w: usize) -> (r: bool)
    requires
        nearest::places(v@),
        v@.len() > 0,
        v@[0] > 0,
        w <= 400,
    ensures
        r == (parts(v@, w as int).0 < nearest::limit()),
{
    proof {
        lemma_parts(v@, w as int);
        nearest::lemma_limit();
    }
    if w <= 300 {
        proof {
            nearest::lemma_tens_grow(w as int, 300);
        }
        return true;
    }
    let m: usize = v.len();
    let used: usize = if w < m {
        w
    } else {
        m
    };
    let head = turned(v, 0, used);
    let zeros: usize = w - used;
    let mut all: Vec<u8> = Vec::new();
    let mut i: usize = 0;
    while i < zeros
        invariant
            i <= zeros,
            all@.len() == i,
            forall|j: int| 0 <= j < i ==> #[trigger] all@[j] == 0,
        decreases zeros - i,
    {
        all.push(0);
        i = i + 1;
    }
    let mut k: usize = 0;
    while k < used
        invariant
            k <= used,
            used == head@.len(),
            all@.len() == zeros + k,
            forall|j: int| 0 <= j < zeros ==> #[trigger] all@[j] == 0,
            forall|j: int| 0 <= j < k ==> #[trigger] all@[zeros + j] == head@[j],
            zeros + used <= 400,
        decreases used - k,
    {
        let ghost before = all@;
        all.push(head[k]);
        proof {
            assert forall|j: int| 0 <= j < zeros implies #[trigger] all@[j] == 0 by {
                assert(all@[j] == before[j]);
            }
            assert forall|j: int| 0 <= j < k + 1 implies #[trigger] all@[zeros + j] == head@[j] by {
                if j < k {
                    assert(all@[zeros + j] == before[zeros + j]);
                }
            }
        }
        k = k + 1;
    }
    let ghost whole = all@;
    proof {
        lemma_count_shifted(head@, whole, zeros as int);
        assert(v@.subrange(0, used as int) =~= v@.take(used as int));
        if w >= m {
            assert(v@.take(used as int) =~= v@);
        } else {
            assert(written(v@.take(w as int)) * nearest::tens(0) == written(v@.take(w as int)));
        }
        assert(nearest::count(whole) == parts(v@, w as int).0);
    }
    while all.len() < 400
        invariant
            w == whole.len(),
            w <= all@.len() <= 400,
            forall|j: int| 0 <= j < w ==> #[trigger] all@[j] == whole[j],
            forall|j: int| w <= j < all@.len() ==> #[trigger] all@[j] == 0,
        decreases 400 - all@.len(),
    {
        let ghost before = all@;
        all.push(0);
        proof {
            assert forall|j: int| 0 <= j < w implies #[trigger] all@[j] == whole[j] by {
                assert(all@[j] == before[j]);
            }
            assert forall|j: int| w <= j < all@.len() implies #[trigger] all@[j] == 0 by {
                if j < before.len() {
                    assert(all@[j] == before[j]);
                }
            }
        }
    }
    proof {
        lemma_count_padded(whole, all@);
        assert forall|j: int| 0 <= j < all@.len() implies #[trigger] all@[j] <= 9 by {
            if j < w {
                assert(all@[j] == whole[j]);
                if j >= zeros {
                    assert(whole[zeros + (j - zeros)] == head@[j - zeros]);
                    assert(head@[j - zeros] <= 9);
                } else {
                    assert(whole[j] == 0);
                }
            }
        }
    }
    nearest::below_limit(&all)
}

/// The number that the first digits of a number write.
fn read_places(v: &Vec<u8>, n: usize) -> (r: u128)
    requires
        nearest::places(v@),
        n <= v@.len(),
        n <= 20,
    ensures
        r == written(v@.take(n as int)),
{
    let mut acc: u128 = 0;
    let mut i: usize = 0;
    assert(v@.take(0) =~= Seq::<u8>::empty());
    proof {
        lemma_big();
    }
    while i < n
        invariant
            i <= n <= 20,
            n <= v@.len(),
            nearest::places(v@),
            acc == written(v@.take(i as int)),
            nearest::tens(20) == 100_000_000_000_000_000_000,
        decreases n - i,
    {
        let ghost now = v@.take(i + 1);
        proof {
            assert(now.drop_last() =~= v@.take(i as int));
            assert(nearest::places(now)) by {
                assert forall|j: int| 0 <= j < now.len() implies #[trigger] now[j] <= 9 by {
                    assert(now[j] == v@[j]);
                }
            }
            lemma_written_bounds(now);
            nearest::lemma_tens_grow(i + 1, 20);
        }
        acc = acc * 10 + v[i] as u128;
        i = i + 1;
    }
    acc
}

/// The powers of ten next to the largest number of 64 bits.
proof fn lemma_big()
    ensures
        nearest::tens(20) == 100_000_000_000_000_000_000,
        nearest::twos(64) == 0x1_0000_0000_0000_0000,
{
    nearest::lemma_word();
    reveal_with_fuel(nearest::tens, 21);
}

/// A fraction is at least as large as a whole number exactly where its whole part is.
proof fn lemma_whole(i: int, f: int, d: int)
    requires
        0 <= f < d,
    ensures
        (i * d + f) / d == i,
{
    nearest::lemma_division(i * d + f, d, i, f);
}

/// The number of 64 bits with a fraction that is next to a number: `v` without zeros at
/// its start, with the point behind its first `w` digits.
fn round_digits(neg: bool, v: &Vec<u8>, w: usize) -> (r: Number)
    requires
        nearest::places(v@),
        v@.len() > 0,
        v@[0] > 0,
        w <= 400,
    ensures
        ({
            let (n, d) = scaled(written(v@), w - v@.len());
            r == rounded(neg, n, d)
        }),
{
    let ghost (i, f, d) = parts(v@, w as int);
    proof {
        lemma_parts(v@, w as int);
        lemma_whole(i, f, d);
        lemma_big();
    }
    if !below(v, w) {
        return Number::Infinite(neg);
    }
    if w > 20 {
        proof {
            nearest::lemma_tens_grow(20, w - 1);
            nearest::lemma_round_huge(i, f, d);
        }
        return Number::Finite(neg, u64::MAX);
    }
    let m: usize = v.len();
    let used: usize = if w < m {
        w
    } else {
        m
    };
    let mut acc: u128 = read_places(v, used);
    let mut k: usize = used;
    proof {
        if w >= m {
            assert(v@.take(used as int) =~= v@);
            assert(written(v@) * nearest::tens(0) == written(v@));
        }
        lemma_parts(v@, used as int);
    }
    while k < w
        invariant
            used <= k <= w <= 20,
            nearest::places(v@),
            v@.len() > 0,
            v@[0] > 0,
            used == v@.len() || k == w,
            acc == parts(v@, k as int).0,
            nearest::tens(20) == 100_000_000_000_000_000_000,
        decreases w - k,
    {
        proof {
            lemma_parts(v@, k + 1);
            nearest::lemma_tens_grow(k + 1, 20);
            let x = written(v@);
            let t = nearest::tens(k - v@.len());
            assert(nearest::tens(k + 1 - v@.len()) == 10 * t);
            assert(x * (10 * t) == (x * t) * 10) by (nonlinear_arith);
        }
        acc = acc * 10;
        k = k + 1;
    }
    if acc > u64::MAX as u128 {
        proof {
            nearest::lemma_round_huge(i, f, d);
        }
        return Number::Finite(neg, u64::MAX);
    }
    let fraction = turned(v, used, m);
    proof {
        if w >= m {
            assert(v@.subrange(used as int, m as int) =~= Seq::<u8>::empty());
            assert(written(v@.subrange(used as int, m as int)) == 0);
        } else {
            assert(v@.subrange(used as int, m as int) =~= v@.skip(w as int));
        }
    }
    Number::Finite(neg, nearest::round(acc as u64, fraction))
}

/// A number that starts behind the first place behind the point rounds to zero.
proof fn lemma_tiny(v: int, m: int, k: int)
    requires
        0 <= v < nearest::tens(m),
        m >= 0,
        k > m,
    ensures
        v / nearest::tens(k) == 0,
        nearest::nearest_whole(v, nearest::tens(k)) == 0,
        nearest::limit() > 0,
{
    let d = nearest::tens(k);
    nearest::lemma_tens_grow(m, k - 1);
    nearest::lemma_powers(k - 1);
    nearest::lemma_powers(300);
    nearest::lemma_limit();
    assert(d == 10 * nearest::tens(k - 1));
    assert(0 * d + v == v);
    nearest::lemma_division(v, d, 0, v);
    nearest::lemma_round_small(0, v, d);
    let t = nearest::twos(54);
    nearest::lemma_word();
    let g = d - v;
    assert(g * t >= 2 * g) by (nonlinear_arith)
        requires
            g >= 0,
            t >= 2,
    ;
}

/// A number of which every digit is zero rounds to zero.
proof fn lemma_nothing(k: int)
    ensures
        ({
            let (n, d) = scaled(0, k);
            &&& n == 0
            &&& n / d == 0
            &&& nearest::nearest_whole(n, d) == 0
            &&& nearest::limit() > 0
        }),
{
    let (n, d) = scaled(0, k);
    nearest::lemma_powers(k);
    nearest::lemma_powers(-k);
    nearest::lemma_powers(300);
    nearest::lemma_limit();
    assert(0 * nearest::tens(k) == 0);
    assert(0 * d + 0 == 0);
    nearest::lemma_division(0, d, 0, 0);
    nearest::lemma_round_small(0, 0, d);
    let t = nearest::twos(54);
    nearest::lemma_word();
    assert(d * t >= 2 * d) by (nonlinear_arith)
        requires
            d >= 1,
            t >= 2,
    ;
}

/// A number with more than 400 digits before the point is infinite.
proof fn lemma_endless(v: Seq<u8>, k: int)
    requires
        nearest::places(v),
        v.len() > 0,
        v[0] > 0,
        k + v.len() > 400,
    ensures
        ({
            let (n, d) = scaled(written(v), k);
            n / d >= nearest::limit()
        }),
{
    let w = k + v.len();
    lemma_parts(v, w);
    let (i, f, d) = parts(v, w);
    lemma_whole(i, f, d);
    nearest::lemma_tens_grow(400, w - 1);
    nearest::lemma_limit();
}

/// The number of 64 bits with a fraction that is next to the number that digits and an
/// exponent write.
fn round_text(neg: bool, before: &[char], behind: &[char], eneg: bool, e: u128, x: Ghost<int>) -> (r:
    Number)
    requires
        text::all_digits(before@, 10),
        text::all_digits(behind@, 10),
        eneg ==> x@ <= 0 && e == at_most(-x@, u128::MAX as int),
        !eneg ==> x@ >= 0 && e == at_most(x@, u128::MAX as int),
    ensures
        ({
            let (n, d) = scaled(text::value(before@ + behind@, 10), x@ - behind@.len());
            r == rounded(neg, n, d)
        }),
{
    let mut ds: Vec<u8> = Vec::new();
    push_digits(&mut ds, before);
    let ghost one = ds@;
    push_digits(&mut ds, behind);
    proof {
        let all = before@ + behind@;
        assert forall|i: int| 0 <= i < ds@.len() implies #[trigger] ds@[i] == text::digit(all[i]) by {
            if i < before@.len() {
                assert(ds@[i] == one[i]);
                assert(one[0 + i] == text::digit(before@[i]));
            } else {
                let j = i - before@.len();
                assert(ds@[one.len() + j] == text::digit(behind@[j]));
            }
        }
        lemma_written_text(ds@, all);
    }
    let a: usize = before.len();
    let b: usize = behind.len();
    let l: usize = ds.len();
    let mut z: usize = 0;
    while z < l && ds[z] == 0
        invariant
            z <= l,
            l == ds@.len(),
            forall|i: int| 0 <= i < z ==> #[trigger] ds@[i] == 0,
        decreases l - z,
    {
        z = z + 1;
    }
    let ghost k = x@ - b;
    if z == l {
        proof {
            lemma_written_zeros(ds@);
            lemma_nothing(k);
        }
        return Number::Finite(neg, 0);
    }
    let mut v: Vec<u8> = Vec::new();
    let mut i: usize = z;
    while i < l
        invariant
            z <= i <= l,
            l == ds@.len(),
            nearest::places(ds@),
            v@ == ds@.subrange(z as int, i as int),
        decreases l - i,
    {
        v.push(ds[i]);
        assert(v@ =~= ds@.subrange(z as int, i + 1));
        i = i + 1;
    }
    let m: usize = v.len();
    proof {
        assert(nearest::places(v@)) by {
            assert forall|j: int| 0 <= j < v@.len() implies #[trigger] v@[j] <= 9 by {
                assert(v@[j] == ds@[z + j]);
            }
        }
        assert(v@[0] == ds@[z as int]);
        let head = ds@.take(z as int);
        assert forall|j: int| 0 <= j < head.len() implies #[trigger] head[j] == 0 by {
            assert(head[j] == ds@[j]);
        }
        lemma_written_zeros(head);
        assert(ds@ =~= head + v@);
        lemma_written_split(head, v@);
        assert(0 * nearest::tens(m as int) == 0);
        lemma_written_bounds(v@);
    }
    let far: u128 = if e < 0x1_0000_0000_0000_0000_0000 {
        e
    } else {
        0x1_0000_0000_0000_0000_0000
    };
    let w: i128 = if eneg {
        a as i128 - z as i128 - far as i128
    } else {
        a as i128 - z as i128 + far as i128
    };
    if w < 0 {
        proof {
            assert(k + m < 0);
            lemma_tiny(written(v@), m as int, -k);
        }
        return Number::Finite(neg, 0);
    }
    if w > 400 {
        proof {
            assert(k + m > 400);
            lemma_endless(v@, k);
        }
        return Number::Infinite(neg);
    }
    assert(w == k + m);
    round_digits(neg, &v, w as usize)
}

/// The number that a text writes.
pub fn parse(cs: &[char]) -> (r: Option<Number>)
    ensures
        r == number_of(cs@),
{
    let (neg, b) = read_sign(cs);
    if text::eq_nocase(b, "nan") {
        return Some(Number::Nan);
    }
    if text::eq_nocase(b, "inf") || text::eq_nocase(b, "infinity") {
        return Some(Number::Infinite(neg));
    }
    let n: usize = b.len();
    let k = count_digits(b);
    let before = vstd::slice::slice_subrange(b, 0, k);
    let rest = vstd::slice::slice_subrange(b, k, n);
    assert(before@ =~= b@.take(k as int));
    assert(rest@ =~= b@.skip(k as int));
    let m: usize = rest.len();
    let (behind, tail) = if m > 0 && rest[0] == '.' {
        let r = vstd::slice::slice_subrange(rest, 1, m);
        assert(r@ =~= rest@.skip(1));
        let j = count_digits(r);
        let (x, y) = (
            vstd::slice::slice_subrange(r, 0, j),
            vstd::slice::slice_subrange(r, j, r.len()),
        );
        assert(x@ =~= r@.take(j as int));
        assert(y@ =~= r@.skip(j as int));
        (x, y)
    } else {
        let x = vstd::slice::slice_subrange(rest, 0, 0);
        assert(x@ =~= Seq::<char>::empty());
        (x, rest)
    };
    assert((before@, behind@, tail@) == mantissa(b@));
    match read_exponent(tail) {
        Some((eneg, e)) => {
            if before.len() == 0 && behind.len() == 0 {
                return None;
            }
            let ghost x = exponent(tail@)->0;
            Some(round_text(neg, before, behind, eneg, e, Ghost(x)))
        },
        None => None,
    }
}

/// A number that takes no more room than a word of 53 bits is not changed by rounding, and
/// it lies below the bound of what is finite.
proof fn lemma_small_is_exact(neg: bool, n: int)
    requires
        0 <= n < 0x20_0000_0000_0000,
    ensures
        rounded(neg, n, 1) == Number::Finite(neg, n as u64),
        n / 1 < nearest::limit(),
{
    lemma_twos_53();
    nearest::lemma_powers(970);
    let a = nearest::twos(54) - 1;
    let b = nearest::twos(970);
    assert(a * b >= a) by (nonlinear_arith)
        requires
            a >= 1,
            b >= 1,
    ;
    if n >= 1 {
        nearest::lemma_bits(n);
        if nearest::bits(n) > 53 {
            nearest::lemma_twos_grow(53, nearest::bits(n) - 1);
        }
    }
    nearest::lemma_round_small(n, 0, 1);
    let s = 53 - nearest::bits(n);
    nearest::lemma_powers(s + 1);
    assert(nearest::twos(s + 1) == 2 * nearest::twos(s));
    nearest::lemma_powers(s);
    assert((1 - 0) * nearest::twos(s + 1) >= 2);
    assert(!nearest::goes_up(n, 0, 1));
    assert(n * 1 + 0 == n);
    assert(nearest::nearest_whole(n, 1) == n);
    assert(n / 1 == n);
}

/// Two powers of two.
proof fn lemma_twos_53()
    ensures
        nearest::twos(53) == 0x20_0000_0000_0000,
        nearest::twos(54) == 0x40_0000_0000_0000,
{
    assert(nearest::twos(18) == 0x4_0000) by {
        reveal_with_fuel(nearest::twos, 19);
    }
    nearest::lemma_twos_adds(18, 18);
    nearest::lemma_twos_adds(36, 18);
    assert(nearest::twos(54) == 2 * nearest::twos(53));
}

/// A text that starts with a digit is no word for a number.
proof fn lemma_no_word(s: Seq<char>)
    requires
        s.len() > 0,
        text::is_digit(s[0], 10),
    ensures
        signed(s) == (false, s),
        !text::same_nocase(s, "nan"@),
        !text::same_nocase(s, "inf"@),
        !text::same_nocase(s, "infinity"@),
{
    reveal_strlit("nan");
    reveal_strlit("inf");
    reveal_strlit("infinity");
    assert(text::lowered(s)[0] == text::lower(s[0]));
    assert(text::lowered("nan"@)[0] == 'n');
    assert(text::lowered("inf"@)[0] == 'i');
    assert(text::lowered("infinity"@)[0] == 'i');
}

/// What a text of digits with something behind it is taken apart into.
proof fn lemma_digits_apart(d: Seq<char>, rest: Seq<char>)
    requires
        d.len() > 0,
        text::all_digits(d, 10),
        rest.len() > 0 ==> !text::is_digit(rest[0], 10),
        rest.len() > 0 ==> rest[0] != '.',
    ensures
        mantissa(d + rest) == (d, Seq::<char>::empty(), rest),
{
    text::lemma_lead_digits(d, rest, 10, digits());
    assert((d + rest).take(d.len() as int) =~= d);
    assert((d + rest).skip(d.len() as int) =~= rest);
}

/// A whole number is read as itself, with a sign where it has one.
pub proof fn law_whole_numbers_are_read(n: int)
    requires
        0 <= n < 0x20_0000_0000_0000,
    ensures
        number_of(text::decimal(n)) == Some(Number::Finite(false, n as u64)),
        number_of(seq!['+'] + text::decimal(n)) == Some(Number::Finite(false, n as u64)),
        number_of(seq!['-'] + text::decimal(n)) == Some(Number::Finite(true, n as u64)),
        clamped(Number::Finite(false, n as u64)) == n,
        clamped(Number::Finite(true, n as u64)) == 0,
{
    let d = text::decimal(n);
    let e = Seq::<char>::empty();
    text::lemma_written(n, 10);
    lemma_no_word(d);
    lemma_digits_apart(d, e);
    assert(d + e =~= d);
    assert((seq!['+'] + d).skip(1) =~= d);
    assert((seq!['-'] + d).skip(1) =~= d);
    lemma_small_is_exact(false, n);
    lemma_small_is_exact(true, n);
    assert(nearest::tens(0) == 1);
    assert(n * nearest::tens(0) == n);
}

/// A number with an exponent is its digits times that power of ten.
pub proof fn law_exponents_are_read(n: int, k: int)
    requires
        0 <= n,
        0 <= k,
        n * nearest::tens(k) < 0x20_0000_0000_0000,
    ensures
        number_of(text::decimal(n) + (seq!['e'] + text::decimal(k))) == Some(
            Number::Finite(false, (n * nearest::tens(k)) as u64),
        ),
        number_of(text::decimal(n) + (seq!['e', '+'] + text::decimal(k))) == Some(
            Number::Finite(false, (n * nearest::tens(k)) as u64),
        ),
        number_of(text::decimal(n) + (seq!['e', '-'] + text::decimal(k))) == Some(
            rounded(false, n, nearest::tens(k)),
        ),
{
    let d = text::decimal(n);
    let x = text::decimal(k);
    let e = Seq::<char>::empty();
    text::lemma_written(n, 10);
    text::lemma_written(k, 10);
    let a = seq!['e'] + x;
    let b = seq!['e', '+'] + x;
    let c = seq!['e', '-'] + x;
    lemma_no_word(d + a);
    lemma_no_word(d + b);
    lemma_no_word(d + c);
    lemma_no_word(x);
    lemma_digits_apart(d, a);
    lemma_digits_apart(d, b);
    lemma_digits_apart(d, c);
    assert(a.skip(1) =~= x);
    assert(b.skip(1) =~= seq!['+'] + x);
    assert(c.skip(1) =~= seq!['-'] + x);
    assert((seq!['+'] + x).skip(1) =~= x);
    assert((seq!['-'] + x).skip(1) =~= x);
    assert(d + e =~= d);
    nearest::lemma_powers(k);
    assert(n * nearest::tens(k) >= 0) by (nonlinear_arith)
        requires
            n >= 0,
            nearest::tens(k) >= 1,
    ;
    lemma_small_is_exact(false, n * nearest::tens(k));
    if k == 0 {
        assert(nearest::tens(0) == 1);
        assert(n * nearest::tens(0) == n);
    }
}

/// Digits behind a point count as a part of one.
pub proof fn law_points_are_read(n: int, f: Seq<char>)
    requires
        0 <= n,
        text::all_digits(f, 10),
    ensures
        number_of(text::decimal(n) + (seq!['.'] + f)) == Some(
            rounded(false, text::value(text::decimal(n) + f, 10), nearest::tens(f.len() as int)),
        ),
{
    let d = text::decimal(n);
    let e = Seq::<char>::empty();
    let r = seq!['.'] + f;
    text::lemma_written(n, 10);
    lemma_no_word(d + r);
    text::lemma_lead_digits(d, r, 10, digits());
    assert((d + r).take(d.len() as int) =~= d);
    assert((d + r).skip(d.len() as int) =~= r);
    assert(r.skip(1) =~= f);
    text::lemma_lead_digits(f, e, 10, digits());
    assert(f + e =~= f);
    assert(f.take(f.len() as int) =~= f);
    assert(f.skip(f.len() as int) =~= e);
    if f.len() == 0 {
        let v = text::value(d + f, 10);
        assert(nearest::tens(0) == 1);
        assert(v * nearest::tens(0) == v);
    }
}

/// A number that is no whole one becomes one of the two beside it, and the nearer of them
/// where it is known to that part.
pub proof fn law_rounding_stays_close(i: int, f: int, d: int)
    requires
        0 <= i < 0x10_0000_0000_0000,
        0 <= f < d,
    ensures
        nearest::nearest_whole(i * d + f, d) == i || nearest::nearest_whole(i * d + f, d) == i + 1,
        f == 0 ==> nearest::nearest_whole(i * d + f, d) == i,
        4 * f < 3 * d ==> nearest::nearest_whole(i * d + f, d) == i,
{
    lemma_twos_53();
    assert(nearest::twos(53) == 2 * nearest::twos(52));
    if i >= 1 {
        nearest::lemma_bits(i);
        if nearest::bits(i) > 52 {
            nearest::lemma_twos_grow(52, nearest::bits(i) - 1);
        }
    }
    nearest::lemma_round_small(i, f, d);
    let s = 53 - nearest::bits(i);
    assert(s >= 1);
    nearest::lemma_twos_grow(2, s + 1);
    reveal_with_fuel(nearest::twos, 3);
    let t = nearest::twos(s + 1);
    assert(t >= 4);
    if 4 * f < 3 * d {
        assert((d - f) * t > d) by (nonlinear_arith)
            requires
                4 * (d - f) > d,
                t >= 4,
                d > 0,
        ;
    }
}

} // verus!
