//! Link modes of a network card: which of its speeds it should offer.

use crate::text;
use vstd::prelude::*;

verus! {

/// The largest number of words in a mask of link modes.
pub const MAX_NWORDS: usize = 8;

/// Automatic negotiation is on.
pub const AUTONEG_ENABLE: u8 = 1;

/// Whether a bit of a word is set.
pub open spec fn bit(w: u32, b: u32) -> bool {
    (w >> b) & 1 == 1
}

/// The bits that stand for features and not for speeds: kinds of ports, automatic
/// negotiation, pauses, backplanes and error correction.
pub open spec fn feature(n: int) -> bool {
    ||| 6 <= n <= 11
    ||| n == 13
    ||| n == 14
    ||| n == 16
    ||| n == 20
    ||| 49 <= n <= 51
    ||| n == 74
}

/// The bits of word `i` that stand for speeds.
pub open spec fn speed_mask(i: int) -> u32 {
    if i == 0 {
        !0x0011_6fc0u32
    } else if i == 1 {
        !0x000e_0000u32
    } else if i == 2 {
        !0x0000_0400u32
    } else {
        0xffff_ffffu32
    }
}

/// The mask of a word holds exactly the bits that do not stand for features.
pub proof fn law_speed_mask(i: int, b: u32)
    requires
        i >= 0,
        b < 32,
    ensures
        bit(speed_mask(i), b) == !feature(32 * i + b),
{
    assert(((!0x0011_6fc0u32 >> b) & 1 == 1) == !(6 <= b <= 11 || b == 13 || b == 14 || b == 16 || b
        == 20)) by (bit_vector)
        requires
            b < 32,
    ;
    assert(((!0x000e_0000u32 >> b) & 1 == 1) == !(17 <= b <= 19)) by (bit_vector)
        requires
            b < 32,
    ;
    assert(((!0x0000_0400u32 >> b) & 1 == 1) == !(b == 10)) by (bit_vector)
        requires
            b < 32,
    ;
    assert((0xffff_ffffu32 >> b) & 1 == 1) by (bit_vector)
        requires
            b < 32,
    ;
}

/// The bits of a word that stand for speeds.
pub fn speed_mask_word(i: usize) -> (r: u32)
    ensures
        r == speed_mask(i as int),
        forall|b: u32| b < 32 ==> #[trigger] bit(r, b) == !feature(32 * i + b),
{
    let r: u32 = if i == 0 {
        !0x0011_6fc0u32
    } else if i == 1 {
        !0x000e_0000u32
    } else if i == 2 {
        !0x0000_0400u32
    } else {
        0xffff_ffffu32
    };
    proof {
        assert forall|b: u32| b < 32 implies #[trigger] bit(r, b) == !feature(32 * i + b) by {
            law_speed_mask(i as int, b);
        }
    }
    r
}

/// A word of what is offered, with the speeds that are supported added.
pub open spec fn widened_word(sup: u32, adv: u32, i: int) -> u32 {
    adv | (sup & speed_mask(i))
}

/// What is offered, with the speeds that are supported added.
pub open spec fn widened(sup: Seq<u32>, adv: Seq<u32>) -> Seq<u32> {
    Seq::new(
        adv.len(),
        |i: int|
            if i < sup.len() {
                widened_word(sup[i], adv[i], i)
            } else {
                adv[i]
            },
    )
}

/// The view of an optional mask.
pub open spec fn opt_mask(m: Option<Vec<u32>>) -> Option<Seq<u32>> {
    match m {
        Some(v) => Some(v@),
        None => None,
    }
}

/// What should be offered, where it is more than what is.
pub fn desired_advertising(supported: &[u32], advertising: &[u32]) -> (r: Option<Vec<u32>>)
    ensures
        opt_mask(r) == if widened(supported@, advertising@) == advertising@ {
            None::<Seq<u32>>
        } else {
            Some(widened(supported@, advertising@))
        },
{
    let ghost want = widened(supported@, advertising@);
    let mut out: Vec<u32> = Vec::new();
    let mut changed = false;
    let mut i: usize = 0;
    assert(want.take(0) =~= advertising@.take(0));
    while i < advertising.len()
        invariant
            i <= advertising@.len(),
            want == widened(supported@, advertising@),
            out@ == want.take(i as int),
            changed == (want.take(i as int) != advertising@.take(i as int)),
        decreases advertising@.len() - i,
    {
        let w = advertising[i];
        let ghost prev = changed;
        if i < supported.len() {
            let sup = supported[i];
            let mask = speed_mask_word(i);
            let missing = sup & mask & !w;
            proof {
                assert(w | (sup & mask & !w) == w | (sup & mask)) by (bit_vector);
                assert((sup & mask & !w != 0) == (w | (sup & mask) != w)) by (bit_vector);
            }
            out.push(w | missing);
            if missing != 0 {
                changed = true;
            }
        } else {
            out.push(w);
        }
        proof {
            let k = i as int;
            let a = want.take(k + 1);
            let b = advertising@.take(k + 1);
            assert(a =~= want.take(k).push(want[k]));
            assert(b =~= advertising@.take(k).push(advertising@[k]));
            assert(a.drop_last() =~= want.take(k));
            assert(b.drop_last() =~= advertising@.take(k));
            assert(out@ =~= a);
            if prev {
                assert(a != b);
            } else if want[k] != advertising@[k] {
                assert(a[k] != b[k]);
                assert(a != b);
            } else {
                assert(a =~= b);
            }
        }
        i = i + 1;
    }
    assert(want.take(i as int) =~= want);
    assert(advertising@.take(i as int) =~= advertising@);
    if changed {
        Some(out)
    } else {
        None
    }
}

/// Whether a mask holds a speed.
pub open spec fn holds_speed(mask: Seq<u32>) -> bool {
    exists|i: int| 0 <= i < mask.len() && (#[trigger] mask[i]) & speed_mask(i) != 0
}

/// Whether a mask holds a speed.
pub fn has_speed_bits(mask: &[u32]) -> (r: bool)
    ensures
        r == holds_speed(mask@),
{
    let mut i: usize = 0;
    while i < mask.len()
        invariant
            i <= mask@.len(),
            forall|j: int| 0 <= j < i ==> (#[trigger] mask@[j]) & speed_mask(j) == 0,
        decreases mask@.len() - i,
    {
        if mask[i] & speed_mask_word(i) != 0 {
            assert(mask@[i as int] & speed_mask(i as int) != 0);
            return true;
        }
        i = i + 1;
    }
    false
}

/// The last word that is not zero, or the first word.
pub open spec fn top_word(mask: Seq<u32>) -> int
    decreases mask.len(),
{
    if mask.len() <= 1 || mask.last() != 0 {
        mask.len() - 1
    } else {
        top_word(mask.drop_last())
    }
}

/// The words of a mask in hexadecimal, the last one first.
pub open spec fn hex_words(mask: Seq<u32>) -> Seq<char>
    decreases mask.len(),
{
    if mask.len() == 0 {
        seq![]
    } else {
        text::zero_padded(text::written(mask.last() as int, 16), 8) + hex_words(mask.drop_last())
    }
}

/// A mask in hexadecimal, without words of zeros in front.
pub fn mask_hex(mask: &[u32]) -> (r: String)
    requires
        mask@.len() > 0,
    ensures
        r@ == "0x"@ + hex_words(mask@.take(top_word(mask@) + 1)),
{
    let mut n: usize = mask.len();
    assert(mask@.take(mask@.len() as int) =~= mask@);
    while n > 1 && mask[n - 1] == 0
        invariant
            1 <= n <= mask@.len(),
            top_word(mask@) == top_word(mask@.take(n as int)),
        decreases n,
    {
        assert(mask@.take(n as int).drop_last() =~= mask@.take(n - 1));
        n = n - 1;
    }
    assert(top_word(mask@) == n - 1);
    let mut out = "0x".to_owned();
    let ghost top = mask@.take(n as int);
    let mut i: usize = n;
    while i > 0
        invariant
            i <= n <= mask@.len(),
            top == mask@.take(n as int),
            out@ + hex_words(mask@.take(i as int)) == "0x"@ + hex_words(top),
        decreases i,
    {
        let ghost before = out@;
        text::push_padded(&mut out, mask[i - 1] as u64, 16, 8);
        proof {
            let cur = mask@.take(i as int);
            assert(cur.drop_last() =~= mask@.take(i - 1));
            let w = text::zero_padded(text::written(cur.last() as int, 16), 8);
            assert(before + (w + hex_words(mask@.take(i - 1))) =~= before + w + hex_words(
                mask@.take(i - 1),
            ));
        }
        i = i - 1;
    }
    assert(mask@.take(0) =~= Seq::<u32>::empty());
    assert(out@ + hex_words(mask@.take(0)) =~= out@);
    out
}

/// The name of a link mode.
pub open spec fn mode_name(n: int) -> Seq<char> {
    if n == 0 {
        "10baseT/Half"@
    } else if n == 1 {
        "10baseT/Full"@
    } else if n == 2 {
        "100baseT/Half"@
    } else if n == 3 {
        "100baseT/Full"@
    } else if n == 4 {
        "1000baseT/Half"@
    } else if n == 5 {
        "1000baseT/Full"@
    } else if n == 12 {
        "10000baseT/Full"@
    } else if n == 15 {
        "2500baseX/Full"@
    } else if n == 41 {
        "1000baseX/Full"@
    } else if n == 47 {
        "2500baseT/Full"@
    } else if n == 48 {
        "5000baseT/Full"@
    } else if n == 67 {
        "100baseT1/Full"@
    } else if n == 68 {
        "1000baseT1/Full"@
    } else if n == 90 {
        "100baseFX/Half"@
    } else if n == 91 {
        "100baseFX/Full"@
    } else if n == 92 {
        "10baseT1L/Full"@
    } else {
        "bit"@ + text::decimal(n)
    }
}

/// The names of the speeds among the first `n` bits of a mask.
pub open spec fn speed_names(mask: Seq<u32>, n: int) -> Seq<Seq<char>>
    decreases n,
{
    if n <= 0 {
        seq![]
    } else {
        let k = n - 1;
        if bit(mask[k / 32], (k % 32) as u32) && !feature(k) {
            speed_names(mask, k).push(mode_name(k))
        } else {
            speed_names(mask, k)
        }
    }
}

/// The names of the speeds in a mask, with commas between them.
pub open spec fn names_text(mask: Seq<u32>) -> Seq<char> {
    let names = speed_names(mask, 32 * mask.len() as int);
    if names.len() == 0 {
        "-"@
    } else {
        text::joined(names, ","@)
    }
}

/// The name of a link mode.
fn name_of(n: u32) -> (r: String)
    ensures
        r@ == mode_name(n as int),
{
    if n == 0 {
        "10baseT/Half".to_owned()
    } else if n == 1 {
        "10baseT/Full".to_owned()
    } else if n == 2 {
        "100baseT/Half".to_owned()
    } else if n == 3 {
        "100baseT/Full".to_owned()
    } else if n == 4 {
        "1000baseT/Half".to_owned()
    } else if n == 5 {
        "1000baseT/Full".to_owned()
    } else if n == 12 {
        "10000baseT/Full".to_owned()
    } else if n == 15 {
        "2500baseX/Full".to_owned()
    } else if n == 41 {
        "1000baseX/Full".to_owned()
    } else if n == 47 {
        "2500baseT/Full".to_owned()
    } else if n == 48 {
        "5000baseT/Full".to_owned()
    } else if n == 67 {
        "100baseT1/Full".to_owned()
    } else if n == 68 {
        "1000baseT1/Full".to_owned()
    } else if n == 90 {
        "100baseFX/Half".to_owned()
    } else if n == 91 {
        "100baseFX/Full".to_owned()
    } else if n == 92 {
        "10baseT1L/Full".to_owned()
    } else {
        let mut s = "bit".to_owned();
        text::push_decimal(&mut s, n as u64);
        s
    }
}

/// Whether a bit stands for a feature.
fn is_feature(n: u32) -> (r: bool)
    ensures
        r == feature(n as int),
{
    (6 <= n && n <= 11) || n == 13 || n == 14 || n == 16 || n == 20 || (49 <= n && n <= 51) || n
        == 74
}

/// The names of the speeds in a mask.
pub fn mode_names(mask: &[u32]) -> (r: String)
    requires
        32 * mask@.len() <= u32::MAX,
    ensures
        r@ == names_text(mask@),
{
    let total: u32 = 32 * mask.len() as u32;
    let mut names: Vec<String> = Vec::new();
    let mut k: u32 = 0;
    assert(text::strings(names@) =~= Seq::<Seq<char>>::empty());
    while k < total
        invariant
            total == 32 * mask@.len(),
            k <= total,
            text::strings(names@) == speed_names(mask@, k as int),
        decreases total - k,
    {
        let ghost before = text::strings(names@);
        let w = mask[(k / 32) as usize];
        if (w >> (k % 32)) & 1 == 1 && !is_feature(k) {
            names.push(name_of(k));
            assert(text::strings(names@) =~= before.push(mode_name(k as int)));
        }
        k = k + 1;
    }
    if names.len() == 0 {
        assert(text::strings(names@).len() == 0);
        "-".to_owned()
    } else {
        assert(text::strings(names@).len() > 0);
        text::join(&names, ",")
    }
}

// ---------------------------------------------------------------------------
// Talking to the driver
// ---------------------------------------------------------------------------

/// Whether a name can be handed to the kernel: it has one to fifteen bytes and
/// none of them is zero.
pub open spec fn name_fits(b: Seq<u8>) -> bool {
    0 < b.len() < 16 && !b.contains(0u8)
}

/// The name of an interface as the kernel takes it, filled up with zeros.
pub fn ifreq_name(name: &[u8]) -> (r: Option<[u8; 16]>)
    ensures
        match r {
            Some(a) => name_fits(name@) && forall|i: int|
                0 <= i < 16 ==> #[trigger] a@[i] == if i < name@.len() {
                    name@[i]
                } else {
                    0
                },
            None => !name_fits(name@),
        },
{
    let n: usize = name.len();
    if n == 0 || n >= 16 {
        return None;
    }
    let mut out: [u8; 16] = [0u8;16];
    let mut i: usize = 0;
    while i < n
        invariant
            n == name@.len(),
            0 < n < 16,
            i <= n,
            forall|j: int| 0 <= j < i ==> #[trigger] name@[j] != 0,
            forall|j: int|
                0 <= j < 16 ==> #[trigger] out@[j] == if j < i {
                    name@[j]
                } else {
                    0
                },
        decreases n - i,
    {
        if name[i] == 0 {
            assert(name@[i as int] == 0);
            assert(name@.contains(0u8));
            return None;
        }
        out[i] = name[i];
        i = i + 1;
    }
    Some(out)
}

/// How many words a driver uses, from the negative number that it answers first
/// with.
pub open spec fn words_of_answer(n: i8) -> Option<int> {
    if n >= 0 || -n > MAX_NWORDS {
        None
    } else {
        Some(-(n as int))
    }
}

/// How many words a driver uses, or why its answer is no good.
pub fn handshake(n: i8) -> (r: Result<usize, String>)
    ensures
        match r {
            Ok(w) => words_of_answer(n) == Some(w as int),
            Err(e) => words_of_answer(n) is None && e@ == if n >= 0 {
                "GLINKSETTINGS handshake returned nwords="@ + text::decimal(n as int)
                    + " (expected negative)"@
            } else {
                "kernel link_mode nwords="@ + text::decimal(-n) + " exceeds supported max 8"@
            },
        },
{
    if n >= 0 {
        let mut m = "GLINKSETTINGS handshake returned nwords=".to_owned();
        text::push_decimal(&mut m, n as u64);
        m.append(" (expected negative)");
        return Err(m);
    }
    let w: usize = (-(n as i32)) as usize;
    if w > MAX_NWORDS {
        let mut m = "kernel link_mode nwords=".to_owned();
        text::push_decimal(&mut m, w as u64);
        m.append(" exceeds supported max 8");
        return Err(m);
    }
    Ok(w)
}

/// Whether a driver answers with as many words as it was asked for, or why not.
pub fn check_words(asked: usize, got: i8) -> (r: Result<(), String>)
    ensures
        match r {
            Ok(_) => got == asked,
            Err(e) => got != asked && e@ == "GLINKSETTINGS nwords mismatch: asked "@
                + text::decimal(asked as int) + ", got "@ + text::signed_decimal(got as int),
        },
{
    if got >= 0 && got as usize == asked {
        return Ok(());
    }
    let mut m = "GLINKSETTINGS nwords mismatch: asked ".to_owned();
    text::push_decimal(&mut m, asked as u64);
    m.append(", got ");
    text::push_signed(&mut m, got as i64);
    Err(m)
}

/// What to do about a card.
pub enum TunePlan {
    /// The card names no speeds.
    NoModes,
    /// The speed was fixed by hand.
    Forced,
    /// Every speed is offered.
    Complete,
    /// More speeds are to be offered, as this mask says.
    Widen(Vec<u32>),
}

/// Decides what to do about a card.
pub fn plan_tune(supported: &[u32], advertising: &[u32], autoneg: u8) -> (r: TunePlan)
    ensures
        match r {
            TunePlan::NoModes => !holds_speed(supported@),
            TunePlan::Forced => holds_speed(supported@) && autoneg != AUTONEG_ENABLE,
            TunePlan::Complete => holds_speed(supported@) && autoneg == AUTONEG_ENABLE && widened(
                supported@,
                advertising@,
            ) == advertising@,
            TunePlan::Widen(m) => holds_speed(supported@) && autoneg == AUTONEG_ENABLE && widened(
                supported@,
                advertising@,
            ) != advertising@ && m@ == widened(supported@, advertising@),
        },
{
    if !has_speed_bits(supported) {
        return TunePlan::NoModes;
    }
    if autoneg != AUTONEG_ENABLE {
        return TunePlan::Forced;
    }
    match desired_advertising(supported, advertising) {
        Some(m) => TunePlan::Widen(m),
        None => TunePlan::Complete,
    }
}

/// The speeds that a plan adds, word by word.
pub fn added_modes(want: &[u32], advertising: &[u32]) -> (r: Vec<u32>)
    requires
        want@.len() == advertising@.len(),
    ensures
        r@ == Seq::new(want@.len(), |i: int| want@[i] & !advertising@[i]),
{
    let mut out: Vec<u32> = Vec::new();
    let mut i: usize = 0;
    while i < want.len()
        invariant
            i <= want@.len(),
            want@.len() == advertising@.len(),
            out@ == Seq::new(i as nat, |j: int| want@[j] & !advertising@[j]),
        decreases want@.len() - i,
    {
        out.push(want[i] & !advertising[i]);
        i = i + 1;
        assert(out@ =~= Seq::new(i as nat, |j: int| want@[j] & !advertising@[j]));
    }
    out
}

// ---------------------------------------------------------------------------
// Laws
// ---------------------------------------------------------------------------

/// What is offered is never taken back, and what is added is a speed that the card
/// supports: pauses, ports and other features stay as they were.
pub proof fn law_widening_only_adds_speeds(sup: Seq<u32>, adv: Seq<u32>, i: int, b: u32)
    requires
        0 <= i < adv.len(),
        b < 32,
    ensures
        bit(adv[i], b) ==> bit(widened(sup, adv)[i], b),
        bit(widened(sup, adv)[i], b) && !bit(adv[i], b) ==> i < sup.len() && bit(sup[i], b)
            && !feature(32 * i + b),
        i < sup.len() && bit(sup[i], b) && !feature(32 * i + b) ==> bit(widened(sup, adv)[i], b),
{
    if i < sup.len() {
        let a = adv[i];
        let s = sup[i];
        let m = speed_mask(i);
        law_speed_mask(i, b);
        assert((((a | (s & m)) >> b) & 1 == 1) == ((a >> b) & 1 == 1 || ((s >> b) & 1 == 1 && (m
            >> b) & 1 == 1))) by (bit_vector)
            requires
                b < 32,
        ;
    }
}

/// Once everything is offered there is nothing more to add.
pub proof fn law_widening_is_done_at_once(sup: Seq<u32>, adv: Seq<u32>)
    ensures
        widened(sup, widened(sup, adv)) == widened(sup, adv),
{
    let w = widened(sup, adv);
    assert forall|i: int| 0 <= i < w.len() implies widened(sup, w)[i] == w[i] by {
        if i < sup.len() {
            let a = adv[i];
            let s = sup[i];
            let m = speed_mask(i);
            assert((a | (s & m)) | (s & m) == (a | (s & m))) by (bit_vector);
        }
    }
    assert(widened(sup, w) =~= w);
}

/// Each mode that has a name is a speed, and only a speed without a name is told by its
/// number.
pub proof fn law_modes_by_number(n: int)
    requires
        0 <= n,
    ensures
        mode_name(0) == "10baseT/Half"@,
        mode_name(1) == "10baseT/Full"@,
        mode_name(2) == "100baseT/Half"@,
        mode_name(3) == "100baseT/Full"@,
        mode_name(4) == "1000baseT/Half"@,
        mode_name(5) == "1000baseT/Full"@,
        mode_name(12) == "10000baseT/Full"@,
        mode_name(15) == "2500baseX/Full"@,
        mode_name(41) == "1000baseX/Full"@,
        mode_name(47) == "2500baseT/Full"@,
        mode_name(48) == "5000baseT/Full"@,
        mode_name(67) == "100baseT1/Full"@,
        mode_name(68) == "1000baseT1/Full"@,
        mode_name(90) == "100baseFX/Half"@,
        mode_name(91) == "100baseFX/Full"@,
        mode_name(92) == "10baseT1L/Full"@,
        ![0int, 1, 2, 3, 4, 5, 12, 15, 41, 47, 48, 67, 68, 90, 91, 92]@.contains(n) ==> mode_name(n)
            == "bit"@ + text::decimal(n),
        forall|k: int| feature(k) ==> #[trigger] mode_name(k) == "bit"@ + text::decimal(k),
{
    let known = [0int, 1, 2, 3, 4, 5, 12, 15, 41, 47, 48, 67, 68, 90, 91, 92]@;
    assert(known[0] == 0 && known[1] == 1 && known[2] == 2 && known[3] == 3 && known[4] == 4
        && known[5] == 5 && known[6] == 12 && known[7] == 15 && known[8] == 41 && known[9] == 47
        && known[10] == 48 && known[11] == 67 && known[12] == 68 && known[13] == 90 && known[14]
        == 91 && known[15] == 92);
}

/// The bits that stand for no speed.
pub proof fn law_bits_without_a_speed(n: int)
    ensures
        feature(n) <==> seq![6int, 7, 8, 9, 10, 11, 13, 14, 16, 20, 49, 50, 51, 74].contains(n),
{
    let v = seq![6int, 7, 8, 9, 10, 11, 13, 14, 16, 20, 49, 50, 51, 74];
    assert(v[0] == 6 && v[1] == 7 && v[2] == 8 && v[3] == 9 && v[4] == 10 && v[5] == 11 && v[6]
        == 13 && v[7] == 14 && v[8] == 16 && v[9] == 20 && v[10] == 49 && v[11] == 50 && v[12]
        == 51 && v[13] == 74);
}

/// The names are those of the speeds whose bits are set, from the lowest up.
pub proof fn law_speeds_are_named(mask: Seq<u32>, n: int)
    requires
        0 <= n < 32 * mask.len(),
    ensures
        speed_names(mask, n + 1) == if (mask[n / 32] >> (n % 32) as u32) & 1 == 1 && !feature(n) {
            speed_names(mask, n).push(mode_name(n))
        } else {
            speed_names(mask, n)
        },
        speed_names(mask, 0) == Seq::<Seq<char>>::empty(),
        speed_names(mask, 32 * mask.len() as int).len() == 0 ==> names_text(mask) == "-"@,
        speed_names(mask, 32 * mask.len() as int).len() > 0 ==> names_text(mask) == text::joined(
            speed_names(mask, 32 * mask.len() as int),
            ","@,
        ),
{
}

/// A mask is written from its highest word that holds anything, each word with eight digits.
pub proof fn law_masks_are_written(mask: Seq<u32>, w: u32)
    requires
        mask.len() > 0,
    ensures
        w != 0 ==> top_word(mask.push(w)) == mask.len(),
        w == 0 ==> top_word(mask.push(w)) == top_word(mask),
        top_word(seq![w]) == 0,
        hex_words(mask.push(w)) == text::zero_padded(text::written(w as int, 16), 8) + hex_words(
            mask,
        ),
        hex_words(seq![]) == Seq::<char>::empty(),
{
    assert(mask.push(w).drop_last() =~= mask);
}

/// A card answers with less than nothing for the number of words that it wants, up to eight.
pub proof fn law_words_a_card_wants(n: i8)
    ensures
        -8 <= n <= -1 ==> words_of_answer(n) == Some(0 - n),
        n >= 0 || n < -8 ==> words_of_answer(n) is None,
{
}

/// A name fits with its end into sixteen bytes, and holds no end within.
pub proof fn law_names_that_fit(b: Seq<u8>)
    ensures
        name_fits(b) <==> 1 <= b.len() <= 15 && forall|i: int|
            0 <= i < b.len() ==> #[trigger] b[i] != 0,
{
    if name_fits(b) {
        assert forall|i: int| 0 <= i < b.len() implies #[trigger] b[i] != 0 by {
            assert(b.contains(b[i]));
        }
    }
}

/// A card is thought to have speeds when a bit that stands for one is set.
pub proof fn law_when_a_card_has_speeds(mask: Seq<u32>)
    ensures
        mask.len() == 0 ==> !holds_speed(mask),
        forall|i: int|
            0 <= i < mask.len() && (#[trigger] mask[i]) & speed_mask(i) != 0 ==> holds_speed(mask),
{
}

} // verus!
