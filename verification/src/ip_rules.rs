//! Groups of addresses that need no look into their traffic.

use crate::addr::IpAddr;
use crate::cidr;
use crate::cidr::Ipv4Net;
use vstd::prelude::*;

verus! {

/// The IPv4 networks of Telegram: 91.105.192.0/23, 91.108.4.0/22, 91.108.8.0/21,
/// 91.108.16.0/21, 91.108.56.0/22, 95.161.64.0/20, 149.154.160.0/20 and
/// 185.76.151.0/24.
pub const TELEGRAM_V4: [(u32, u8); 8] = [
    (0x5b69_c000, 23),
    (0x5b6c_0400, 22),
    (0x5b6c_0800, 21),
    (0x5b6c_1000, 21),
    (0x5b6c_3800, 22),
    (0x5fa1_4000, 20),
    (0x959a_a000, 20),
    (0xb94c_9700, 24),
];

/// The IPv6 networks of Telegram: 2001:67c:4e8::/48, 2001:b28:f23c::/47,
/// 2001:b28:f23f::/48 and 2a0a:f280::/32.
pub const TELEGRAM_V6: [(u128, u8); 4] = [
    (0x2001_067c_04e8_0000_0000_0000_0000_0000, 48),
    (0x2001_0b28_f23c_0000_0000_0000_0000_0000, 47),
    (0x2001_0b28_f23f_0000_0000_0000_0000_0000, 48),
    (0x2a0a_f280_0000_0000_0000_0000_0000_0000, 32),
];

/// The IPv4 networks of the tunnel's edge: 198.41.192.0/24 and 198.41.200.0/24.
pub const EDGE_V4: [(u32, u8); 2] = [(0xc629_c000, 24), (0xc629_c800, 24)];

/// The IPv6 networks of the tunnel's edge: 2606:4700:a0::/48 and
/// 2606:4700:a8::/48.
pub const EDGE_V6: [(u128, u8); 2] = [
    (0x2606_4700_00a0_0000_0000_0000_0000_0000, 48),
    (0x2606_4700_00a8_0000_0000_0000_0000_0000, 48),
];

/// The label of the networks of Telegram.
pub const TELEGRAM: &'static str = "telegram";

/// The label of the networks of the tunnel's edge.
pub const EDGE: &'static str = "cloudflared";

/// Whether one of the networks holds an IPv4 address.
pub open spec fn in_v4(nets: Seq<(u32, u8)>, ip: u32) -> bool {
    exists|i: int|
        0 <= i < nets.len() && cidr::same_prefix(
            (#[trigger] nets[i]).0 as int,
            ip as int,
            32,
            nets[i].1 as int,
        )
}

/// Whether one of the networks holds an IPv6 address.
pub open spec fn in_v6(nets: Seq<(u128, u8)>, ip: u128) -> bool {
    exists|i: int|
        0 <= i < nets.len() && cidr::same_prefix(
            (#[trigger] nets[i]).0 as int,
            ip as int,
            128,
            nets[i].1 as int,
        )
}

/// Whether an address lies in one of the networks of its own family.
pub open spec fn in_nets(v4: Seq<(u32, u8)>, v6: Seq<(u128, u8)>, ip: IpAddr) -> bool {
    match ip {
        IpAddr::V4(a) => in_v4(v4, a),
        IpAddr::V6(a) => in_v6(v6, a),
    }
}

/// The label of the group of an address.
pub open spec fn group_of(ip: IpAddr) -> Option<Seq<char>> {
    if in_nets(TELEGRAM_V4@, TELEGRAM_V6@, ip) {
        Some(TELEGRAM@)
    } else if in_nets(EDGE_V4@, EDGE_V6@, ip) {
        Some(EDGE@)
    } else {
        None
    }
}

/// Whether one of the networks holds an IPv4 address.
fn any_v4(nets: &[(u32, u8)], ip: u32) -> (r: bool)
    requires
        forall|i: int| 0 <= i < nets@.len() ==> (#[trigger] nets@[i]).1 <= 32,
    ensures
        r == in_v4(nets@, ip),
{
    let mut i: usize = 0;
    while i < nets.len()
        invariant
            i <= nets@.len(),
            forall|j: int| 0 <= j < nets@.len() ==> (#[trigger] nets@[j]).1 <= 32,
            forall|j: int|
                0 <= j < i ==> !cidr::same_prefix(
                    (#[trigger] nets@[j]).0 as int,
                    ip as int,
                    32,
                    nets@[j].1 as int,
                ),
        decreases nets@.len() - i,
    {
        let net = Ipv4Net { addr: nets[i].0, prefix: nets[i].1 };
        if net.contains(ip) {
            assert(cidr::same_prefix(nets@[i as int].0 as int, ip as int, 32, nets@[i as int].1 as int));
            return true;
        }
        i = i + 1;
    }
    false
}

/// Whether one of the networks holds an IPv6 address.
fn any_v6(nets: &[(u128, u8)], ip: u128) -> (r: bool)
    requires
        forall|i: int| 0 <= i < nets@.len() ==> (#[trigger] nets@[i]).1 <= 128,
    ensures
        r == in_v6(nets@, ip),
{
    let mut i: usize = 0;
    while i < nets.len()
        invariant
            i <= nets@.len(),
            forall|j: int| 0 <= j < nets@.len() ==> (#[trigger] nets@[j]).1 <= 128,
            forall|j: int|
                0 <= j < i ==> !cidr::same_prefix(
                    (#[trigger] nets@[j]).0 as int,
                    ip as int,
                    128,
                    nets@[j].1 as int,
                ),
        decreases nets@.len() - i,
    {
        if cidr::v6_contains(nets[i].0, nets[i].1, ip) {
            assert(cidr::same_prefix(nets@[i as int].0 as int, ip as int, 128, nets@[i as int].1 as int));
            return true;
        }
        i = i + 1;
    }
    false
}

/// The label of the group of an address.
pub fn match_group(ip: IpAddr) -> (r: Option<&'static str>)
    ensures
        match r {
            Some(l) => group_of(ip) == Some(l@),
            None => group_of(ip) is None,
        },
{
    let (telegram, edge) = match ip {
        IpAddr::V4(a) => (any_v4(&TELEGRAM_V4, a), any_v4(&EDGE_V4, a)),
        IpAddr::V6(a) => (any_v6(&TELEGRAM_V6, a), any_v6(&EDGE_V6, a)),
    };
    if telegram {
        Some(TELEGRAM)
    } else if edge {
        Some(EDGE)
    } else {
        None
    }
}

/// The addresses with the same first bits as the first of a block are those of the block.
proof fn lemma_block(a: int, x: int, bits: int, prefix: int, size: int)
    requires
        size > 0,
        vstd::arithmetic::power2::pow2((bits - prefix) as nat) == size,
        a % size == 0,
    ensures
        cidr::same_prefix(a, x, bits, prefix) <==> a <= x < a + size,
{
    vstd::arithmetic::div_mod::lemma_fundamental_div_mod(a, size);
    vstd::arithmetic::div_mod::lemma_fundamental_div_mod(x, size);
    vstd::arithmetic::div_mod::lemma_mod_bound(x, size);
    if a <= x < a + size {
        assert(x / size == a / size) by (nonlinear_arith)
            requires
                size > 0,
                size * (a / size) <= x < size * (a / size) + size,
        ;
    }
}

/// The addresses of each group, from the first to the last of each of its networks; no other
/// address is in a group.
pub proof fn law_groups_of_v4(ip: u32)
    ensures
        group_of(IpAddr::V4(ip)) == Some("telegram"@) <==> {
            ||| 0x5b69_c000 <= ip <= 0x5b69_c1ff
            ||| 0x5b6c_0400 <= ip <= 0x5b6c_07ff
            ||| 0x5b6c_0800 <= ip <= 0x5b6c_0fff
            ||| 0x5b6c_1000 <= ip <= 0x5b6c_17ff
            ||| 0x5b6c_3800 <= ip <= 0x5b6c_3bff
            ||| 0x5fa1_4000 <= ip <= 0x5fa1_4fff
            ||| 0x959a_a000 <= ip <= 0x959a_afff
            ||| 0xb94c_9700 <= ip <= 0xb94c_97ff
        },
        group_of(IpAddr::V4(ip)) == Some("cloudflared"@) <==> {
            ||| 0xc629_c000 <= ip <= 0xc629_c0ff
            ||| 0xc629_c800 <= ip <= 0xc629_c8ff
        },
        group_of(IpAddr::V4(ip)) matches Some(g) ==> g == "telegram"@ || g == "cloudflared"@,
{
    reveal_strlit("telegram");
    reveal_strlit("cloudflared");
    assert("telegram"@.len() == 8 && "cloudflared"@.len() == 11);
    vstd::arithmetic::power2::lemma2_to64();
    let t = TELEGRAM_V4@;
    let e = EDGE_V4@;
    assert(t[0] == (0x5b69_c000u32, 23u8) && t[1] == (0x5b6c_0400u32, 22u8) && t[2] == (
        0x5b6c_0800u32,
        21u8,
    ) && t[3] == (0x5b6c_1000u32, 21u8) && t[4] == (0x5b6c_3800u32, 22u8) && t[5] == (
        0x5fa1_4000u32,
        20u8,
    ) && t[6] == (0x959a_a000u32, 20u8) && t[7] == (0xb94c_9700u32, 24u8));
    assert(e[0] == (0xc629_c000u32, 24u8) && e[1] == (0xc629_c800u32, 24u8));
    assert(in_v4(t, ip) <==> {
        ||| cidr::same_prefix(t[0].0 as int, ip as int, 32, t[0].1 as int)
        ||| cidr::same_prefix(t[1].0 as int, ip as int, 32, t[1].1 as int)
        ||| cidr::same_prefix(t[2].0 as int, ip as int, 32, t[2].1 as int)
        ||| cidr::same_prefix(t[3].0 as int, ip as int, 32, t[3].1 as int)
        ||| cidr::same_prefix(t[4].0 as int, ip as int, 32, t[4].1 as int)
        ||| cidr::same_prefix(t[5].0 as int, ip as int, 32, t[5].1 as int)
        ||| cidr::same_prefix(t[6].0 as int, ip as int, 32, t[6].1 as int)
        ||| cidr::same_prefix(t[7].0 as int, ip as int, 32, t[7].1 as int)
    }) by {
        if in_v4(t, ip) {
            let i = choose|i: int|
                0 <= i < t.len() && cidr::same_prefix(
                    (#[trigger] t[i]).0 as int,
                    ip as int,
                    32,
                    t[i].1 as int,
                );
            assert(i == 0 || i == 1 || i == 2 || i == 3 || i == 4 || i == 5 || i == 6 || i == 7);
        }
    }
    assert(in_v4(e, ip) <==> {
        ||| cidr::same_prefix(e[0].0 as int, ip as int, 32, e[0].1 as int)
        ||| cidr::same_prefix(e[1].0 as int, ip as int, 32, e[1].1 as int)
    }) by {
        if in_v4(e, ip) {
            let i = choose|i: int|
                0 <= i < e.len() && cidr::same_prefix(
                    (#[trigger] e[i]).0 as int,
                    ip as int,
                    32,
                    e[i].1 as int,
                );
            assert(i == 0 || i == 1);
        }
    }
    let x = ip as int;
    lemma_block(0x5b69_c000, x, 32, 23, 0x200);
    lemma_block(0x5b6c_0400, x, 32, 22, 0x400);
    lemma_block(0x5b6c_0800, x, 32, 21, 0x800);
    lemma_block(0x5b6c_1000, x, 32, 21, 0x800);
    lemma_block(0x5b6c_3800, x, 32, 22, 0x400);
    lemma_block(0x5fa1_4000, x, 32, 20, 0x1000);
    lemma_block(0x959a_a000, x, 32, 20, 0x1000);
    lemma_block(0xb94c_9700, x, 32, 24, 0x100);
    lemma_block(0xc629_c000, x, 32, 24, 0x100);
    lemma_block(0xc629_c800, x, 32, 24, 0x100);
}

/// The same for IPv6, by the first parts of an address.
pub proof fn law_groups_of_v6(ip: u128)
    ensures
        group_of(IpAddr::V6(ip)) == Some("telegram"@) <==> {
            ||| ip as int / 0x1_0000_0000_0000_0000_0000 == 0x2001_067c_04e8
            ||| ip as int / 0x1_0000_0000_0000_0000_0000 == 0x2001_0b28_f23c
            ||| ip as int / 0x1_0000_0000_0000_0000_0000 == 0x2001_0b28_f23d
            ||| ip as int / 0x1_0000_0000_0000_0000_0000 == 0x2001_0b28_f23f
            ||| ip as int / 0x1_0000_0000_0000_0000_0000_0000_0000 == 0x2a0a
                && ip as int / 0x1_0000_0000_0000_0000_0000_0000 % 0x1_0000 == 0xf280
        },
        group_of(IpAddr::V6(ip)) == Some("cloudflared"@) <==> {
            ||| ip as int / 0x1_0000_0000_0000_0000_0000 == 0x2606_4700_00a0
            ||| ip as int / 0x1_0000_0000_0000_0000_0000 == 0x2606_4700_00a8
        },
        group_of(IpAddr::V6(ip)) matches Some(g) ==> g == "telegram"@ || g == "cloudflared"@,
{
    reveal_strlit("telegram");
    reveal_strlit("cloudflared");
    assert("telegram"@.len() == 8 && "cloudflared"@.len() == 11);
    vstd::arithmetic::power2::lemma2_to64();
    vstd::arithmetic::power2::lemma_pow2_adds(64, 16);
    vstd::arithmetic::power2::lemma_pow2_adds(64, 17);
    vstd::arithmetic::power2::lemma_pow2_adds(64, 32);
    let t = TELEGRAM_V6@;
    let e = EDGE_V6@;
    assert(t[0] == (0x2001_067c_04e8_0000_0000_0000_0000_0000u128, 48u8));
    assert(t[1] == (0x2001_0b28_f23c_0000_0000_0000_0000_0000u128, 47u8));
    assert(t[2] == (0x2001_0b28_f23f_0000_0000_0000_0000_0000u128, 48u8));
    assert(t[3] == (0x2a0a_f280_0000_0000_0000_0000_0000_0000u128, 32u8));
    assert(e[0] == (0x2606_4700_00a0_0000_0000_0000_0000_0000u128, 48u8));
    assert(e[1] == (0x2606_4700_00a8_0000_0000_0000_0000_0000u128, 48u8));
    assert(in_v6(t, ip) <==> {
        ||| cidr::same_prefix(t[0].0 as int, ip as int, 128, t[0].1 as int)
        ||| cidr::same_prefix(t[1].0 as int, ip as int, 128, t[1].1 as int)
        ||| cidr::same_prefix(t[2].0 as int, ip as int, 128, t[2].1 as int)
        ||| cidr::same_prefix(t[3].0 as int, ip as int, 128, t[3].1 as int)
    }) by {
        if in_v6(t, ip) {
            let i = choose|i: int|
                0 <= i < t.len() && cidr::same_prefix(
                    (#[trigger] t[i]).0 as int,
                    ip as int,
                    128,
                    t[i].1 as int,
                );
            assert(i == 0 || i == 1 || i == 2 || i == 3);
        }
    }
    assert(in_v6(e, ip) <==> {
        ||| cidr::same_prefix(e[0].0 as int, ip as int, 128, e[0].1 as int)
        ||| cidr::same_prefix(e[1].0 as int, ip as int, 128, e[1].1 as int)
    }) by {
        if in_v6(e, ip) {
            let i = choose|i: int|
                0 <= i < e.len() && cidr::same_prefix(
                    (#[trigger] e[i]).0 as int,
                    ip as int,
                    128,
                    e[i].1 as int,
                );
            assert(i == 0 || i == 1);
        }
    }
    let x = ip as int;
    assert(vstd::arithmetic::power2::pow2(80) == 0x1_0000_0000_0000_0000_0000);
    assert(vstd::arithmetic::power2::pow2(81) == 0x2_0000_0000_0000_0000_0000);
    assert(vstd::arithmetic::power2::pow2(96) == 0x1_0000_0000_0000_0000_0000_0000);
    lemma_block(0x2001_067c_04e8_0000_0000_0000_0000_0000, x, 128, 48, 0x1_0000_0000_0000_0000_0000);
    lemma_block(0x2001_0b28_f23c_0000_0000_0000_0000_0000, x, 128, 47, 0x2_0000_0000_0000_0000_0000);
    lemma_block(0x2001_0b28_f23f_0000_0000_0000_0000_0000, x, 128, 48, 0x1_0000_0000_0000_0000_0000);
    lemma_block(0x2a0a_f280_0000_0000_0000_0000_0000_0000, x, 128, 32, 0x1_0000_0000_0000_0000_0000_0000);
    lemma_block(0x2606_4700_00a0_0000_0000_0000_0000_0000, x, 128, 48, 0x1_0000_0000_0000_0000_0000);
    lemma_block(0x2606_4700_00a8_0000_0000_0000_0000_0000, x, 128, 48, 0x1_0000_0000_0000_0000_0000);
}

} // verus!
