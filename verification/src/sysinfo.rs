//! What the files of the kernel tell of the machine.

use crate::addr;
use crate::config;
use crate::decimal;
use crate::json;
use crate::json::{Json, Shape};
use crate::names;
use crate::names::Names;
use crate::table::Table;
use crate::text;
use vstd::prelude::*;
use vstd::slice::slice_subrange;

verus! {

// ---------------------------------------------------------------------------
// Memory
// ---------------------------------------------------------------------------

/// The number that the first word of a text writes, and 0 where it writes none.
pub open spec fn first_number(s: Seq<char>) -> int {
    let w = text::words(s);
    if w.len() == 0 {
        0
    } else {
        match text::number(w[0], 10, u64::MAX as int) {
            Some(n) => n,
            None => 0,
        }
    }
}

/// The bytes that the first word of a text writes as a number of kilobytes.
pub fn parse_kb(rest: &[char]) -> (r: u128)
    ensures
        r == first_number(rest@) * 1024,
{
    let w = text::words_of(rest);
    let ghost all = text::words(rest@);
    if w.len() == 0 {
        assert(all.len() == 0);
        return 0;
    }
    assert(all[0] == w@[0]@);
    match text::parse_number(w[0], 10, u64::MAX) {
        Some(n) => (n as u128) * 1024,
        None => 0,
    }
}

/// The number of bytes in the last line that starts with a label, 0 where there is
/// none among the first `n`. A line counts for the first label that it starts with.
pub open spec fn mem_run(ls: Seq<Seq<char>>, n: int) -> (int, int)
    decreases n,
{
    if n <= 0 {
        (0, 0)
    } else {
        let (total, avail) = mem_run(ls, n - 1);
        match text::after(ls[n - 1], "MemTotal:"@) {
            Some(rest) => (first_number(rest) * 1024, avail),
            None => match text::after(ls[n - 1], "MemAvailable:"@) {
                Some(rest) => (total, first_number(rest) * 1024),
                None => (total, avail),
            },
        }
    }
}

/// The memory of the machine and how much of it is available, in bytes.
pub fn meminfo(s: &str) -> (r: (u128, u128))
    ensures
        (r.0 as int, r.1 as int) == mem_run(text::lines(s@), text::lines(s@).len() as int),
{
    let cs = text::chars_of(s);
    let ls = text::lines_of(&cs);
    let ghost all = text::lines(s@);
    let mut total: u128 = 0;
    let mut avail: u128 = 0;
    let mut i: usize = 0;
    while i < ls.len()
        invariant
            i <= ls@.len(),
            all == text::texts(ls@),
            (total as int, avail as int) == mem_run(all, i as int),
        decreases ls@.len() - i,
    {
        assert(all[i as int] == ls@[i as int]@);
        if let Some(rest) = text::strip_prefix(ls[i], "MemTotal:") {
            total = parse_kb(rest);
        } else if let Some(rest) = text::strip_prefix(ls[i], "MemAvailable:") {
            avail = parse_kb(rest);
        }
        i = i + 1;
    }
    (total, avail)
}

/// What follows a label in the first line, from line `i` on, that starts with it.
pub open spec fn labelled(ls: Seq<Seq<char>>, label: Seq<char>, i: int) -> Option<Seq<char>>
    decreases ls.len() - i,
{
    if i < 0 || i >= ls.len() {
        None
    } else {
        match text::after(ls[i], label) {
            Some(rest) => Some(rest),
            None => labelled(ls, label, i + 1),
        }
    }
}

/// What follows a label in the first line that starts with it.
fn find_label<'a>(cs: &'a [char], label: &str) -> (r: Option<&'a [char]>)
    ensures
        text::opt(r) == labelled(text::lines(cs@), label@, 0),
{
    let ls = text::lines_of(cs);
    let ghost all = text::lines(cs@);
    let mut i: usize = 0;
    while i < ls.len()
        invariant
            i <= ls@.len(),
            all == text::texts(ls@),
            all == text::lines(cs@),
            labelled(all, label@, 0) == labelled(all, label@, i as int),
        decreases ls@.len() - i,
    {
        assert(all[i as int] == ls@[i as int]@);
        if let Some(rest) = text::strip_prefix(ls[i], label) {
            return Some(rest);
        }
        i = i + 1;
    }
    None
}

/// The memory that a process holds, in bytes, from its status.
pub fn rss_of_status(status: &str) -> (r: u128)
    ensures
        r == match labelled(text::lines(status@), "VmRSS:"@, 0) {
            Some(rest) => first_number(rest) * 1024,
            None => 0,
        },
{
    let cs = text::chars_of(status);
    match find_label(&cs, "VmRSS:") {
        Some(rest) => parse_kb(rest),
        None => 0,
    }
}

/// The release of the kernel.
pub fn kernel_version(raw: &str) -> (r: String)
    ensures
        r@ == text::trimmed(raw@),
{
    let cs = text::chars_of(raw);
    text::str_of(text::trim(&cs))
}

// ---------------------------------------------------------------------------
// Processors
// ---------------------------------------------------------------------------

/// The colons, blanks and tabs that stand before a value.
pub open spec fn separators() -> spec_fn(char) -> bool {
    |c: char| c == ':' || c == ' ' || c == '\t'
}

/// A value without the separators before it and the white space around it.
pub open spec fn value_text(s: Seq<char>) -> Seq<char> {
    text::trimmed(text::trim_start_of(s, separators()))
}

/// A value without the separators before it and the white space around it.
fn clean_value(cs: &[char]) -> (r: &[char])
    ensures
        r@ == value_text(cs@),
{
    let mut i: usize = 0;
    while i < cs.len() && (cs[i] == ':' || cs[i] == ' ' || cs[i] == '\t')
        invariant
            i <= cs@.len(),
            forall|j: int| 0 <= j < i ==> separators()(#[trigger] cs@[j]),
        decreases cs@.len() - i,
    {
        i = i + 1;
    }
    proof {
        text::lemma_lead(cs@, separators(), i as int);
    }
    text::trim(slice_subrange(cs, i, cs.len()))
}

/// The first name of a model that is not empty, and how many processors there are,
/// among the first `n` lines.
pub open spec fn cpu_run(ls: Seq<Seq<char>>, n: int) -> (Seq<char>, int)
    decreases n,
{
    if n <= 0 {
        (seq![], 0)
    } else {
        let (model, cores) = cpu_run(ls, n - 1);
        let line = ls[n - 1];
        if text::starts(line, "processor"@) {
            (model, cores + 1)
        } else if model.len() == 0 {
            match text::after(line, "model name"@) {
                Some(v) => (value_text(v), cores),
                None => (model, cores),
            }
        } else {
            (model, cores)
        }
    }
}

/// The model and the number of processors. Where no line names a model it is made
/// from the parts that the lines name, and where no line names a processor the
/// system's own count stands.
pub open spec fn cpu_of(s: Seq<char>, cpus: int) -> (Seq<char>, int) {
    let ls = text::lines(s);
    let (model, cores) = cpu_run(ls, ls.len() as int);
    (
        if model.len() == 0 {
            arm_text(s)
        } else {
            model
        },
        if cores == 0 {
            cpus
        } else {
            cores
        },
    )
}

/// The number of processors is no larger than the number of lines.
proof fn lemma_cores_bound(ls: Seq<Seq<char>>, n: int)
    requires
        0 <= n,
    ensures
        0 <= cpu_run(ls, n).1 <= n,
    decreases n,
{
    if n > 0 {
        lemma_cores_bound(ls, n - 1);
    }
}

/// The model and the number of processors.
pub fn cpu_model_cores(s: &str, cpus: usize) -> (r: (String, usize))
    ensures
        (r.0@, r.1 as int) == cpu_of(s@, cpus as int),
{
    let cs = text::chars_of(s);
    let ls = text::lines_of(&cs);
    let ghost all = text::lines(s@);
    let mut model = String::new();
    let mut cores: usize = 0;
    let mut i: usize = 0;
    assert(model@ =~= Seq::<char>::empty());
    while i < ls.len()
        invariant
            i <= ls@.len(),
            all == text::texts(ls@),
            (model@, cores as int) == cpu_run(all, i as int),
        decreases ls@.len() - i,
    {
        assert(all[i as int] == ls@[i as int]@);
        proof {
            lemma_cores_bound(all, i as int);
        }
        if text::starts_with(ls[i], "processor") {
            cores = cores + 1;
        } else if model.as_str().is_empty() {
            if let Some(v) = text::strip_prefix(ls[i], "model name") {
                model = text::str_of(clean_value(v));
            }
        }
        i = i + 1;
    }
    if cores == 0 {
        cores = cpus;
    }
    if model.as_str().is_empty() {
        model = arm_model(s);
    }
    (model, cores)
}

/// Makers of ARM processors.
pub const ARM_IMPLEMENTERS: [(u16, &'static str); 19] = [
    (0x41, "ARM"),
    (0x42, "Broadcom"),
    (0x43, "Cavium"),
    (0x44, "DEC"),
    (0x46, "FUJITSU"),
    (0x48, "HiSilicon"),
    (0x49, "Infineon"),
    (0x4d, "Motorola/Freescale"),
    (0x4e, "NVIDIA"),
    (0x50, "APM"),
    (0x51, "Qualcomm"),
    (0x53, "Samsung"),
    (0x56, "Marvell"),
    (0x61, "Apple"),
    (0x66, "Faraday"),
    (0x69, "Intel"),
    (0x6d, "Microsoft"),
    (0x70, "Phytium"),
    (0xc0, "Ampere"),
];

/// Cores of the maker ARM.
pub const ARM_PARTS: [(u16, &'static str); 42] = [
    (0xd01, "Cortex-A32"),
    (0xd02, "Cortex-A34"),
    (0xd03, "Cortex-A53"),
    (0xd04, "Cortex-A35"),
    (0xd05, "Cortex-A55"),
    (0xd06, "Cortex-A65"),
    (0xd07, "Cortex-A57"),
    (0xd08, "Cortex-A72"),
    (0xd09, "Cortex-A73"),
    (0xd0a, "Cortex-A75"),
    (0xd0b, "Cortex-A76"),
    (0xd0c, "Neoverse-N1"),
    (0xd0d, "Cortex-A77"),
    (0xd0e, "Cortex-A76AE"),
    (0xd13, "Cortex-R52"),
    (0xd15, "Cortex-R82"),
    (0xd40, "Neoverse-V1"),
    (0xd41, "Cortex-A78"),
    (0xd42, "Cortex-A78AE"),
    (0xd43, "Cortex-A65AE"),
    (0xd44, "Cortex-X1"),
    (0xd46, "Cortex-A510"),
    (0xd47, "Cortex-A710"),
    (0xd48, "Cortex-X2"),
    (0xd49, "Neoverse-N2"),
    (0xd4a, "Neoverse-E1"),
    (0xd4b, "Cortex-A78C"),
    (0xd4c, "Cortex-X1C"),
    (0xd4d, "Cortex-A715"),
    (0xd4e, "Cortex-X3"),
    (0xd4f, "Neoverse-V2"),
    (0xd80, "Cortex-A520"),
    (0xd81, "Cortex-A720"),
    (0xd82, "Cortex-X4"),
    (0xd83, "Neoverse-V3AE"),
    (0xd84, "Neoverse-V3"),
    (0xd85, "Cortex-X925"),
    (0xd87, "Cortex-A725"),
    (0xd88, "Cortex-A520AE"),
    (0xd89, "Cortex-A720AE"),
    (0xd8e, "Neoverse-N3"),
    (0xd8f, "Cortex-A320"),
];

/// The name under a number in a table, from entry `i` on.
pub open spec fn name_in(t: Seq<(u16, &'static str)>, id: int, i: int) -> Option<Seq<char>>
    decreases t.len() - i,
{
    if i < 0 || i >= t.len() {
        None
    } else if t[i].0 == id {
        Some(t[i].1@)
    } else {
        name_in(t, id, i + 1)
    }
}

/// The name under a number in a table.
fn find_name(t: &[(u16, &'static str)], id: u16) -> (r: Option<&'static str>)
    ensures
        text::opt_str(r) == name_in(t@, id as int, 0),
{
    let mut i: usize = 0;
    while i < t.len()
        invariant
            i <= t@.len(),
            name_in(t@, id as int, 0) == name_in(t@, id as int, i as int),
        decreases t@.len() - i,
    {
        if t[i].0 == id {
            return Some(t[i].1);
        }
        i = i + 1;
    }
    None
}

/// A text without every repetition of a prefix.
pub open spec fn without_prefixes(s: Seq<char>, p: Seq<char>) -> Seq<char>
    decreases s.len(),
{
    if p.len() > 0 && text::starts(s, p) {
        without_prefixes(s.skip(p.len() as int), p)
    } else {
        s
    }
}

/// A number of sixteen bits in hexadecimal.
pub open spec fn hex16(s: Seq<char>) -> Option<int> {
    text::number(without_prefixes(text::trimmed(s), "0x"@), 16, 0xffff)
}

/// A text without every repetition of the mark of hexadecimal numbers.
fn strip_marks(cs: &[char]) -> (r: &[char])
    ensures
        r@ == without_prefixes(cs@, "0x"@),
    decreases cs@.len(),
{
    proof {
        reveal_strlit("0x");
    }
    match text::strip_prefix(cs, "0x") {
        Some(rest) => strip_marks(rest),
        None => cs,
    }
}

/// Reads a number of sixteen bits in hexadecimal.
fn parse_hex16(cs: &[char]) -> (r: Option<u16>)
    ensures
        match r {
            Some(v) => hex16(cs@) == Some(v as int),
            None => hex16(cs@) is None,
        },
{
    match text::parse_number(strip_marks(text::trim(cs)), 16, 0xffff) {
        Some(v) => Some(v as u16),
        None => None,
    }
}

/// The maker and the parts that the lines name so far.
pub struct ArmState {
    pub implementer: Option<int>,
    pub parts: Seq<int>,
}

/// What a line adds: the first maker stays, and each part counts once.
pub open spec fn arm_step(st: ArmState, line: Seq<char>) -> ArmState {
    match text::cut(line, ':') {
        None => st,
        Some((k, v)) => {
            let key = text::trimmed(k);
            if key == "CPU implementer"@ {
                ArmState {
                    implementer: match st.implementer {
                        Some(x) => Some(x),
                        None => hex16(v),
                    },
                    parts: st.parts,
                }
            } else if key == "CPU part"@ {
                match hex16(v) {
                    Some(p) => if st.parts.contains(p) {
                        st
                    } else {
                        ArmState { implementer: st.implementer, parts: st.parts.push(p) }
                    },
                    None => st,
                }
            } else {
                st
            }
        },
    }
}

/// The maker and the parts that the first `n` lines name.
pub open spec fn arm_run(ls: Seq<Seq<char>>, n: int) -> ArmState
    decreases n,
{
    if n <= 0 {
        ArmState { implementer: None, parts: seq![] }
    } else {
        arm_step(arm_run(ls, n - 1), ls[n - 1])
    }
}

/// The name of a maker.
pub open spec fn vendor_text(id: int) -> Seq<char> {
    match name_in(ARM_IMPLEMENTERS@, id, 0) {
        Some(n) => n,
        None => "implementer 0x"@ + text::zero_padded(text::written(id, 16), 2),
    }
}

/// The name of a part; only parts of the maker ARM have one.
pub open spec fn part_text(implementer: int, p: int) -> Seq<char> {
    if implementer == 0x41 && name_in(ARM_PARTS@, p, 0) is Some {
        name_in(ARM_PARTS@, p, 0)->0
    } else {
        "part 0x"@ + text::zero_padded(text::written(p, 16), 3)
    }
}

/// The names of parts.
pub open spec fn part_texts(implementer: int, parts: Seq<int>) -> Seq<Seq<char>> {
    Seq::new(parts.len(), |i: int| part_text(implementer, parts[i]))
}

/// The model that the maker and the parts of an ARM processor give; empty where a
/// text does not name both.
pub open spec fn arm_text(s: Seq<char>) -> Seq<char> {
    let ls = text::lines(s);
    let st = arm_run(ls, ls.len() as int);
    match st.implementer {
        None => seq![],
        Some(id) => if st.parts.len() == 0 {
            seq![]
        } else {
            vendor_text(id) + " "@ + text::joined(part_texts(id, st.parts), " + "@)
        },
    }
}

/// The numbers that a vector holds.
pub open spec fn ints16(v: Seq<u16>) -> Seq<int> {
    Seq::new(v.len(), |i: int| v[i] as int)
}

/// Whether a vector holds a number.
fn has16(v: &Vec<u16>, x: u16) -> (r: bool)
    ensures
        r == ints16(v@).contains(x as int),
{
    let mut i: usize = 0;
    while i < v.len()
        invariant
            i <= v@.len(),
            forall|j: int| 0 <= j < i ==> #[trigger] v@[j] != x,
        decreases v@.len() - i,
    {
        if v[i] == x {
            assert(ints16(v@)[i as int] == x);
            return true;
        }
        i = i + 1;
    }
    proof {
        if ints16(v@).contains(x as int) {
            let j = choose|j: int| 0 <= j < ints16(v@).len() && ints16(v@)[j] == x;
            assert(v@[j] == x);
        }
    }
    false
}

/// The name of a part.
fn part_name(implementer: u16, p: u16) -> (r: String)
    ensures
        r@ == part_text(implementer as int, p as int),
{
    if implementer == 0x41 {
        if let Some(n) = find_name(&ARM_PARTS, p) {
            return n.to_owned();
        }
    }
    let mut s = "part 0x".to_owned();
    text::push_padded(&mut s, p as u64, 16, 3);
    s
}

/// The model of an ARM processor.
pub fn arm_model(s: &str) -> (r: String)
    ensures
        r@ == arm_text(s@),
{
    let cs = text::chars_of(s);
    let ls = text::lines_of(&cs);
    let ghost all = text::lines(s@);
    let mut implementer: Option<u16> = None;
    let mut parts: Vec<u16> = Vec::new();
    let mut i: usize = 0;
    assert(ints16(parts@) =~= Seq::<int>::empty());
    while i < ls.len()
        invariant
            i <= ls@.len(),
            all == text::texts(ls@),
            arm_run(all, i as int) == (ArmState {
                implementer: match implementer {
                    Some(x) => Some(x as int),
                    None => None,
                },
                parts: ints16(parts@),
            }),
        decreases ls@.len() - i,
    {
        assert(all[i as int] == ls@[i as int]@);
        let line = ls[i];
        i = i + 1;
        let (k, v) = match text::split_once(line, ':') {
            Some(kv) => kv,
            None => continue ,
        };
        assert(text::cut(line@, ':') == Some((k@, v@)));
        let key = text::trim(k);
        if text::same(key, "CPU implementer") {
            if implementer.is_none() {
                implementer = parse_hex16(v);
            }
        } else if text::same(key, "CPU part") {
            if let Some(p) = parse_hex16(v) {
                if !has16(&parts, p) {
                    let ghost before = ints16(parts@);
                    parts.push(p);
                    assert(ints16(parts@) =~= before.push(p as int));
                }
            }
        }
    }
    let id = match implementer {
        Some(x) => x,
        None => return String::new(),
    };
    if parts.len() == 0 {
        assert(ints16(parts@).len() == 0);
        return String::new();
    }
    let mut out = match find_name(&ARM_IMPLEMENTERS, id) {
        Some(n) => n.to_owned(),
        None => {
            let mut t = "implementer 0x".to_owned();
            text::push_padded(&mut t, id as u64, 16, 2);
            t
        },
    };
    let ghost ps = ints16(parts@);
    let mut named: Vec<String> = Vec::new();
    let mut j: usize = 0;
    while j < parts.len()
        invariant
            j <= parts@.len(),
            ps == ints16(parts@),
            text::strings(named@) == part_texts(id as int, ps).take(j as int),
        decreases parts@.len() - j,
    {
        let ghost before = text::strings(named@);
        named.push(part_name(id, parts[j]));
        assert(text::strings(named@) =~= before.push(part_text(id as int, ps[j as int])));
        j = j + 1;
        assert(part_texts(id as int, ps).take(j as int) =~= part_texts(id as int, ps).take(
            j - 1,
        ).push(part_texts(id as int, ps)[j - 1]));
    }
    assert(part_texts(id as int, ps).take(j as int) =~= part_texts(id as int, ps));
    out.append(" ");
    out.append(text::join(&named, " + ").as_str());
    out
}

// ---------------------------------------------------------------------------
// Time that processors spent
// ---------------------------------------------------------------------------

/// The numbers among words; other words do not count.
pub open spec fn numbers(ws: Seq<Seq<char>>) -> Seq<int>
    decreases ws.len(),
{
    if ws.len() == 0 {
        seq![]
    } else {
        match text::number(ws.last(), 10, u64::MAX as int) {
            Some(n) => numbers(ws.drop_last()).push(n),
            None => numbers(ws.drop_last()),
        }
    }
}

/// The sum of numbers.
pub open spec fn sum(v: Seq<int>) -> int
    decreases v.len(),
{
    if v.len() == 0 {
        0
    } else {
        sum(v.drop_last()) + v.last()
    }
}

/// The time in all and the idle time that the numbers of a line give, where there
/// are at least five.
pub open spec fn times(nums: Seq<char>) -> Option<(int, int)> {
    let v = numbers(text::words(nums));
    if v.len() < 5 {
        None
    } else {
        Some((sum(v), v[3] + v[4]))
    }
}

/// The view of optional times.
pub open spec fn times_view(t: Option<(u128, u128)>) -> Option<(int, int)> {
    match t {
        Some((a, b)) => Some((a as int, b as int)),
        None => None,
    }
}

/// The numbers that a vector holds.
pub open spec fn ints64(v: Seq<u64>) -> Seq<int> {
    Seq::new(v.len(), |i: int| v[i] as int)
}

/// The time in all and the idle time.
fn read_times(nums: &[char]) -> (r: Option<(u128, u128)>)
    ensures
        times_view(r) == times(nums@),
{
    let ws = text::words_of(nums);
    let ghost all = text::words(nums@);
    let mut vals: Vec<u64> = Vec::new();
    let mut total: u128 = 0;
    let mut i: usize = 0;
    assert(ints64(vals@) =~= Seq::<int>::empty());
    assert(all.take(0) =~= Seq::<Seq<char>>::empty());
    while i < ws.len()
        invariant
            i <= ws@.len(),
            all == text::texts(ws@),
            vals@.len() <= i,
            ints64(vals@) == numbers(all.take(i as int)),
            total == sum(ints64(vals@)),
            total <= i * 0xffff_ffff_ffff_ffff,
        decreases ws@.len() - i,
    {
        assert(all[i as int] == ws@[i as int]@);
        let ghost next = all.take(i + 1);
        proof {
            assert(next.drop_last() =~= all.take(i as int));
            assert(next.last() == all[i as int]);
        }
        if let Some(n) = text::parse_number(ws[i], 10, u64::MAX) {
            let ghost before = ints64(vals@);
            vals.push(n);
            assert(i * 0xffff_ffff_ffff_ffff + 0xffff_ffff_ffff_ffff <= 0xffff_ffff_ffff_ffff
                * 0xffff_ffff_ffff_ffff) by (nonlinear_arith)
                requires
                    i < 0xffff_ffff_ffff_ffff,
            ;
            total = total + n as u128;
            proof {
                assert(ints64(vals@) =~= before.push(n as int));
                assert(before.push(n as int).drop_last() =~= before);
            }
        }
        i = i + 1;
    }
    assert(all.take(i as int) =~= all);
    if vals.len() < 5 {
        return None;
    }
    Some((total, vals[3] as u128 + vals[4] as u128))
}

/// The time of all processors together: the first line, after its label.
pub open spec fn total_times(s: Seq<char>) -> Option<(int, int)> {
    let ls = text::lines(s);
    if ls.len() == 0 {
        None
    } else {
        match text::after(ls[0], "cpu"@) {
            Some(rest) => times(text::trim_start_of(rest, text::spaces())),
            None => None,
        }
    }
}

/// The time in all and the idle time of all processors together.
pub fn cpu_jiffies(s: &str) -> (r: Option<(u128, u128)>)
    ensures
        times_view(r) == total_times(s@),
{
    let cs = text::chars_of(s);
    let ls = text::lines_of(&cs);
    let ghost all = text::lines(s@);
    if ls.len() == 0 {
        assert(all.len() == 0);
        return None;
    }
    assert(all[0] == ls@[0]@);
    match text::strip_prefix(ls[0], "cpu") {
        Some(rest) => read_times(text::trim_start(rest)),
        None => None,
    }
}

/// The time of one processor in what follows the label of its line: the label goes
/// on with a number and then white space.
pub open spec fn core_times(rest: Seq<char>) -> Option<(int, int)> {
    let n = text::lead(rest, text::non_spaces());
    if n == 0 || n >= rest.len() {
        None
    } else {
        times(rest.skip(n + 1))
    }
}

/// The times of the single processors from line `i` on, up to the first line
/// without the label.
pub open spec fn per_core(ls: Seq<Seq<char>>, i: int) -> Seq<(int, int)>
    decreases ls.len() - i,
{
    if i < 0 || i >= ls.len() {
        seq![]
    } else {
        match text::after(ls[i], "cpu"@) {
            None => seq![],
            Some(rest) => match core_times(rest) {
                Some(t) => seq![t] + per_core(ls, i + 1),
                None => per_core(ls, i + 1),
            },
        }
    }
}

/// The views of times.
pub open spec fn all_times(v: Seq<(u128, u128)>) -> Seq<(int, int)> {
    Seq::new(v.len(), |i: int| (v[i].0 as int, v[i].1 as int))
}

/// The time of one processor.
fn read_core(rest: &[char]) -> (r: Option<(u128, u128)>)
    ensures
        times_view(r) == core_times(rest@),
{
    let len: usize = rest.len();
    let mut n: usize = 0;
    while n < len && !text::space(rest[n])
        invariant
            len == rest@.len(),
            n <= len,
            forall|j: int| 0 <= j < n ==> text::non_spaces()(#[trigger] rest@[j]),
        decreases len - n,
    {
        n = n + 1;
    }
    proof {
        text::lemma_lead(rest@, text::non_spaces(), n as int);
    }
    if n == 0 || n >= len {
        None
    } else {
        read_times(slice_subrange(rest, n + 1, len))
    }
}

/// The times of the single processors.
pub fn cpu_jiffies_per_core(s: &str) -> (r: Vec<(u128, u128)>)
    ensures
        all_times(r@) == per_core(text::lines(s@), 0),
{
    let cs = text::chars_of(s);
    let ls = text::lines_of(&cs);
    let ghost all = text::lines(s@);
    let mut out: Vec<(u128, u128)> = Vec::new();
    let mut i: usize = 0;
    assert(all_times(out@) + per_core(all, 0) =~= per_core(all, 0));
    while i < ls.len()
        invariant
            i <= ls@.len(),
            all == text::texts(ls@),
            all == text::lines(s@),
            all_times(out@) + per_core(all, i as int) == per_core(all, 0),
        decreases ls@.len() - i,
    {
        assert(all[i as int] == ls@[i as int]@);
        let rest = match text::strip_prefix(ls[i], "cpu") {
            Some(r) => r,
            None => {
                assert(all_times(out@) + per_core(all, i as int) =~= all_times(out@));
                return out;
            },
        };
        if let Some(t) = read_core(rest) {
            let ghost before = all_times(out@);
            out.push(t);
            proof {
                let tv = (t.0 as int, t.1 as int);
                assert(all_times(out@) =~= before.push(tv));
                assert(before.push(tv) + per_core(all, i + 1) =~= before + (seq![tv] + per_core(
                    all,
                    i + 1,
                )));
            }
        }
        i = i + 1;
    }
    assert(all_times(out@) + per_core(all, i as int) =~= all_times(out@));
    out
}

/// The words after the last closing bracket, which ends the name of a process.
pub open spec fn stat_words(stat: Seq<char>) -> Option<Seq<Seq<char>>> {
    let i = text::last(stat, ')');
    if i < 0 {
        None
    } else {
        Some(text::words(stat.skip(i + 1)))
    }
}

/// The number in a field of the status line of a process.
pub open spec fn stat_field(stat: Seq<char>, k: int) -> Option<int> {
    match stat_words(stat) {
        Some(w) => if k < w.len() {
            text::number(w[k], 10, u64::MAX as int)
        } else {
            None
        },
        None => None,
    }
}

/// The number in a field of the status line of a process.
fn read_stat_field(stat: &[char], k: usize) -> (r: Option<u64>)
    ensures
        text::opt_int(r) == stat_field(stat@, k as int),
{
    let n: usize = stat.len();
    let i = match text::rfind(stat, ')') {
        Some(i) => i,
        None => return None,
    };
    let rest = slice_subrange(stat, i + 1, n);
    let w = text::words_of(rest);
    let ghost all = text::words(rest@);
    assert(all.len() == w@.len());
    if k < w.len() {
        assert(all[k as int] == w@[k as int]@);
        text::parse_number(w[k], 10, u64::MAX)
    } else {
        None
    }
}

/// The time that a process spent, from its status line.
pub open spec fn spent(stat: Seq<char>) -> Option<int> {
    match (stat_field(stat, 11), stat_field(stat, 12)) {
        (Some(u), Some(s)) => Some(u + s),
        _ => None,
    }
}

/// The time that a process spent, from its status line.
pub fn cpu_jiffies_of_stat(stat: &str) -> (r: Option<u128>)
    ensures
        match r {
            Some(v) => spent(stat@) == Some(v as int),
            None => spent(stat@) is None,
        },
{
    let cs = text::chars_of(stat);
    let u = match read_stat_field(&cs, 11) {
        Some(u) => u,
        None => return None,
    };
    let s = match read_stat_field(&cs, 12) {
        Some(s) => s,
        None => return None,
    };
    Some(u as u128 + s as u128)
}

/// For how many seconds a process has run, from its status line and the time that
/// the machine has been up; a hundred ticks make a second.
pub fn process_uptime(stat: &str, uptime_secs: u64) -> (r: Option<u64>)
    ensures
        text::opt_int(r) == match stat_field(stat@, 19) {
            Some(ticks) => Some(config::max_of(uptime_secs - ticks / 100, 0)),
            None => None,
        },
{
    let cs = text::chars_of(stat);
    match read_stat_field(&cs, 19) {
        Some(ticks) => {
            let started = ticks / 100;
            if uptime_secs >= started {
                Some(uptime_secs - started)
            } else {
                Some(0)
            }
        },
        None => None,
    }
}

// ---------------------------------------------------------------------------
// Frequencies
// ---------------------------------------------------------------------------

/// The number of a processor in the name of its directory.
pub open spec fn cpu_number(name: Seq<char>) -> Option<int> {
    match text::after(name, "cpu"@) {
        Some(rest) => text::number(rest, 10, usize::MAX as int),
        None => None,
    }
}

/// The number of a processor in the name of its directory.
pub fn cpu_index(name: &str) -> (r: Option<usize>)
    ensures
        match r {
            Some(n) => cpu_number(name@) == Some(n as int),
            None => cpu_number(name@) is None,
        },
{
    let cs = text::chars_of(name);
    match text::strip_prefix(&cs, "cpu") {
        Some(rest) => match text::parse_number(rest, 10, usize::MAX as u64) {
            Some(n) => Some(n as usize),
            None => None,
        },
        None => None,
    }
}

/// What the directory of a processor holds, in kHz.
#[derive(Debug, Clone, Copy, PartialEq, Eq, Structural)]
pub struct CpuFreq {
    pub index: usize,
    pub scaling_cur: Option<u32>,
    pub cpuinfo_cur: Option<u32>,
    pub cpuinfo_min: Option<u32>,
    pub scaling_min: Option<u32>,
    pub cpuinfo_max: Option<u32>,
    pub scaling_max: Option<u32>,
}

/// The first of two optional values that is there.
pub open spec fn either<T>(a: Option<T>, b: Option<T>) -> Option<T> {
    match a {
        Some(x) => Some(x),
        None => b,
    }
}

/// The lowest and the highest frequency of the first `n` processors.
pub open spec fn freq_bounds(v: Seq<CpuFreq>, n: int) -> (Option<u32>, Option<u32>)
    decreases n,
{
    if n <= 0 {
        (None, None)
    } else {
        let (lo, hi) = freq_bounds(v, n - 1);
        let e = v[n - 1];
        (
            match (either(e.cpuinfo_min, e.scaling_min), lo) {
                (Some(x), Some(l)) => Some(
                    if x < l {
                        x
                    } else {
                        l
                    },
                ),
                (Some(x), None) => Some(x),
                (None, _) => lo,
            },
            match (either(e.cpuinfo_max, e.scaling_max), hi) {
                (Some(x), Some(h)) => Some(
                    if x > h {
                        x
                    } else {
                        h
                    },
                ),
                (Some(x), None) => Some(x),
                (None, _) => hi,
            },
        )
    }
}

/// The range of the frequencies of processors, where both ends are known and the
/// highest is not zero.
pub open spec fn freq_range(v: Seq<CpuFreq>) -> Option<(u32, u32)> {
    match freq_bounds(v, v.len() as int) {
        (Some(lo), Some(hi)) => if hi > 0 {
            Some((lo, hi))
        } else {
            None
        },
        _ => None,
    }
}

/// The first of two optional values that is there.
fn or_else(a: Option<u32>, b: Option<u32>) -> (r: Option<u32>)
    ensures
        r == either(a, b),
{
    match a {
        Some(x) => Some(x),
        None => b,
    }
}

/// The range of the frequencies of processors.
fn scan_freq_range(v: &[CpuFreq]) -> (r: Option<(u32, u32)>)
    ensures
        r == freq_range(v@),
{
    let mut lo: Option<u32> = None;
    let mut hi: Option<u32> = None;
    let mut i: usize = 0;
    while i < v.len()
        invariant
            i <= v@.len(),
            (lo, hi) == freq_bounds(v@, i as int),
        decreases v@.len() - i,
    {
        let e = v[i];
        if let Some(x) = or_else(e.cpuinfo_min, e.scaling_min) {
            lo = match lo {
                Some(l) => if x < l {
                    Some(x)
                } else {
                    Some(l)
                },
                None => Some(x),
            };
        }
        if let Some(x) = or_else(e.cpuinfo_max, e.scaling_max) {
            hi = match hi {
                Some(h) => if x > h {
                    Some(x)
                } else {
                    Some(h)
                },
                None => Some(x),
            };
        }
        i = i + 1;
    }
    match lo {
        Some(l) => match hi {
            Some(h) => if h > 0 {
                Some((l, h))
            } else {
                None
            },
            None => None,
        },
        None => None,
    }
}

/// The range of the frequencies: of the processors of this machine and, where they
/// do not tell, of those that a host shares.
pub fn cpu_freq_range_khz(own: &[CpuFreq], host: Option<&[CpuFreq]>) -> (r: Option<(u32, u32)>)
    ensures
        r == match freq_range(own@) {
            Some(x) => Some(x),
            None => match host {
                Some(h) => freq_range(h@),
                None => None,
            },
        },
{
    match scan_freq_range(own) {
        Some(x) => Some(x),
        None => match host {
            Some(h) => scan_freq_range(h),
            None => None,
        },
    }
}

/// Whether the processors of a list stand in the order of their numbers, each once.
pub open spec fn ordered(v: Seq<(usize, u32)>) -> bool {
    forall|i: int, j: int|
        0 <= i < j < v.len() ==> (#[trigger] v[i]).0 < (#[trigger] v[j]).0
}

/// The frequency that the first `n` entries give the processors; the last entry of
/// a processor counts.
pub open spec fn freq_map(v: Seq<CpuFreq>, n: int) -> Map<usize, u32>
    decreases n,
{
    if n <= 0 {
        Map::empty()
    } else {
        match either(v[n - 1].scaling_cur, v[n - 1].cpuinfo_cur) {
            Some(k) => freq_map(v, n - 1).insert(v[n - 1].index, k),
            None => freq_map(v, n - 1),
        }
    }
}

/// A list as a map.
pub open spec fn as_map(v: Seq<(usize, u32)>) -> Map<usize, u32>
    decreases v.len(),
{
    if v.len() == 0 {
        Map::empty()
    } else {
        as_map(v.drop_last()).insert(v.last().0, v.last().1)
    }
}

/// What a list in order holds.
proof fn lemma_as_map(v: Seq<(usize, u32)>)
    requires
        ordered(v),
    ensures
        forall|i: int| 0 <= i < v.len() ==> as_map(v).contains_key((#[trigger] v[i]).0) && as_map(v)[v[i].0]
            == v[i].1,
        forall|k: usize| #[trigger] as_map(v).contains_key(k) ==> exists|i: int|
            0 <= i < v.len() && (#[trigger] v[i]).0 == k,
    decreases v.len(),
{
    if v.len() > 0 {
        let w = v.drop_last();
        assert(ordered(w));
        lemma_as_map(w);
        assert forall|i: int| 0 <= i < v.len() implies as_map(v).contains_key((#[trigger] v[i]).0)
            && as_map(v)[v[i].0] == v[i].1 by {
            if i < w.len() {
                assert(w[i] == v[i]);
                assert(v[i].0 < v[v.len() - 1].0);
            }
        }
        assert forall|k: usize| #[trigger] as_map(v).contains_key(k) implies exists|i: int|
            0 <= i < v.len() && (#[trigger] v[i]).0 == k by {
            if k == v.last().0 {
                assert(v[v.len() - 1].0 == k);
            } else {
                assert(as_map(w).contains_key(k));
                let i = choose|i: int| 0 <= i < w.len() && (#[trigger] w[i]).0 == k;
                assert(w[i] == v[i]);
            }
        }
    }
}

/// Puts a frequency into a list in order.
fn put_ordered(v: &mut Vec<(usize, u32)>, key: usize, val: u32)
    requires
        ordered(old(v)@),
    ensures
        ordered(final(v)@),
        as_map(final(v)@) == as_map(old(v)@).insert(key, val),
{
    let ghost before = v@;
    let mut i: usize = 0;
    while i < v.len() && v[i].0 < key
        invariant
            v@ == before,
            i <= v@.len(),
            forall|j: int| 0 <= j < i ==> (#[trigger] v@[j]).0 < key,
        decreases v@.len() - i,
    {
        i = i + 1;
    }
    if i < v.len() && v[i].0 == key {
        v.set(i, (key, val));
        proof {
            assert forall|a: int, b: int| 0 <= a < b < v@.len() implies (#[trigger] v@[a]).0 < (
            #[trigger] v@[b]).0 by {
                assert(before[a].0 < before[b].0);
            }
        }
    } else {
        v.insert(i, (key, val));
        proof {
            assert forall|a: int, b: int| 0 <= a < b < v@.len() implies (#[trigger] v@[a]).0 < (
            #[trigger] v@[b]).0 by {
                let x = if a < i { a } else { a - 1 };
                let y = if b < i { b } else { b - 1 };
                if a != i && b != i {
                    assert(before[x].0 < before[y].0);
                } else if a == i {
                    assert(before[i as int].0 <= before[y].0) by {
                        if y > i {
                            assert(before[i as int].0 < before[y].0);
                        }
                    }
                }
            }
        }
    }
    proof {
        lemma_as_map(before);
        lemma_as_map(v@);
        assert(v@[i as int] == (key, val));
        assert(as_map(v@) =~= as_map(before).insert(key, val)) by {
            assert forall|k: usize| as_map(v@).contains_key(k) == as_map(before).insert(
                key,
                val,
            ).contains_key(k) by {
                if as_map(v@).contains_key(k) && k != key {
                    let j = choose|j: int| 0 <= j < v@.len() && (#[trigger] v@[j]).0 == k;
                    if v@.len() == before.len() {
                        assert(before[j].0 == k);
                    } else {
                        assert(before[if j < i { j } else { j - 1 }].0 == k);
                    }
                }
                if as_map(before).contains_key(k) {
                    let j = choose|j: int| 0 <= j < before.len() && (#[trigger] before[j]).0 == k;
                    if v@.len() == before.len() {
                        assert(v@[j].0 == k);
                    } else {
                        assert(v@[if j < i { j } else { j + 1 }].0 == k);
                    }
                }
            }
            assert forall|k: usize| as_map(v@).contains_key(k) implies as_map(v@)[k] == as_map(
                before,
            ).insert(key, val)[k] by {
                let j = choose|j: int| 0 <= j < v@.len() && (#[trigger] v@[j]).0 == k;
                if k != key {
                    let x = if v@.len() == before.len() || j < i { j } else { j - 1 };
                    assert(before[x] == v@[j]);
                }
            }
        }
    }
}

/// The current frequencies of processors, in the order of their numbers.
fn scan_freqs(v: &[CpuFreq]) -> (r: Vec<(usize, u32)>)
    ensures
        ordered(r@),
        as_map(r@) == freq_map(v@, v@.len() as int),
{
    let mut out: Vec<(usize, u32)> = Vec::new();
    let mut i: usize = 0;
    while i < v.len()
        invariant
            i <= v@.len(),
            ordered(out@),
            as_map(out@) == freq_map(v@, i as int),
        decreases v@.len() - i,
    {
        if let Some(k) = or_else(v[i].scaling_cur, v[i].cpuinfo_cur) {
            put_ordered(&mut out, v[i].index, k);
        }
        i = i + 1;
    }
    out
}

/// The values of a list in order.
pub open spec fn values(v: Seq<(usize, u32)>) -> Seq<u32> {
    Seq::new(v.len(), |i: int| v[i].1)
}

/// Whether values are those of a map in the order of its keys.
pub open spec fn in_order(vals: Seq<u32>, m: Map<usize, u32>) -> bool {
    exists|l: Seq<(usize, u32)>| ordered(l) && #[trigger] as_map(l) == m && values(l) == vals
}

/// The characters between a label and its value.
pub open spec fn label_end() -> spec_fn(char) -> bool {
    |c: char| c == ':' || c == ' ' || c == '\t'
}

/// Removes what stands between a label and its value.
fn past_label(cs: &[char]) -> (r: &[char])
    ensures
        r@ == text::trim_start_of(cs@, label_end()),
{
    let mut i: usize = 0;
    while i < cs.len() && (cs[i] == ':' || cs[i] == ' ' || cs[i] == '\t')
        invariant
            i <= cs@.len(),
            forall|j: int| 0 <= j < i ==> label_end()(#[trigger] cs@[j]),
        decreases cs@.len() - i,
    {
        i = i + 1;
    }
    proof {
        text::lemma_lead(cs@, label_end(), i as int);
    }
    slice_subrange(cs, i, cs.len())
}

/// The frequencies in the first `n` lines of a listing of processors, as they are written.
pub open spec fn mhz_run(ls: Seq<Seq<char>>, n: int) -> Seq<Seq<char>>
    decreases n,
{
    if n <= 0 {
        seq![]
    } else {
        let prev = mhz_run(ls, n - 1);
        match text::after(ls[n - 1], "cpu MHz"@) {
            Some(rest) => prev.push(text::trimmed(text::trim_start_of(rest, label_end()))),
            None => prev,
        }
    }
}

/// The frequencies in a listing of processors, in MHz, as they are written.
pub fn cpuinfo_mhz(s: &str) -> (r: Vec<String>)
    ensures
        text::strings(r@) == mhz_run(text::lines(s@), text::lines(s@).len() as int),
{
    let cs = text::chars_of(s);
    let ls = text::lines_of(&cs);
    let ghost all = text::lines(s@);
    let mut out: Vec<String> = Vec::new();
    let mut i: usize = 0;
    assert(text::strings(out@) =~= Seq::<Seq<char>>::empty());
    while i < ls.len()
        invariant
            i <= ls@.len(),
            all == text::texts(ls@),
            text::strings(out@) == mhz_run(all, i as int),
        decreases ls@.len() - i,
    {
        assert(all[i as int] == ls@[i as int]@);
        if let Some(rest) = text::strip_prefix(ls[i], "cpu MHz") {
            let t = text::trim(past_label(rest));
            let ghost before = text::strings(out@);
            out.push(text::str_of(t));
            assert(text::strings(out@) =~= before.push(t@));
        }
        i = i + 1;
    }
    out
}

/// The current frequencies of the processors of one directory, in the order of
/// their numbers.
pub fn scan_cpu_freqs_khz(v: &[CpuFreq]) -> (r: Vec<u32>)
    ensures
        in_order(r@, freq_map(v@, v@.len() as int)),
{
    let per = scan_freqs(v);
    let mut out: Vec<u32> = Vec::new();
    let mut i: usize = 0;
    while i < per.len()
        invariant
            i <= per@.len(),
            out@ == values(per@).take(i as int),
        decreases per@.len() - i,
    {
        out.push(per[i].1);
        i = i + 1;
        assert(out@ =~= values(per@).take(i as int));
    }
    assert(out@ =~= values(per@));
    out
}

/// Whether frequencies are those that are shown: the own ones, else those in the listing
/// of the processors, else those that a host shares.
pub open spec fn freqs_shown(
    r: Seq<u32>,
    own: Seq<CpuFreq>,
    listing: Seq<u32>,
    host: Option<Seq<CpuFreq>>,
) -> bool {
    exists|o: Seq<u32>| #[trigger]
        in_order(o, freq_map(own, own.len() as int)) && if o.len() > 0 {
            r == o
        } else if listing.len() > 0 {
            r == listing
        } else {
            match host {
                Some(h) => in_order(r, freq_map(h, h.len() as int)),
                None => r.len() == 0,
            }
        }
}

/// The current frequencies of the processors, in kHz: the own ones, else those in the
/// listing of the processors, else those that a host shares.
pub fn cpu_freqs_khz(own: &[CpuFreq], listing: &[u32], host: Option<&[CpuFreq]>) -> (r: Vec<u32>)
    ensures
        freqs_shown(
            r@,
            own@,
            listing@,
            match host {
                Some(h) => Some(h@),
                None => None,
            },
        ),
{
    let o = scan_cpu_freqs_khz(own);
    let ghost kept = o@;
    assert(in_order(kept, freq_map(own@, own@.len() as int)));
    if o.len() > 0 {
        return o;
    }
    if listing.len() > 0 {
        let mut out: Vec<u32> = Vec::new();
        let mut i: usize = 0;
        while i < listing.len()
            invariant
                i <= listing@.len(),
                out@ == listing@.take(i as int),
            decreases listing@.len() - i,
        {
            out.push(listing[i]);
            i = i + 1;
            assert(out@ =~= listing@.take(i as int));
        }
        assert(out@ =~= listing@);
        return out;
    }
    match host {
        Some(h) => scan_cpu_freqs_khz(h),
        None => Vec::new(),
    }
}

// ---------------------------------------------------------------------------
// Temperatures
// ---------------------------------------------------------------------------

/// Sensors that are known to be those of processors.
pub const CPU_ZONES: [&'static str; 6] = [
    "cpu-thermal",
    "x86_pkg_temp",
    "coretemp",
    "soc_thermal",
    "cpu_thermal",
    "cpu",
];

/// How the names of other sensors start.
pub const NOT_CPU: [&'static str; 12] = [
    "acpitz",
    "iwlwifi",
    "nvme",
    "amdgpu",
    "radeon",
    "nouveau",
    "pch_",
    "wlan",
    "battery",
    "sd",
    "disk",
    "gpu",
];

/// What the names of sensors of processors often hold.
pub const CPU_ISH: [&'static str; 6] = ["cpu", "pkg_temp", "coretemp", "processor", "tcpu", "soc"];

/// How likely a sensor is one of a processor: a known name, else the start of
/// another sensor's name, else a part of a processor's.
pub open spec fn zone_score(zone: Seq<char>) -> int {
    let t = text::lowered(text::trimmed(zone));
    if exists|i: int| 0 <= i < 6 && (#[trigger] CPU_ZONES@[i])@ == t {
        1000
    } else if exists|i: int| 0 <= i < 12 && text::starts(t, (#[trigger] NOT_CPU@[i])@) {
        0
    } else if exists|i: int| 0 <= i < 6 && text::holds(t, (#[trigger] CPU_ISH@[i])@) {
        50
    } else {
        0
    }
}

/// How likely a sensor is one of a processor.
pub fn thermal_score(zone: &str) -> (r: u32)
    ensures
        r == zone_score(zone@),
{
    let cs = text::chars_of(zone);
    let t = text::to_lower(text::trim(&cs));
    let ghost tv = text::lowered(text::trimmed(zone@));
    let mut i: usize = 0;
    while i < 6
        invariant
            i <= 6,
            t@ == tv,
            tv == text::lowered(text::trimmed(zone@)),
            forall|j: int| 0 <= j < i ==> (#[trigger] CPU_ZONES@[j])@ != tv,
        decreases 6 - i,
    {
        if text::same(&t, CPU_ZONES[i]) {
            assert(CPU_ZONES@[i as int]@ == tv);
            return 1000;
        }
        i = i + 1;
    }
    let mut j: usize = 0;
    while j < 12
        invariant
            j <= 12,
            t@ == tv,
            tv == text::lowered(text::trimmed(zone@)),
            forall|k: int| 0 <= k < 6 ==> (#[trigger] CPU_ZONES@[k])@ != tv,
            forall|k: int| 0 <= k < j ==> !text::starts(tv, (#[trigger] NOT_CPU@[k])@),
        decreases 12 - j,
    {
        if text::starts_with(&t, NOT_CPU[j]) {
            assert(text::starts(tv, NOT_CPU@[j as int]@));
            return 0;
        }
        j = j + 1;
    }
    let mut k: usize = 0;
    while k < 6
        invariant
            k <= 6,
            t@ == tv,
            tv == text::lowered(text::trimmed(zone@)),
            forall|x: int| 0 <= x < 6 ==> (#[trigger] CPU_ZONES@[x])@ != tv,
            forall|x: int| 0 <= x < 12 ==> !text::starts(tv, (#[trigger] NOT_CPU@[x])@),
            forall|x: int| 0 <= x < k ==> !text::holds(tv, (#[trigger] CPU_ISH@[x])@),
        decreases 6 - k,
    {
        if text::contains(&t, CPU_ISH[k]) {
            assert(text::holds(tv, CPU_ISH@[k as int]@));
            return 50;
        }
        k = k + 1;
    }
    0
}

/// A temperature in thousandths of a degree: small readings are degrees. One that
/// lies outside -50 to 200 degrees is none.
pub open spec fn millidegrees(raw: int) -> Option<int> {
    let c = if -1000 < raw < 1000 {
        raw * 1000
    } else {
        raw
    };
    if -50_000 <= c <= 200_000 {
        Some(c)
    } else {
        None
    }
}

/// A temperature in thousandths of a degree.
pub fn temp_milli(raw: i64) -> (r: Option<i64>)
    ensures
        match r {
            Some(c) => millidegrees(raw as int) == Some(c as int),
            None => millidegrees(raw as int) is None,
        },
{
    let c: i64 = if -1000 < raw && raw < 1000 {
        raw * 1000
    } else {
        raw
    };
    if -50_000 <= c && c <= 200_000 {
        Some(c)
    } else {
        None
    }
}

/// A sensor and what it reads.
pub struct Zone {
    pub kind: String,
    pub raw: i64,
}

/// The score of a sensor that reads a temperature.
pub open spec fn usable_score(z: Zone) -> Option<int> {
    match millidegrees(z.raw as int) {
        Some(_) => Some(zone_score(z.kind@)),
        None => None,
    }
}

/// The sensor among the first `n` with the highest score; the first of those with
/// that score.
pub open spec fn best_zone(v: Seq<Zone>, n: int) -> Option<int>
    decreases n,
{
    if n <= 0 {
        None
    } else {
        let b = best_zone(v, n - 1);
        match usable_score(v[n - 1]) {
            None => b,
            Some(s) => match b {
                None => Some(n - 1),
                Some(i) => if s > usable_score(v[i])->0 {
                    Some(n - 1)
                } else {
                    Some(i)
                },
            },
        }
    }
}

/// The best sensor is one that reads a temperature.
proof fn lemma_best_zone(v: Seq<Zone>, n: int)
    requires
        0 <= n <= v.len(),
    ensures
        best_zone(v, n) matches Some(i) ==> 0 <= i < n && usable_score(v[i]) is Some,
    decreases n,
{
    if n > 0 {
        lemma_best_zone(v, n - 1);
    }
}

/// The sensor that most likely is one of a processor: where it stands, its score
/// and its temperature.
pub fn scan_thermal_best(v: &[Zone]) -> (r: Option<(usize, u32, i64)>)
    ensures
        match r {
            Some((i, score, milli)) => {
                &&& best_zone(v@, v@.len() as int) == Some(i as int)
                &&& i < v@.len()
                &&& zone_score(v@[i as int].kind@) == score
                &&& millidegrees(v@[i as int].raw as int) == Some(milli as int)
            },
            None => best_zone(v@, v@.len() as int) is None,
        },
{
    let mut best: Option<(usize, u32, i64)> = None;
    let mut n: usize = 0;
    while n < v.len()
        invariant
            n <= v@.len(),
            match best {
                Some((i, score, milli)) => {
                    &&& best_zone(v@, n as int) == Some(i as int)
                    &&& i < n
                    &&& zone_score(v@[i as int].kind@) == score
                    &&& millidegrees(v@[i as int].raw as int) == Some(milli as int)
                },
                None => best_zone(v@, n as int) is None,
            },
        decreases v@.len() - n,
    {
        if let Some(c) = temp_milli(v[n].raw) {
            let s = thermal_score(v[n].kind.as_str());
            best = match best {
                Some((i, score, milli)) => if s > score {
                    Some((n, s, c))
                } else {
                    Some((i, score, milli))
                },
                None => Some((n, s, c)),
            };
        }
        n = n + 1;
    }
    best
}

/// Where the temperature of the processors is taken from.
#[derive(Debug, Clone, Copy, PartialEq, Eq, Structural)]
pub enum TempSource {
    Zone,
    Chip,
    Host,
    Nothing,
}

/// Decides where the temperature is taken from: a sensor that is one of a
/// processor, else a chip, else any sensor, else a sensor that a host shares.
pub fn pick_temp(zone_score: Option<u32>, chip: bool, host: bool) -> (r: TempSource)
    ensures
        r == if zone_score matches Some(s) && s >= 50 {
            TempSource::Zone
        } else if chip {
            TempSource::Chip
        } else if zone_score is Some {
            TempSource::Zone
        } else if host {
            TempSource::Host
        } else {
            TempSource::Nothing
        },
{
    match zone_score {
        Some(s) => if s >= 50 || !chip {
            TempSource::Zone
        } else {
            TempSource::Chip
        },
        None => if chip {
            TempSource::Chip
        } else if host {
            TempSource::Host
        } else {
            TempSource::Nothing
        },
    }
}

/// Chips that measure the temperature of processors.
pub const CPU_CHIPS: [&'static str; 4] = ["coretemp", "k10temp", "zenpower", "cpu_thermal"];

/// A chip that measures, and what it reads, where it can be read.
pub struct Chip {
    pub name: String,
    pub raw: Option<i64>,
}

/// Whether a chip measures the temperature of processors.
pub open spec fn cpu_chip(name: Seq<char>) -> bool {
    exists|i: int| 0 <= i < 4 && (#[trigger] CPU_CHIPS@[i])@ == text::trimmed(name)
}

/// The temperature that a chip gives a processor.
pub open spec fn chip_reading(c: Chip) -> Option<int> {
    match c.raw {
        Some(raw) => if cpu_chip(c.name@) {
            millidegrees(raw as int)
        } else {
            None
        },
        None => None,
    }
}

/// The first chip from place `i` on that gives a temperature of a processor.
pub open spec fn first_chip(v: Seq<Chip>, i: int) -> Option<int>
    decreases v.len() - i,
{
    if i < 0 || i >= v.len() {
        None
    } else if chip_reading(v[i]) is Some {
        Some(i)
    } else {
        first_chip(v, i + 1)
    }
}

/// Whether a chip measures the temperature of processors.
fn is_cpu_chip(name: &str) -> (r: bool)
    ensures
        r == cpu_chip(name@),
{
    let cs = text::chars_of(name);
    let t = text::trim(cs.as_slice());
    let mut k: usize = 0;
    while k < 4
        invariant
            k <= 4,
            t@ == text::trimmed(name@),
            forall|j: int| 0 <= j < k ==> (#[trigger] CPU_CHIPS@[j])@ != t@,
        decreases 4 - k,
    {
        if text::same(t, CPU_CHIPS[k]) {
            return true;
        }
        k = k + 1;
    }
    false
}

/// The first chip that gives a temperature of a processor: where it stands, and the
/// temperature in thousandths of a degree.
pub fn chip_temp(v: &[Chip]) -> (r: Option<(usize, i64)>)
    ensures
        match r {
            Some((i, milli)) => {
                &&& first_chip(v@, 0) == Some(i as int)
                &&& i < v@.len()
                &&& chip_reading(v@[i as int]) == Some(milli as int)
            },
            None => first_chip(v@, 0) is None,
        },
{
    let mut i: usize = 0;
    while i < v.len()
        invariant
            i <= v@.len(),
            first_chip(v@, 0) == first_chip(v@, i as int),
        decreases v@.len() - i,
    {
        if let Some(raw) = v[i].raw {
            if is_cpu_chip(v[i].name.as_str()) {
                if let Some(c) = temp_milli(raw) {
                    return Some((i, c));
                }
            }
        }
        i = i + 1;
    }
    None
}

/// The temperature of the processors.
pub struct CpuTemp {
    /// In thousandths of a degree.
    pub milli: i64,
    /// What measured it.
    pub sensor: String,
}

/// A temperature and what measured it, as values.
pub open spec fn temp_view(t: Option<CpuTemp>) -> Option<(int, Seq<char>)> {
    match t {
        Some(x) => Some((x.milli as int, x.sensor@)),
        None => None,
    }
}

/// The temperature that the best sensor reads.
pub open spec fn zone_temp(v: Seq<Zone>) -> Option<(int, Seq<char>)> {
    match best_zone(v, v.len() as int) {
        Some(i) => Some((millidegrees(v[i].raw as int)->0, text::trimmed(v[i].kind@))),
        None => None,
    }
}

/// The temperature that the first chip of a processor reads.
pub open spec fn chips_temp(v: Seq<Chip>) -> Option<(int, Seq<char>)> {
    match first_chip(v, 0) {
        Some(i) => Some((chip_reading(v[i])->0, text::trimmed(v[i].name@))),
        None => None,
    }
}

/// The temperature that is shown: that of a sensor which is one of a processor, else of a
/// chip, else of any sensor, else of a sensor that a host shares.
pub open spec fn temp_shown(zones: Seq<Zone>, chips: Seq<Chip>, host: Option<Seq<Zone>>) -> Option<
    (int, Seq<char>),
> {
    let best = best_zone(zones, zones.len() as int);
    if best matches Some(i) && zone_score(zones[i].kind@) >= 50 {
        zone_temp(zones)
    } else if first_chip(chips, 0) is Some {
        chips_temp(chips)
    } else if best is Some {
        zone_temp(zones)
    } else {
        match host {
            Some(h) => zone_temp(h),
            None => None,
        }
    }
}

/// A text without the blanks around it.
fn bare(s: &str) -> (r: String)
    ensures
        r@ == text::trimmed(s@),
{
    let cs = text::chars_of(s);
    text::str_of(text::trim(cs.as_slice()))
}

/// The temperature of the processors, from the own sensors and chips and from the sensors
/// that a host shares.
pub fn cpu_temp(zones: &[Zone], chips: &[Chip], host: Option<&[Zone]>) -> (r: Option<CpuTemp>)
    ensures
        temp_view(r) == temp_shown(
            zones@,
            chips@,
            match host {
                Some(h) => Some(h@),
                None => None,
            },
        ),
{
    let zone = scan_thermal_best(zones);
    let chip = chip_temp(chips);
    let far = match host {
        Some(h) => scan_thermal_best(h),
        None => None,
    };
    let score = match zone {
        Some((_, s, _)) => Some(s),
        None => None,
    };
    match pick_temp(score, chip.is_some(), far.is_some()) {
        TempSource::Zone => match zone {
            Some((i, _, milli)) => Some(CpuTemp { milli, sensor: bare(zones[i].kind.as_str()) }),
            None => None,
        },
        TempSource::Chip => match chip {
            Some((i, milli)) => Some(CpuTemp { milli, sensor: bare(chips[i].name.as_str()) }),
            None => None,
        },
        TempSource::Host => match (host, far) {
            (Some(h), Some((i, _, milli))) => Some(
                CpuTemp { milli, sensor: bare(h[i].kind.as_str()) },
            ),
            _ => None,
        },
        TempSource::Nothing => None,
    }
}

// ---------------------------------------------------------------------------
// Network interfaces
// ---------------------------------------------------------------------------

/// A network interface.
#[derive(Debug, Clone)]
pub struct Iface {
    pub name: String,
    pub ipv4: Vec<String>,
    pub ipv6: Vec<String>,
    pub mac: Option<String>,
    pub gateway: Option<String>,
    pub driver: Option<String>,
    pub model: Option<String>,
    pub pci_id: Option<String>,
    pub speed: Option<u32>,
    pub duplex: Option<String>,
    pub link: Option<bool>,
}

/// The cards that drivers serve.
pub const NIC_MODELS: [(&'static str, &'static str); 51] = [
    ("igc", "Intel I225/I226 2.5GbE"),
    ("igb", "Intel I350/I210/I211 Gigabit"),
    ("e1000e", "Intel 8257x Gigabit"),
    ("e1000", "Intel PRO/1000"),
    ("ixgbe", "Intel X550/X540 10GbE"),
    ("i40e", "Intel X710/XL710 10/40GbE"),
    ("ice", "Intel E810 10/25/100GbE"),
    ("r8169", "Realtek RTL8168/RTL8111 Gigabit"),
    ("r8168", "Realtek RTL8168/RTL8111 Gigabit"),
    ("r8125", "Realtek RTL8125 2.5GbE"),
    ("r8126", "Realtek RTL8126 5GbE"),
    ("r8152", "Realtek RTL8152/RTL8153 USB 2.5GbE"),
    ("8139too", "Realtek RTL8139 Fast Ethernet"),
    ("8139cp", "Realtek RTL8139 Fast Ethernet"),
    ("atlantic", "Aquantia/Marvell AQtion Multi-Gig"),
    ("mvneta", "Marvell ARMADA NETA Gigabit"),
    ("mvpp2", "Marvell PP2 Gigabit"),
    ("mlx4_en", "Mellanox ConnectX-3"),
    ("mlx5_core", "Mellanox ConnectX-4/5/6/7"),
    ("bnx2", "Broadcom NetXtreme II"),
    ("bnx2x", "Broadcom NetXtreme II 10GbE"),
    ("tg3", "Broadcom Tigon3"),
    ("bnxt_en", "Broadcom NetXtreme-C/E 10/25/50/100GbE"),
    ("cxgb4", "Chelsio T4/T5/T6 10/25/40/100GbE"),
    ("cxgb4vf", "Chelsio T4/T5/T6 10/25/40/100GbE"),
    ("qede", "QLogic/Cavium FastLinQ 10/25/40/100GbE"),
    ("qed", "QLogic/Cavium FastLinQ 10/25/40/100GbE"),
    ("sfc", "Solarflare 10/25/40GbE"),
    ("nfp", "Netronome NFP 10/25/40/100GbE"),
    ("vmxnet3", "VMware vmxnet3"),
    ("vmxnet", "VMware vmxnet"),
    ("virtio_net", "Virtio virtual NIC"),
    ("pcnet32", "AMD PCnet32 (virtual)"),
    ("ne2k_pci", "NE2000 PCI (legacy VM)"),
    ("hv_netvsc", "Microsoft Hyper-V virtual NIC"),
    ("vif", "Xen virtual NIC"),
    ("xennet", "Xen virtual NIC"),
    ("xen_netfront", "Xen virtual NIC"),
    ("stmmac", "Synopsys DesignWare GMAC"),
    ("dwmac", "Synopsys DesignWare GMAC"),
    ("dwmac_socfpga", "Synopsys DesignWare GMAC"),
    ("dwmac_imx", "Synopsys DesignWare GMAC"),
    ("dwmac_sunxi", "Synopsys DesignWare GMAC"),
    ("dwmac_intel", "Synopsys DesignWare GMAC"),
    ("fec", "NXP/Freescale FEC"),
    ("macb", "Cadence MACB/GEM"),
    ("xgbe", "AMD 10GbE XGBE"),
    ("axgbe", "AMD 10GbE XGBE"),
    ("lan743x", "Microchip LAN7430 Gigabit"),
    ("jme", "JMicron JMC2xx Gigabit"),
    ("alx", "Qualcomm Atheros ALX"),
];

/// The card that a driver serves, from entry `i` of the table on.
pub open spec fn model_from(driver: Seq<char>, i: int) -> Option<Seq<char>>
    decreases 51 - i,
{
    if i < 0 || i >= 51 {
        None
    } else if NIC_MODELS@[i].0@ == driver {
        Some(NIC_MODELS@[i].1@)
    } else {
        model_from(driver, i + 1)
    }
}

/// The card that a driver serves.
pub fn driver_to_model(driver: &str) -> (r: Option<&'static str>)
    ensures
        text::opt_str(r) == model_from(driver@, 0),
{
    let mut i: usize = 0;
    while i < 51
        invariant
            i <= 51,
            model_from(driver@, 0) == model_from(driver@, i as int),
        decreases 51 - i,
    {
        let e = NIC_MODELS[i];
        if text::same_str(e.0, driver) {
            return Some(e.1);
        }
        i = i + 1;
    }
    None
}

/// Drivers of cards without a speed of their own, which count as 10 gigabit.
pub const VIRTUAL_NICS: [&'static str; 5] = [
    "virtio_net",
    "hv_netvsc",
    "vif",
    "xen_netfront",
    "vmxnet3",
];

/// Whether a driver is one of a card without a speed of its own.
pub open spec fn is_virtual(driver: Seq<char>) -> bool {
    exists|i: int| 0 <= i < 5 && (#[trigger] VIRTUAL_NICS@[i])@ == driver
}

/// The speed that a driver's card counts as.
pub fn virtual_nic_nominal_speed(driver: &str) -> (r: Option<u32>)
    ensures
        r == if is_virtual(driver@) {
            Some(10_000u32)
        } else {
            None::<u32>
        },
{
    let mut i: usize = 0;
    while i < 5
        invariant
            i <= 5,
            forall|j: int| 0 <= j < i ==> (#[trigger] VIRTUAL_NICS@[j])@ != driver@,
        decreases 5 - i,
    {
        if text::same_str(VIRTUAL_NICS[i], driver) {
            assert(VIRTUAL_NICS@[i as int]@ == driver@);
            return Some(10_000);
        }
        i = i + 1;
    }
    None
}

/// The speed of a link: what the card says, else what its driver counts as while
/// the link is up. A speed is taken modulo 2 to the 32.
pub open spec fn speed_of(raw: Option<i64>, link: Option<bool>, driver: Option<Seq<char>>) -> Option<
    u32,
> {
    if raw matches Some(s) && s > 0 {
        Some((raw->0 as int % 0x1_0000_0000) as u32)
    } else if link == Some(true) && driver is Some && is_virtual(driver->0) {
        Some(10_000)
    } else {
        None
    }
}

/// The speed of a link.
pub fn resolve_speed(raw: Option<i64>, link: Option<bool>, driver: Option<&str>) -> (r: Option<u32>)
    ensures
        r == speed_of(raw, link, text::opt_str(driver)),
{
    if let Some(s) = raw {
        if s > 0 {
            return Some((s % 0x1_0000_0000) as u32);
        }
    }
    match link {
        Some(up) => if up {
            match driver {
                Some(d) => virtual_nic_nominal_speed(d),
                None => None,
            }
        } else {
            None
        },
        None => None,
    }
}

/// What the kernel tells of the hardware behind an interface.
pub struct HwFacts {
    pub carrier: Option<u8>,
    pub duplex: Option<String>,
    pub speed: Option<i64>,
    pub has_device: bool,
    pub driver: Option<String>,
    pub vendor: Option<String>,
    pub device: Option<String>,
    pub uevent: Option<String>,
    pub tun: bool,
}

/// The hardware behind an interface.
pub struct HwView {
    pub link: Option<bool>,
    pub duplex: Option<Seq<char>>,
    pub driver: Option<Seq<char>>,
    pub pci_id: Option<Seq<char>>,
    pub model: Option<Seq<char>>,
    pub speed: Option<u32>,
}

/// The hardware part of an interface.
pub open spec fn hw_view(e: Iface) -> HwView {
    HwView {
        link: e.link,
        duplex: text::opt_string(e.duplex),
        driver: text::opt_string(e.driver),
        pci_id: text::opt_string(e.pci_id),
        model: text::opt_string(e.model),
        speed: e.speed,
    }
}

/// What the kernel's facts make of the hardware behind an interface. Without a
/// device there is no driver and no bus number, and the kind of the interface
/// stands for its model. A link whose speed the card does not say counts as full
/// duplex where the card does not say that either.
pub open spec fn hw_of(f: HwFacts, before: HwView) -> HwView {
    let link = match f.carrier {
        Some(c) => Some(c != 0),
        None => None,
    };
    let duplex = match text::opt_string(f.duplex) {
        Some(d) => if d == "unknown"@ {
            None
        } else {
            Some(d)
        },
        None => None,
    };
    let driver = if f.has_device {
        text::opt_string(f.driver)
    } else {
        before.driver
    };
    let speed = speed_of(f.speed, link, driver);
    let fell_back = speed is Some && (f.speed matches Some(s) ==> s <= 0);
    HwView {
        link,
        duplex: if fell_back && duplex is None {
            Some("full"@)
        } else {
            duplex
        },
        driver,
        pci_id: if f.has_device && f.vendor is Some && f.device is Some {
            Some(
                without_prefixes(f.vendor->0@, "0x"@) + ":"@ + without_prefixes(
                    f.device->0@,
                    "0x"@,
                ),
            )
        } else {
            before.pci_id
        },
        model: if f.has_device {
            match driver {
                Some(d) => model_from(d, 0),
                None => None,
            }
        } else {
            let kind = match text::opt_string(f.uevent) {
                Some(t) => labelled(text::lines(t), "DEVTYPE="@, 0),
                None => None,
            };
            if kind is Some {
                kind
            } else if f.tun {
                Some("tun"@)
            } else {
                None
            }
        },
        speed,
    }
}

/// A string without every repetition of the mark of hexadecimal numbers.
fn unmarked(s: &String) -> (r: String)
    ensures
        r@ == without_prefixes(s@, "0x"@),
{
    let cs = text::chars_of(s.as_str());
    text::str_of(strip_marks(&cs))
}

/// Fills in the hardware behind an interface.
pub fn fill_hw(e: &mut Iface, f: &HwFacts)
    ensures
        hw_view(*final(e)) == hw_of(*f, hw_view(*old(e))),
        final(e).name == old(e).name,
        final(e).ipv4 == old(e).ipv4,
        final(e).ipv6 == old(e).ipv6,
        final(e).mac == old(e).mac,
        final(e).gateway == old(e).gateway,
{
    e.link = match f.carrier {
        Some(c) => Some(c != 0),
        None => None,
    };
    e.duplex = match &f.duplex {
        Some(d) => if text::same_str(d.as_str(), "unknown") {
            None
        } else {
            Some(d.clone())
        },
        None => None,
    };
    if f.has_device {
        e.driver = match &f.driver {
            Some(d) => Some(d.clone()),
            None => None,
        };
        if let Some(v) = &f.vendor {
            if let Some(d) = &f.device {
                let mut id = unmarked(v);
                id.append(":");
                id.append(unmarked(d).as_str());
                e.pci_id = Some(id);
            }
        }
        e.model = match &e.driver {
            Some(d) => match driver_to_model(d.as_str()) {
                Some(m) => Some(m.to_owned()),
                None => None,
            },
            None => None,
        };
    } else {
        let kind = match &f.uevent {
            Some(t) => {
                let cs = text::chars_of(t.as_str());
                match find_label(&cs, "DEVTYPE=") {
                    Some(k) => Some(text::str_of(k)),
                    None => None,
                }
            },
            None => None,
        };
        e.model = match kind {
            Some(k) => Some(k),
            None => if f.tun {
                Some("tun".to_owned())
            } else {
                None
            },
        };
    }
    e.speed = match &e.driver {
        Some(d) => resolve_speed(f.speed, e.link, Some(d.as_str())),
        None => resolve_speed(f.speed, e.link, None),
    };
    let said = match f.speed {
        Some(s) => s > 0,
        None => false,
    };
    if e.speed.is_some() && !said && e.duplex.is_none() {
        e.duplex = Some("full".to_owned());
    }
}

/// The interface and the gateway that a line of the routing table gives a default
/// route through. The address stands there with its bytes reversed.
pub open spec fn route_line(line: Seq<char>) -> Option<(Seq<char>, u32)> {
    let w = text::words(line);
    if w.len() < 3 || w[1] != "00000000"@ {
        None
    } else {
        match text::number(w[2], 16, 0xffff_ffff) {
            Some(n) => Some((w[0], reversed(n as u32))),
            None => None,
        }
    }
}

/// A number with its four bytes in the opposite order.
pub open spec fn reversed(n: u32) -> u32 {
    ((n as int % 0x100) * 0x100_0000 + (n as int / 0x100 % 0x100) * 0x1_0000 + (n as int / 0x1_0000
        % 0x100) * 0x100 + n as int / 0x100_0000) as u32
}

/// The gateways that the lines up to `n` give the interfaces; the first of an
/// interface counts. The first line is a heading.
pub open spec fn gateways_run(ls: Seq<Seq<char>>, n: int) -> Map<Seq<char>, u32>
    decreases n,
{
    if n <= 1 {
        Map::empty()
    } else {
        let m = gateways_run(ls, n - 1);
        match route_line(ls[n - 1]) {
            Some((name, gw)) => if m.contains_key(name) {
                m
            } else {
                m.insert(name, gw)
            },
            None => m,
        }
    }
}

/// A number with its four bytes in the opposite order.
fn reverse_bytes(n: u32) -> (r: u32)
    ensures
        r == reversed(n),
{
    (n % 0x100) * 0x100_0000 + (n / 0x100 % 0x100) * 0x1_0000 + (n / 0x1_0000 % 0x100) * 0x100 + n
        / 0x100_0000
}

/// The gateways of the default routes, by interface.
pub fn default_gateways(s: &str) -> (r: Table<u32>)
    ensures
        r.wf(),
        r@ == gateways_run(text::lines(s@), text::lines(s@).len() as int),
{
    let cs = text::chars_of(s);
    let ls = text::lines_of(&cs);
    let ghost all = text::lines(s@);
    let mut out: Table<u32> = Table::new();
    let mut i: usize = 1;
    while i < ls.len()
        invariant
            1 <= i,
            i <= ls@.len() || i == 1,
            all == text::texts(ls@),
            out.wf(),
            out@ == gateways_run(all, i as int),
        decreases ls@.len() - i,
    {
        assert(all[i as int] == ls@[i as int]@);
        let w = text::words_of(ls[i]);
        let ghost ws = text::words(ls@[i as int]@);
        assert(ws.len() == w@.len());
        if w.len() >= 3 {
            assert(ws[0] == w@[0]@ && ws[1] == w@[1]@ && ws[2] == w@[2]@);
            if text::same(w[1], "00000000") {
                if let Some(n) = text::parse_number(w[2], 16, 0xffff_ffff) {
                    let name = text::str_of(w[0]);
                    if out.get(name.as_str()).is_none() {
                        out.insert(name, reverse_bytes(n as u32));
                    }
                }
            }
        }
        i = i + 1;
    }
    assert(gateways_run(all, all.len() as int) =~= out@);
    out
}

/// The name servers in the first `n` lines of a resolver's configuration.
pub open spec fn nameservers_run(ls: Seq<Seq<char>>, n: int) -> Seq<Seq<char>>
    decreases n,
{
    if n <= 0 {
        seq![]
    } else {
        let prev = nameservers_run(ls, n - 1);
        match text::after(text::trimmed(ls[n - 1]), "nameserver"@) {
            Some(rest) => if text::trimmed(rest).len() > 0 {
                prev.push(text::trimmed(rest))
            } else {
                prev
            },
            None => prev,
        }
    }
}

/// The name servers of the system.
pub fn resolv_nameservers(s: &str) -> (r: Vec<String>)
    ensures
        text::strings(r@) == nameservers_run(text::lines(s@), text::lines(s@).len() as int),
{
    let cs = text::chars_of(s);
    let ls = text::lines_of(&cs);
    let ghost all = text::lines(s@);
    let mut out: Vec<String> = Vec::new();
    let mut i: usize = 0;
    assert(text::strings(out@) =~= Seq::<Seq<char>>::empty());
    while i < ls.len()
        invariant
            i <= ls@.len(),
            all == text::texts(ls@),
            text::strings(out@) == nameservers_run(all, i as int),
        decreases ls@.len() - i,
    {
        assert(all[i as int] == ls@[i as int]@);
        if let Some(rest) = text::strip_prefix(text::trim(ls[i]), "nameserver") {
            let t = text::trim(rest);
            if t.len() > 0 {
                let ghost before = text::strings(out@);
                out.push(text::str_of(t));
                assert(text::strings(out@) =~= before.push(t@));
            }
        }
        i = i + 1;
    }
    out
}

// ---------------------------------------------------------------------------
// Processes
// ---------------------------------------------------------------------------

/// A process: its number and its name.
pub struct Proc {
    pub pid: u32,
    pub comm: String,
}

/// Whether a process has one of the names.
pub open spec fn named(p: Proc, names: Seq<&str>) -> bool {
    exists|i: int| 0 <= i < names.len() && (#[trigger] names[i])@ == text::trimmed(p.comm@)
}

/// Whether a process has one of the names.
fn has_name(p: &Proc, names: &[&str]) -> (r: bool)
    ensures
        r == named(*p, names@),
{
    let cs = text::chars_of(p.comm.as_str());
    let t = text::trim(&cs);
    let mut i: usize = 0;
    while i < names.len()
        invariant
            i <= names@.len(),
            t@ == text::trimmed(p.comm@),
            forall|j: int| 0 <= j < i ==> (#[trigger] names@[j])@ != t@,
        decreases names@.len() - i,
    {
        if text::same(t, names[i]) {
            assert(names@[i as int]@ == t@);
            return true;
        }
        i = i + 1;
    }
    false
}

/// The first process, from entry `i` on, that has one of the names.
pub open spec fn first_named(v: Seq<Proc>, names: Seq<&str>, i: int) -> Option<u32>
    decreases v.len() - i,
{
    if i < 0 || i >= v.len() {
        None
    } else if named(v[i], names) {
        Some(v[i].pid)
    } else {
        first_named(v, names, i + 1)
    }
}

/// The first process that has one of the names.
pub fn find_pid_by_name(v: &[Proc], names: &[&str]) -> (r: Option<u32>)
    ensures
        r == first_named(v@, names@, 0),
{
    let mut i: usize = 0;
    while i < v.len()
        invariant
            i <= v@.len(),
            first_named(v@, names@, 0) == first_named(v@, names@, i as int),
        decreases v@.len() - i,
    {
        if has_name(&v[i], names) {
            return Some(v[i].pid);
        }
        i = i + 1;
    }
    None
}

/// The numbers of the processes among the first `n` that have one of the names.
pub open spec fn named_pids(v: Seq<Proc>, names: Seq<&str>, n: int) -> Seq<u32>
    decreases n,
{
    if n <= 0 {
        seq![]
    } else if named(v[n - 1], names) {
        named_pids(v, names, n - 1).push(v[n - 1].pid)
    } else {
        named_pids(v, names, n - 1)
    }
}

/// Whether numbers stand in ascending order.
pub open spec fn ascending(v: Seq<u32>) -> bool {
    forall|i: int, j: int| 0 <= i < j < v.len() ==> #[trigger] v[i] <= #[trigger] v[j]
}

/// Puts a number into a vector in ascending order.
pub fn put_ascending(v: &mut Vec<u32>, x: u32)
    requires
        ascending(old(v)@),
    ensures
        ascending(final(v)@),
        final(v)@.to_multiset() == old(v)@.to_multiset().insert(x),
        final(v)@.len() == old(v)@.len() + 1,
{
    let ghost before = v@;
    let mut i: usize = 0;
    while i < v.len() && v[i] <= x
        invariant
            v@ == before,
            i <= v@.len(),
            forall|j: int| 0 <= j < i ==> #[trigger] v@[j] <= x,
        decreases v@.len() - i,
    {
        i = i + 1;
    }
    v.insert(i, x);
    proof {
        assert forall|a: int, b: int| 0 <= a < b < v@.len() implies #[trigger] v@[a]
            <= #[trigger] v@[b] by {
            let p = if a < i { a } else { a - 1 };
            let q = if b < i { b } else { b - 1 };
            if a != i && b != i {
                assert(before[p] <= before[q]);
            } else if a == i {
                assert(before[i as int] <= before[q]) by {
                    if q > i {
                        assert(before[i as int] <= before[q]);
                    }
                }
            }
        }
        before.to_multiset_ensures();
        assert(v@ =~= before.insert(i as int, x));
        vstd::seq_lib::to_multiset_insert(before, i as int, x);
    }
}

/// The numbers of the processes that have one of the names, in ascending order.
pub fn find_pids_by_name(v: &[Proc], names: &[&str]) -> (r: Vec<u32>)
    ensures
        ascending(r@),
        r@.to_multiset() == named_pids(v@, names@, v@.len() as int).to_multiset(),
{
    let mut out: Vec<u32> = Vec::new();
    let mut i: usize = 0;
    while i < v.len()
        invariant
            i <= v@.len(),
            ascending(out@),
            out@.to_multiset() == named_pids(v@, names@, i as int).to_multiset(),
        decreases v@.len() - i,
    {
        if has_name(&v[i], names) {
            let ghost prev = named_pids(v@, names@, i as int);
            put_ascending(&mut out, v[i].pid);
            proof {
                prev.to_multiset_ensures();
            }
        }
        i = i + 1;
    }
    out
}

// ---------------------------------------------------------------------------
// Clash
// ---------------------------------------------------------------------------

/// The question for the version of clash.
pub const CLASH_VERSION_REQUEST: &'static str =
    "GET /version HTTP/1.0\r\nHost: clash\r\nConnection: close\r\n\r\n";

/// How many bytes of the answer are read.
pub const CLASH_VERSION_MAX: usize = 8192;

/// The version of clash, and whether it is of the extended kind.
#[derive(Debug)]
pub struct ClashVersion {
    pub version: String,
    pub meta: bool,
}

/// The version of clash, as values.
pub open spec fn version_view(v: Option<ClashVersion>) -> Option<(Seq<char>, bool)> {
    match v {
        Some(c) => Some((c.version@, c.meta)),
        None => None,
    }
}

/// What stands behind the first empty line of an answer, up to the next one.
pub open spec fn second_part(s: Seq<char>) -> Option<Seq<char>> {
    match text::cut_str(s, "\r\n\r\n"@) {
        Some((_, rest)) => match text::cut_str(rest, "\r\n\r\n"@) {
            Some((part, _)) => Some(part),
            None => Some(rest),
        },
        None => None,
    }
}

/// The version that a value tells. One that does not tell whether it is of the
/// extended kind is not.
pub open spec fn version_of(v: Shape) -> Option<(Seq<char>, bool)> {
    match json::words_at(v, "version"@) {
        Some(w) => Some((w, json::truth_at(v, "meta"@) == Some(true))),
        None => None,
    }
}

/// The version that a value tells.
pub fn version_in(v: &Json) -> (r: Option<ClashVersion>)
    ensures
        version_view(r) == version_of(v@),
{
    match v.str_at("version") {
        Some(w) => Some(
            ClashVersion {
                version: w.to_owned(),
                meta: match v.bool_at("meta") {
                    Some(b) => b,
                    None => false,
                },
            },
        ),
        None => None,
    }
}

/// The version that an answer of clash tells.
pub fn clash_version(answer: &str) -> (r: Option<ClashVersion>)
    ensures
        version_view(r) == match second_part(answer@) {
            Some(body) => match json::json_value(text::trimmed(body)) {
                Some(v) => version_of(v),
                None => None,
            },
            None => None,
        },
{
    let cs = text::chars_of(answer);
    let rest = match text::split_once_str(cs.as_slice(), "\r\n\r\n") {
        Some((_, rest)) => rest,
        None => return None,
    };
    let body = match text::split_once_str(rest, "\r\n\r\n") {
        Some((part, _)) => part,
        None => rest,
    };
    let t = text::str_of(text::trim(body));
    match json::parse(t.as_str()) {
        Some(v) => version_in(&v),
        None => None,
    }
}

// ---------------------------------------------------------------------------
// Interfaces
// ---------------------------------------------------------------------------

/// An address of an interface.
pub enum LinkAddr {
    /// An IPv4 address and its mask, where it has one.
    V4(u32, Option<u32>),
    /// An IPv6 address and its mask, where it has one.
    V6(u128, Option<u128>),
    /// The address of the hardware.
    Hardware(Vec<u8>),
    /// None that is shown.
    Other,
}

/// What the kernel tells of an interface at a time.
pub struct IfEntry {
    pub name: String,
    pub loopback: bool,
    pub addr: LinkAddr,
}

/// How many binary digits of a number are ones.
pub open spec fn ones(n: int) -> int
    decreases n,
{
    if n <= 0 {
        0
    } else {
        n % 2 + ones(n / 2)
    }
}

/// How many binary digits of a number are ones.
fn count_ones(mask: u128) -> (r: u128)
    ensures
        r == ones(mask as int),
{
    let mut x: u128 = mask;
    let mut r: u128 = 0;
    while x > 0
        invariant
            r + ones(x as int) == ones(mask as int),
            r + x <= mask,
        decreases x,
    {
        r = r + x % 2;
        x = x / 2;
    }
    r
}

/// An IPv4 address with the length of its mask, which is whole where there is none.
pub open spec fn v4_link(ip: u32, mask: Option<u32>) -> Seq<char> {
    addr::ip_text(addr::IpAddr::V4(ip)) + "/"@ + text::decimal(
        match mask {
            Some(m) => ones(m as int),
            None => 32,
        },
    )
}

/// An IPv6 address with the length of its mask, which is whole where there is none.
pub open spec fn v6_link(ip: u128, mask: Option<u128>) -> Seq<char> {
    addr::ip_text(addr::IpAddr::V6(ip)) + "/"@ + text::decimal(
        match mask {
            Some(m) => ones(m as int),
            None => 128,
        },
    )
}

/// A byte in two digits of base 16.
pub open spec fn hex2(b: u8) -> Seq<char> {
    text::zero_padded(text::written(b as int, 16), 2)
}

/// The address of the hardware, where it has six bytes.
pub open spec fn mac_text(a: Seq<u8>) -> Option<Seq<char>> {
    if a.len() == 6 {
        Some(
            hex2(a[0]) + ":"@ + hex2(a[1]) + ":"@ + hex2(a[2]) + ":"@ + hex2(a[3]) + ":"@ + hex2(a[4])
                + ":"@ + hex2(a[5]),
        )
    } else {
        None
    }
}

/// Whether an entry is of an interface that is shown under a name.
pub open spec fn entry_of(e: IfEntry, name: Seq<char>) -> bool {
    !e.loopback && e.name@ == name
}

/// The IPv4 addresses of an interface among the first `n` entries.
pub open spec fn v4_run(es: Seq<IfEntry>, name: Seq<char>, n: int) -> Seq<Seq<char>>
    decreases n,
{
    if n <= 0 {
        Seq::empty()
    } else {
        let so_far = v4_run(es, name, n - 1);
        match es[n - 1].addr {
            LinkAddr::V4(ip, mask) => if entry_of(es[n - 1], name) {
                so_far.push(v4_link(ip, mask))
            } else {
                so_far
            },
            _ => so_far,
        }
    }
}

/// The IPv6 addresses of an interface among the first `n` entries.
pub open spec fn v6_run(es: Seq<IfEntry>, name: Seq<char>, n: int) -> Seq<Seq<char>>
    decreases n,
{
    if n <= 0 {
        Seq::empty()
    } else {
        let so_far = v6_run(es, name, n - 1);
        match es[n - 1].addr {
            LinkAddr::V6(ip, mask) => if entry_of(es[n - 1], name) {
                so_far.push(v6_link(ip, mask))
            } else {
                so_far
            },
            _ => so_far,
        }
    }
}

/// The last address of the hardware of an interface among the first `n` entries.
pub open spec fn mac_run(es: Seq<IfEntry>, name: Seq<char>, n: int) -> Option<Seq<char>>
    decreases n,
{
    if n <= 0 {
        None
    } else {
        let so_far = mac_run(es, name, n - 1);
        match es[n - 1].addr {
            LinkAddr::Hardware(a) => if entry_of(es[n - 1], name) && mac_text(a@) is Some {
                mac_text(a@)
            } else {
                so_far
            },
            _ => so_far,
        }
    }
}

/// The names of the interfaces among the first `n` entries that are shown.
pub open spec fn names_run(es: Seq<IfEntry>, n: int) -> Set<Seq<char>>
    decreases n,
{
    if n <= 0 {
        Set::empty()
    } else if es[n - 1].loopback {
        names_run(es, n - 1)
    } else {
        names_run(es, n - 1).insert(es[n - 1].name@)
    }
}

/// What nothing is known of.
pub open spec fn no_hw() -> HwView {
    HwView { link: None, duplex: None, driver: None, pci_id: None, model: None, speed: None }
}

/// Whether an interface is shown as the entries, the routes and its hardware say.
pub open spec fn shown_iface(
    i: Iface,
    es: Seq<IfEntry>,
    gateways: Map<Seq<char>, u32>,
    hw: Map<Seq<char>, HwFacts>,
) -> bool {
    let name = i.name@;
    let n = es.len() as int;
    &&& text::strings(i.ipv4@) == v4_run(es, name, n)
    &&& text::strings(i.ipv6@) == v6_run(es, name, n)
    &&& text::opt_string(i.mac) == mac_run(es, name, n)
    &&& text::opt_string(i.gateway) == if gateways.contains_key(name) {
        Some(addr::ip_text(addr::IpAddr::V4(gateways[name])))
    } else {
        None
    }
    &&& hw_view(i) == if hw.contains_key(name) {
        hw_of(hw[name], no_hw())
    } else {
        no_hw()
    }
}

/// An address with the length of its mask.
fn link_text(ip: addr::IpAddr, mask: Option<u128>, whole: u128) -> (r: String)
    ensures
        r@ == addr::ip_text(ip) + "/"@ + text::decimal(
            match mask {
                Some(m) => ones(m as int),
                None => whole as int,
            },
        ),
{
    let mut out = ip.text();
    out.append("/");
    let n = match mask {
        Some(m) => count_ones(m),
        None => whole,
    };
    text::push_wide(&mut out, n);
    out
}

/// The address of the hardware, where it has six bytes.
fn mac_of(a: &Vec<u8>) -> (r: Option<String>)
    ensures
        text::opt_string(r) == mac_text(a@),
{
    if a.len() != 6 {
        return None;
    }
    let mut out = String::new();
    text::push_padded(&mut out, a[0] as u64, 16, 2);
    out.append(":");
    text::push_padded(&mut out, a[1] as u64, 16, 2);
    out.append(":");
    text::push_padded(&mut out, a[2] as u64, 16, 2);
    out.append(":");
    text::push_padded(&mut out, a[3] as u64, 16, 2);
    out.append(":");
    text::push_padded(&mut out, a[4] as u64, 16, 2);
    out.append(":");
    text::push_padded(&mut out, a[5] as u64, 16, 2);
    assert(out@ =~= mac_text(a@)->0);
    Some(out)
}

/// An interface as the entries and the routes say.
fn gather(es: &[IfEntry], name: &str, gateways: &Table<u32>) -> (r: Iface)
    requires
        gateways.wf(),
    ensures
        r.name@ == name@,
        text::strings(r.ipv4@) == v4_run(es@, name@, es@.len() as int),
        text::strings(r.ipv6@) == v6_run(es@, name@, es@.len() as int),
        text::opt_string(r.mac) == mac_run(es@, name@, es@.len() as int),
        text::opt_string(r.gateway) == if gateways@.contains_key(name@) {
            Some(addr::ip_text(addr::IpAddr::V4(gateways@[name@])))
        } else {
            None
        },
        hw_view(r) == no_hw(),
{
    let mut ipv4: Vec<String> = Vec::new();
    let mut ipv6: Vec<String> = Vec::new();
    let mut mac: Option<String> = None;
    let mut i: usize = 0;
    assert(text::strings(ipv4@) =~= Seq::<Seq<char>>::empty());
    assert(text::strings(ipv6@) =~= Seq::<Seq<char>>::empty());
    while i < es.len()
        invariant
            i <= es@.len(),
            text::strings(ipv4@) == v4_run(es@, name@, i as int),
            text::strings(ipv6@) == v6_run(es@, name@, i as int),
            text::opt_string(mac) == mac_run(es@, name@, i as int),
        decreases es@.len() - i,
    {
        let e = &es[i];
        if !e.loopback && text::same_str(e.name.as_str(), name) {
            match &e.addr {
                LinkAddr::V4(ip, mask) => {
                    let wide: Option<u128> = match mask {
                        Some(m) => Some(*m as u128),
                        None => None,
                    };
                    let ghost before = ipv4@;
                    let t = link_text(addr::IpAddr::V4(*ip), wide, 32);
                    ipv4.push(t);
                    assert(text::strings(ipv4@) =~= text::strings(before).push(v4_link(*ip, *mask)));
                },
                LinkAddr::V6(ip, mask) => {
                    let ghost before = ipv6@;
                    let t = link_text(addr::IpAddr::V6(*ip), *mask, 128);
                    ipv6.push(t);
                    assert(text::strings(ipv6@) =~= text::strings(before).push(v6_link(*ip, *mask)));
                },
                LinkAddr::Hardware(a) => {
                    match mac_of(a) {
                        Some(t) => {
                            mac = Some(t);
                        },
                        None => {},
                    }
                },
                LinkAddr::Other => {},
            }
        }
        i = i + 1;
    }
    let gateway = match gateways.get(name) {
        Some(gw) => Some(addr::IpAddr::V4(*gw).text()),
        None => None,
    };
    Iface {
        name: name.to_owned(),
        ipv4,
        ipv6,
        mac,
        gateway,
        driver: None,
        model: None,
        pci_id: None,
        speed: None,
        duplex: None,
        link: None,
    }
}

/// The interfaces in the order of their names, without the one to the machine itself:
/// their addresses, the routers behind them, and what is known of their hardware.
pub fn interfaces(es: &[IfEntry], gateways: &Table<u32>, hw: &Table<HwFacts>) -> (r: Vec<Iface>)
    requires
        gateways.wf(),
        hw.wf(),
    ensures
        forall|i: int, j: int|
            0 <= i < j < r@.len() ==> names::before(
                (#[trigger] r@[i]).name@,
                (#[trigger] r@[j]).name@,
            ),
        r@.map_values(|i: Iface| i.name@).to_set() == names_run(es@, es@.len() as int),
        forall|i: int| 0 <= i < r@.len() ==> shown_iface(#[trigger] r@[i], es@, gateways@, hw@),
{
    let mut all = Names::new();
    let mut i: usize = 0;
    while i < es.len()
        invariant
            i <= es@.len(),
            all.wf(),
            all@ == names_run(es@, i as int),
        decreases es@.len() - i,
    {
        if !es[i].loopback {
            all.insert(es[i].name.clone());
        }
        i = i + 1;
    }
    let items = all.items();
    let ghost order = text::strings(items@);
    let mut out: Vec<Iface> = Vec::new();
    let mut k: usize = 0;
    while k < items.len()
        invariant
            k <= items@.len(),
            gateways.wf(),
            hw.wf(),
            order == text::strings(items@),
            out@.len() == k,
            forall|j: int| 0 <= j < k ==> (#[trigger] out@[j]).name@ == order[j],
            forall|j: int| 0 <= j < k ==> shown_iface(#[trigger] out@[j], es@, gateways@, hw@),
        decreases items@.len() - k,
    {
        let mut e = gather(es, items[k].as_str(), gateways);
        match hw.get(items[k].as_str()) {
            Some(f) => {
                fill_hw(&mut e, f);
            },
            None => {},
        }
        let ghost before = out@;
        assert(e.name@ == order[k as int]);
        assert(shown_iface(e, es@, gateways@, hw@));
        out.push(e);
        proof {
            assert forall|j: int| 0 <= j < k + 1 implies (#[trigger] out@[j]).name@ == order[j] by {
                if j < k {
                    assert(out@[j] == before[j]);
                }
            }
            assert forall|j: int| 0 <= j < k + 1 implies shown_iface(
                #[trigger] out@[j],
                es@,
                gateways@,
                hw@,
            ) by {
                if j < k {
                    assert(out@[j] == before[j]);
                }
            }
        }
        k = k + 1;
    }
    proof {
        assert(out@.map_values(|i: Iface| i.name@) =~= order);
    }
    out
}

/// How long the machine has run, in seconds: the first word of a text, without its
/// fraction, and nothing where that is no number.
pub open spec fn uptime_of(s: Seq<char>) -> u64 {
    let w = text::words(s);
    if w.len() == 0 {
        0
    } else {
        match decimal::number_of(w[0]) {
            Some(n) => decimal::clamped(n),
            None => 0,
        }
    }
}

/// How long the machine has run, in seconds.
pub fn uptime_secs(s: &str) -> (r: u64)
    ensures
        r == uptime_of(s@),
{
    let cs = text::chars_of(s);
    let w = text::words_of(cs.as_slice());
    let ghost all = text::words(s@);
    assert(all == text::texts(w@));
    if w.len() == 0 {
        return 0;
    }
    assert(all[0] == w@[0]@);
    match decimal::parse(w[0]) {
        Some(n) => decimal::clamp(n),
        None => 0,
    }
}

/// An amount of memory is the first number behind its name, in units of 1024 bytes.
pub proof fn law_amounts_of_memory(ls: Seq<Seq<char>>, n: int, kb: u64, unit: Seq<char>)
    requires
        0 <= n < ls.len(),
        unit.len() > 0 ==> text::is_space(unit[0]),
    ensures
        ({
            let (total, free) = mem_run(ls, n);
            let (all, left) = mem_run(ls, n + 1);
            let amount = seq![' '] + (text::decimal(kb as int) + unit);
            &&& ls[n] == "MemTotal:"@ + amount ==> all == kb * 1024 && left == free
            &&& ls[n] == "MemAvailable:"@ + amount ==> all == total && left == kb * 1024
            &&& !text::starts(ls[n], "MemTotal:"@) && !text::starts(ls[n], "MemAvailable:"@)
                ==> all == total && left == free
        }),
        mem_run(ls, 0) == (0int, 0int),
        first_number(seq![' '] + (text::decimal(kb as int) + unit)) == kb,
{
    let d = text::decimal(kb as int);
    let amount = seq![' '] + (d + unit);
    text::law_number_round_trip(kb as int, u64::MAX as int);
    text::lemma_space_first(' ', d + unit);
    text::lemma_first_word(d, unit);
    assert(text::words(amount)[0] == d);
    text::lemma_after("MemTotal:"@, amount);
    text::lemma_after("MemAvailable:"@, amount);
    reveal_strlit("MemTotal:");
    reveal_strlit("MemAvailable:");
    if ls[n] == "MemAvailable:"@ + amount {
        if text::starts(ls[n], "MemTotal:"@) {
            let t = ls[n].take("MemTotal:"@.len() as int);
            assert(t[3] == "MemAvailable:"@[3]);
            assert(t[3] == "MemTotal:"@[3]);
        }
    }
}

/// What stands behind a name is what stands on the first line with that name.
pub proof fn law_first_line_of_a_name(ls: Seq<Seq<char>>, label: Seq<char>, k: int, rest: Seq<char>)
    requires
        0 <= k < ls.len(),
        ls[k] == label + rest,
        forall|j: int| 0 <= j < k ==> !text::starts(#[trigger] ls[j], label),
    ensures
        labelled(ls, label, 0) == Some(rest),
{
    text::lemma_after(label, rest);
    lemma_labelled_from(ls, label, 0, k);
}

/// Lines with other names are passed over.
proof fn lemma_labelled_from(ls: Seq<Seq<char>>, label: Seq<char>, i: int, k: int)
    requires
        0 <= i <= k <= ls.len(),
        forall|j: int| 0 <= j < k ==> !text::starts(#[trigger] ls[j], label),
    ensures
        labelled(ls, label, i) == labelled(ls, label, k),
    decreases k - i,
{
    if i < k {
        assert(!text::starts(ls[i], label));
        lemma_labelled_from(ls, label, i + 1, k);
    }
}

/// Each processor that is listed counts, and the first model that is named is the one shown.
pub proof fn law_processors_are_counted(ls: Seq<Seq<char>>, n: int, name: Seq<char>)
    requires
        0 <= n < ls.len(),
        name.len() > 0,
        !text::is_space(name[0]) && name[0] != ':' && !text::is_space(name.last()),
    ensures
        ({
            let (model, cores) = cpu_run(ls, n);
            let (all, count) = cpu_run(ls, n + 1);
            &&& text::starts(ls[n], "processor"@) ==> count == cores + 1 && all == model
            &&& ls[n] == "model name\t: "@ + name ==> count == cores && all == if model.len() == 0 {
                name
            } else {
                model
            }
            &&& !text::starts(ls[n], "processor"@) && !text::starts(ls[n], "model name"@) ==> count
                == cores && all == model
        }),
        cpu_run(ls, 0) == (Seq::<char>::empty(), 0int),
{
    reveal_strlit("processor");
    reveal_strlit("model name");
    reveal_strlit("model name\t: ");
    if ls[n] == "model name\t: "@ + name {
        let gap = seq!['\t', ':', ' '];
        assert(ls[n] =~= "model name"@ + (gap + name));
        text::lemma_after("model name"@, gap + name);
        if text::starts(ls[n], "processor"@) {
            assert(ls[n].take(9)[0] == 'm');
            assert("processor"@[0] == 'p');
        }
        let s = gap + name;
        assert forall|i: int| 0 <= i < 3 implies separators()(#[trigger] s[i]) by {
            assert(s[i] == gap[i]);
        }
        assert(s[3] == name[0]);
        text::lemma_lead(s, separators(), 3);
        assert(s.skip(3) =~= name);
        let e = Seq::<char>::empty();
        text::law_trimming(e, name, e);
    }
}

/// The model that is shown is the one named, and without one the one made of its parts; as
/// many cores are shown as were counted, and without any as many as the system knows.
pub proof fn law_which_processor_is_shown(s: Seq<char>, cpus: int)
    ensures
        ({
            let (model, cores) = cpu_run(text::lines(s), text::lines(s).len() as int);
            let (shown, count) = cpu_of(s, cpus);
            &&& model.len() > 0 ==> shown == model
            &&& model.len() == 0 ==> shown == arm_text(s)
            &&& cores > 0 ==> count == cores
            &&& cores == 0 ==> count == cpus
        }),
{
    lemma_cores(text::lines(s), text::lines(s).len() as int);
}

/// A count of cores is never below nothing.
proof fn lemma_cores(ls: Seq<Seq<char>>, n: int)
    ensures
        cpu_run(ls, n).1 >= 0,
    decreases n,
{
    if n > 0 {
        lemma_cores(ls, n - 1);
    }
}

/// The maker is the first one named, and each kind of core is noted once, in its order.
pub proof fn law_makers_and_cores(st: ArmState, id: int)
    requires
        0 <= id <= 0xffff,
        text::written(id, 16).len() > 0,
    ensures
        ({
            let h = "0x"@ + text::written(id, 16);
            let a = arm_step(st, "CPU implementer\t: "@ + h);
            let b = arm_step(st, "CPU part\t: "@ + h);
            &&& a.parts == st.parts && b.implementer == st.implementer
            &&& st.implementer is None ==> a.implementer == Some(id)
            &&& st.implementer is Some ==> a.implementer == st.implementer
            &&& st.parts.contains(id) ==> b.parts == st.parts
            &&& !st.parts.contains(id) ==> b.parts == st.parts.push(id)
        }),
{
    let d = text::written(id, 16);
    let h = "0x"@ + d;
    let v = seq![' '] + h;
    let e = Seq::<char>::empty();
    reveal_strlit("0x");
    reveal_strlit("CPU implementer");
    reveal_strlit("CPU part");
    reveal_strlit("CPU implementer\t: ");
    reveal_strlit("CPU part\t: ");
    text::lemma_written(id, 16);
    lemma_no_blank_in_hex(d);
    let k1 = "CPU implementer"@ + seq!['\t'];
    let k2 = "CPU part"@ + seq!['\t'];
    assert("CPU implementer\t: "@ + h =~= k1 + seq![':'] + v);
    assert("CPU part\t: "@ + h =~= k2 + seq![':'] + v);
    text::lemma_cut_first(k1, v, ':');
    text::lemma_cut_first(k2, v, ':');
    text::law_trimming(e, "CPU implementer"@, seq!['\t']);
    text::law_trimming(e, "CPU part"@, seq!['\t']);
    assert(e + "CPU implementer"@ + seq!['\t'] =~= k1);
    assert(e + "CPU part"@ + seq!['\t'] =~= k2);
    assert("CPU implementer"@.len() == 15 && "CPU part"@.len() == 8);
    text::law_trimming(seq![' '], h, e);
    assert(seq![' '] + h + e =~= v);
    assert(h[0] == '0');
    assert(h.last() == d.last());
    lemma_prefix_taken(d);
}

/// A number written to the base of sixteen holds no blank, and no x.
proof fn lemma_no_blank_in_hex(d: Seq<char>)
    requires
        text::all_digits(d, 16),
        d.len() > 0,
    ensures
        forall|i: int| 0 <= i < d.len() ==> !text::is_space(#[trigger] d[i]) && d[i] != 'x',
        !text::is_space(d.last()),
{
    assert forall|i: int| 0 <= i < d.len() implies !text::is_space(#[trigger] d[i]) && d[i] != 'x' by {
        assert(text::is_digit(d[i], 16));
    }
    assert(text::is_digit(d[d.len() - 1], 16));
}

/// The mark before a number to the base of sixteen is taken away.
proof fn lemma_prefix_taken(d: Seq<char>)
    requires
        d.len() > 0,
        forall|i: int| 0 <= i < d.len() ==> #[trigger] d[i] != 'x',
    ensures
        without_prefixes("0x"@ + d, "0x"@) == d,
{
    reveal_strlit("0x");
    let p = "0x"@;
    assert((p + d).take(2) =~= p);
    assert((p + d).skip(2) =~= d);
    if text::starts(d, p) {
        assert(d.take(2)[1] == p[1]);
        assert(d[1] == 'x');
    }
    reveal_with_fuel(without_prefixes, 3);
}

/// A model made of its parts is its maker with its kinds of cores behind.
pub proof fn law_models_made_of_parts(s: Seq<char>, id: int, p: int)
    ensures
        ({
            let st = arm_run(text::lines(s), text::lines(s).len() as int);
            &&& st.implementer is None ==> arm_text(s).len() == 0
            &&& st.parts.len() == 0 ==> arm_text(s).len() == 0
            &&& st.implementer == Some(id) && st.parts == seq![p] ==> arm_text(s) == vendor_text(id)
                + " "@ + part_text(id, p)
        }),
        id != 0x41 ==> part_text(id, p) == "part 0x"@ + text::zero_padded(text::written(p, 16), 3),
        vendor_text(0x41) == "ARM"@,
        part_text(0x41, 0xd08) == "Cortex-A72"@,
{
    let q = part_texts(id, seq![p]);
    assert(q =~= seq![part_text(id, p)]);
    reveal_with_fuel(text::joined, 3);
    reveal_with_fuel(name_in, 60);
}

/// The time spent is the sum of all times, and the time at rest is the fourth and the fifth
/// of them.
pub proof fn law_times_of_a_processor(nums: Seq<char>, a: int, b: int, c: int, d: int, e: int)
    requires
        numbers(text::words(nums)) == seq![a, b, c, d, e],
    ensures
        times(nums) == Some((a + b + c + d + e, d + e)),
{
    let v = seq![a, b, c, d, e];
    assert(v.drop_last() =~= seq![a, b, c, d]);
    assert(seq![a, b, c, d].drop_last() =~= seq![a, b, c]);
    assert(seq![a, b, c].drop_last() =~= seq![a, b]);
    assert(seq![a, b].drop_last() =~= seq![a]);
    assert(seq![a].drop_last() =~= seq![]);
    reveal_with_fuel(sum, 6);
}

/// Every number of a line counts, in its order, and with fewer than five there are no times.
pub proof fn law_numbers_of_a_line(ws: Seq<Seq<char>>, n: u64, nums: Seq<char>)
    ensures
        numbers(ws.push(text::decimal(n as int))) == numbers(ws).push(n as int),
        numbers(seq![]) == Seq::<int>::empty(),
        numbers(text::words(nums)).len() < 5 ==> times(nums) is None,
        forall|v: Seq<int>, x: int| #[trigger] sum(v.push(x)) == sum(v) + x,
{
    text::law_number_round_trip(n as int, u64::MAX as int);
    assert(ws.push(text::decimal(n as int)).drop_last() =~= ws);
    assert forall|v: Seq<int>, x: int| #[trigger] sum(v.push(x)) == sum(v) + x by {
        assert(v.push(x).drop_last() =~= v);
    }
}

/// The times of each core are listed on the lines that begin alike, up to the first other
/// line.
pub proof fn law_times_of_each_core(ls: Seq<Seq<char>>, i: int, num: Seq<char>, nums: Seq<char>)
    requires
        0 <= i < ls.len(),
        num.len() > 0,
        forall|j: int| 0 <= j < num.len() ==> !text::is_space(#[trigger] num[j]),
    ensures
        !text::starts(ls[i], "cpu"@) ==> per_core(ls, i) == Seq::<(int, int)>::empty(),
        ls[i] == "cpu"@ + (num + seq![' '] + nums) && times(nums) is Some ==> per_core(ls, i)
            == seq![times(nums)->0] + per_core(ls, i + 1),
        ls[i] == "cpu"@ + (seq![' '] + nums) ==> per_core(ls, i) == per_core(ls, i + 1),
{
    let a = num + seq![' '] + nums;
    let b = seq![' '] + nums;
    text::lemma_after("cpu"@, a);
    text::lemma_after("cpu"@, b);
    assert forall|j: int| 0 <= j < num.len() implies text::non_spaces()(#[trigger] a[j]) by {
        assert(a[j] == num[j]);
    }
    assert(a[num.len() as int] == ' ');
    text::lemma_lead(a, text::non_spaces(), num.len() as int);
    assert(a.skip(num.len() as int + 1) =~= nums);
    text::lemma_lead(b, text::non_spaces(), 0);
}

/// What a process spent is what it spent itself and what the system spent for it.
pub proof fn law_time_of_a_process(stat: Seq<char>, w: Seq<Seq<char>>, u: u64, s: u64)
    requires
        stat_words(stat) == Some(w),
        w.len() > 12,
        w[11] == text::decimal(u as int),
        w[12] == text::decimal(s as int),
    ensures
        spent(stat) == Some(u + s),
        stat_field(stat, 11) == Some(u as int),
        stat_field(stat, w.len() as int) is None,
{
    text::law_number_round_trip(u as int, u64::MAX as int);
    text::law_number_round_trip(s as int, u64::MAX as int);
}

/// The words of a process are those behind the last closing bracket, so that its name may
/// hold anything.
pub proof fn law_words_of_a_process(head: Seq<char>, tail: Seq<char>)
    requires
        forall|i: int| 0 <= i < tail.len() ==> #[trigger] tail[i] != ')',
    ensures
        stat_words(head + seq![')'] + tail) == Some(text::words(tail)),
        stat_words(tail) is None,
{
    let s = head + seq![')'] + tail;
    text::lemma_last(s, ')', head.len() as int);
    assert(s.skip(head.len() as int + 1) =~= tail);
    lemma_none_last(tail);
}

/// A text without a bracket has no last one.
proof fn lemma_none_last(s: Seq<char>)
    requires
        forall|i: int| 0 <= i < s.len() ==> #[trigger] s[i] != ')',
    ensures
        text::last(s, ')') < 0,
    decreases s.len(),
{
    if s.len() > 0 {
        assert(s.last() == s[s.len() - 1]);
        assert forall|i: int| 0 <= i < s.drop_last().len() implies #[trigger] s.drop_last()[i]
            != ')' by {
            assert(s.drop_last()[i] == s[i]);
        }
        lemma_none_last(s.drop_last());
    }
}

/// The number of a processor stands behind its name.
pub proof fn law_numbers_of_processors(n: usize, name: Seq<char>)
    ensures
        cpu_number("cpu"@ + text::decimal(n as int)) == Some(n as int),
        !text::starts(name, "cpu"@) ==> cpu_number(name) is None,
{
    text::lemma_after("cpu"@, text::decimal(n as int));
    text::law_number_round_trip(n as int, usize::MAX as int);
}

/// The range of speeds reaches from the lowest to the highest that any processor names.
pub proof fn law_range_of_speeds(v: Seq<CpuFreq>, n: int, i: int)
    requires
        0 <= i < n <= v.len(),
    ensures
        ({
            let (lo, hi) = freq_bounds(v, n);
            &&& v[i].cpuinfo_min is Some ==> lo is Some && lo->0 <= v[i].cpuinfo_min->0
            &&& v[i].cpuinfo_min is None && v[i].scaling_min is Some ==> lo is Some && lo->0
                <= v[i].scaling_min->0
            &&& v[i].cpuinfo_max is Some ==> hi is Some && hi->0 >= v[i].cpuinfo_max->0
            &&& v[i].cpuinfo_max is None && v[i].scaling_max is Some ==> hi is Some && hi->0
                >= v[i].scaling_max->0
        }),
        ({
            let (lo, hi) = freq_bounds(v, n);
            &&& lo is Some ==> exists|j: int|
                0 <= j < n && (lo == (#[trigger] v[j]).cpuinfo_min || lo == v[j].scaling_min)
            &&& hi is Some ==> exists|j: int|
                0 <= j < n && (hi == (#[trigger] v[j]).cpuinfo_max || hi == v[j].scaling_max)
        }),
    decreases n,
{
    if i < n - 1 {
        law_range_of_speeds(v, n - 1, i);
    } else if n > 1 {
        law_range_of_speeds(v, n - 1, 0);
    }
    let (lo, hi) = freq_bounds(v, n - 1);
    let (lo1, hi1) = freq_bounds(v, n);
    let e = v[n - 1];
    if lo1 is Some && lo1 != lo {
        assert(lo1 == v[n - 1].cpuinfo_min || lo1 == v[n - 1].scaling_min);
    }
    if hi1 is Some && hi1 != hi {
        assert(hi1 == v[n - 1].cpuinfo_max || hi1 == v[n - 1].scaling_max);
    }
}

/// Each processor is shown with the speed it runs at, by its number.
pub proof fn law_speed_of_each_processor(v: Seq<CpuFreq>, n: int)
    requires
        0 <= n < v.len(),
    ensures
        ({
            let before = freq_map(v, n);
            let all = freq_map(v, n + 1);
            let e = v[n];
            &&& e.scaling_cur is Some ==> all == before.insert(e.index, e.scaling_cur->0)
            &&& e.scaling_cur is None && e.cpuinfo_cur is Some ==> all == before.insert(
                e.index,
                e.cpuinfo_cur->0,
            )
            &&& e.scaling_cur is None && e.cpuinfo_cur is None ==> all == before
        }),
        freq_map(v, 0) == Map::<usize, u32>::empty(),
        freq_range(v) matches Some((lo, hi)) ==> freq_bounds(v, v.len() as int) == (
            Some(lo),
            Some(hi),
        ) && hi > 0,
{
}

/// A speed that is listed is what stands behind its name.
pub proof fn law_listed_speeds(ls: Seq<Seq<char>>, n: int, x: Seq<char>)
    requires
        0 <= n < ls.len(),
        x.len() > 0,
        !text::is_space(x[0]) && x[0] != ':' && !text::is_space(x.last()),
    ensures
        ls[n] == "cpu MHz\t\t: "@ + x ==> mhz_run(ls, n + 1) == mhz_run(ls, n).push(x),
        !text::starts(ls[n], "cpu MHz"@) ==> mhz_run(ls, n + 1) == mhz_run(ls, n),
        mhz_run(ls, 0) == Seq::<Seq<char>>::empty(),
{
    reveal_strlit("cpu MHz");
    reveal_strlit("cpu MHz\t\t: ");
    let gap = seq!['\t', '\t', ':', ' '];
    let s = gap + x;
    let e = Seq::<char>::empty();
    assert("cpu MHz\t\t: "@ + x =~= "cpu MHz"@ + s);
    text::lemma_after("cpu MHz"@, s);
    assert forall|i: int| 0 <= i < 4 implies label_end()(#[trigger] s[i]) by {
        assert(s[i] == gap[i]);
    }
    assert(s[4] == x[0]);
    text::lemma_lead(s, label_end(), 4);
    assert(s.skip(4) =~= x);
    text::law_trimming(e, x, e);
}

/// A reading below a thousand is in whole degrees, another in thousandths of one; what no
/// processor can have is no reading.
pub proof fn law_readings(raw: int)
    ensures
        -50 <= raw <= 200 ==> millidegrees(raw) == Some(raw * 1000),
        200 < raw < 1000 ==> millidegrees(raw) is None,
        1000 <= raw <= 200_000 ==> millidegrees(raw) == Some(raw),
        raw > 200_000 ==> millidegrees(raw) is None,
        -50_000 <= raw <= -1000 ==> millidegrees(raw) == Some(raw),
        raw < -50_000 ==> millidegrees(raw) is None,
{
}

/// The zone that is taken can be read, is as good as any that can, and is the first of
/// those.
pub proof fn law_best_zone(v: Seq<Zone>, n: int)
    requires
        0 <= n <= v.len(),
    ensures
        best_zone(v, n) matches Some(i) ==> {
            &&& 0 <= i < n
            &&& millidegrees(v[i].raw as int) is Some
            &&& forall|j: int|
                0 <= j < n && millidegrees((#[trigger] v[j]).raw as int) is Some ==> zone_score(
                    v[j].kind@,
                ) < zone_score(v[i].kind@) || (zone_score(v[j].kind@) == zone_score(v[i].kind@) && i
                    <= j)
        },
        best_zone(v, n) is None ==> forall|j: int|
            0 <= j < n ==> millidegrees((#[trigger] v[j]).raw as int) is None,
    decreases n,
{
    if n > 0 {
        law_best_zone(v, n - 1);
    }
}

/// How good a zone is told by its name.
pub proof fn law_scores_of_zones(zone: Seq<char>)
    ensures
        zone_score(zone) == 1000 || zone_score(zone) == 50 || zone_score(zone) == 0,
        zone_score(zone) == 1000 <==> exists|i: int|
            0 <= i < 6 && (#[trigger] CPU_ZONES@[i])@ == text::lowered(text::trimmed(zone)),
        zone_score(zone) == 50 ==> exists|i: int|
            0 <= i < 6 && text::holds(
                text::lowered(text::trimmed(zone)),
                (#[trigger] CPU_ISH@[i])@,
            ),
        zone_score(zone) == 50 ==> forall|i: int|
            0 <= i < 12 ==> !text::starts(
                text::lowered(text::trimmed(zone)),
                (#[trigger] NOT_CPU@[i])@,
            ),
{
}

/// A zone for a processor comes first, then a chip, then any zone, then what the host shows.
pub proof fn law_which_reading_is_shown(zones: Seq<Zone>, chips: Seq<Chip>, host: Option<Seq<Zone>>)
    ensures
        ({
            let best = best_zone(zones, zones.len() as int);
            let sure = best is Some && zone_score(zones[best->0].kind@) >= 50;
            &&& sure ==> temp_shown(zones, chips, host) == zone_temp(zones)
            &&& !sure && first_chip(chips, 0) is Some ==> temp_shown(zones, chips, host)
                == chips_temp(chips)
            &&& !sure && first_chip(chips, 0) is None && best is Some ==> temp_shown(
                zones,
                chips,
                host,
            ) == zone_temp(zones)
            &&& best is None && first_chip(chips, 0) is None && host is Some ==> temp_shown(
                zones,
                chips,
                host,
            ) == zone_temp(host->0)
            &&& best is None && first_chip(chips, 0) is None && host is None ==> temp_shown(
                zones,
                chips,
                host,
            ) is None
            &&& zone_temp(zones) matches Some((m, name)) ==> best is Some && Some(m)
                == millidegrees(zones[best->0].raw as int) && name == text::trimmed(
                zones[best->0].kind@,
            )
        }),
{
    law_best_zone(zones, zones.len() as int);
}

/// The first chip of a processor that can be read is the one that is taken.
pub proof fn law_first_chip(v: Seq<Chip>, k: int)
    requires
        0 <= k <= v.len(),
        forall|j: int| 0 <= j < k ==> chip_reading(#[trigger] v[j]) is None,
        k < v.len() ==> chip_reading(v[k]) is Some,
    ensures
        first_chip(v, 0) == if k < v.len() {
            Some(k)
        } else {
            None
        },
        forall|c: Chip|
            (#[trigger] chip_reading(c)) is Some ==> cpu_chip(c.name@) && c.raw is Some
                && chip_reading(c) == millidegrees(c.raw->0 as int),
        forall|c: Chip|
            cpu_chip(c.name@) && c.raw is Some ==> #[trigger] chip_reading(c) == millidegrees(
                c.raw->0 as int,
            ),
{
    lemma_chip_from(v, 0, k);
}

/// Chips without a reading are passed over.
proof fn lemma_chip_from(v: Seq<Chip>, i: int, k: int)
    requires
        0 <= i <= k <= v.len(),
        forall|j: int| 0 <= j < k ==> chip_reading(#[trigger] v[j]) is None,
    ensures
        first_chip(v, i) == first_chip(v, k),
    decreases k - i,
{
    if i < k {
        assert(chip_reading(v[i]) is None);
        lemma_chip_from(v, i + 1, k);
    }
}

/// A card has the speed it names. Without one, a virtual card that is linked counts as one
/// of ten thousand.
pub proof fn law_speed_of_a_card(s: i64, link: Option<bool>, driver: Option<Seq<char>>, d: Seq<char>)
    ensures
        0 < s <= 0xffff_ffff ==> speed_of(Some(s), link, driver) == Some(s as u32),
        s <= 0 ==> speed_of(Some(s), link, driver) == speed_of(None, link, driver),
        link != Some(true) ==> speed_of(None, link, driver) is None,
        speed_of(None, link, None) is None,
        speed_of(None, Some(true), Some(d)) == if d == "virtio_net"@ || d == "hv_netvsc"@ || d
            == "vif"@ || d == "xen_netfront"@ || d == "vmxnet3"@ {
            Some(10_000u32)
        } else {
            None
        },
{
    let v = VIRTUAL_NICS@;
    assert(v[0]@ == "virtio_net"@ && v[1]@ == "hv_netvsc"@ && v[2]@ == "vif"@ && v[3]@
        == "xen_netfront"@ && v[4]@ == "vmxnet3"@);
}

/// What is known of a card comes from its own facts, each in its place.
pub proof fn law_facts_of_a_card(f: HwFacts, before: HwView)
    ensures
        ({
            let r = hw_of(f, before);
            &&& f.carrier is None ==> r.link is None
            &&& f.carrier == Some(0u8) ==> r.link == Some(false)
            &&& f.carrier == Some(1u8) ==> r.link == Some(true)
            &&& f.duplex is Some && f.duplex->0@ != "unknown"@ ==> r.duplex == Some(f.duplex->0@)
            &&& f.has_device && f.driver is Some ==> r.driver == Some(f.driver->0@) && r.model
                == model_from(f.driver->0@, 0)
            &&& f.has_device && f.driver is None ==> r.driver is None && r.model is None
            &&& !f.has_device ==> r.driver == before.driver && r.pci_id == before.pci_id
            &&& f.speed is Some && 0 < f.speed->0 <= 0xffff_ffff ==> r.speed == Some(
                f.speed->0 as u32,
            )
            &&& f.speed is Some && f.speed->0 > 0 && f.duplex is None ==> r.duplex is None
            &&& !f.has_device && f.uevent is None && f.tun ==> r.model == Some("tun"@)
            &&& !f.has_device && f.uevent is None && !f.tun ==> r.model is None
        }),
{
    assert(f.speed is Some && 0 < f.speed->0 <= 0xffff_ffff ==> speed_of(
        f.speed,
        hw_of(f, before).link,
        hw_of(f, before).driver,
    ) == Some(f.speed->0 as u32));
}

/// A card is told by the numbers of its maker and of its kind, in that order and without
/// their marks.
pub proof fn law_numbers_of_a_card(f: HwFacts, before: HwView, a: Seq<char>, b: Seq<char>)
    requires
        f.has_device,
        f.vendor is Some && f.vendor->0@ == "0x"@ + a,
        f.device is Some && f.device->0@ == "0x"@ + b,
        a.len() > 0 && b.len() > 0,
        forall|i: int| 0 <= i < a.len() ==> #[trigger] a[i] != 'x',
        forall|i: int| 0 <= i < b.len() ==> #[trigger] b[i] != 'x',
    ensures
        hw_of(f, before).pci_id == Some(a + ":"@ + b),
{
    lemma_prefix_taken(a);
    lemma_prefix_taken(b);
}

/// The model of a card is the one beside its driver in the list.
pub proof fn law_models_of_cards(driver: Seq<char>, k: int)
    requires
        0 <= k < 51,
        NIC_MODELS@[k].0@ == driver,
        forall|j: int| 0 <= j < k ==> (#[trigger] NIC_MODELS@[j]).0@ != driver,
    ensures
        model_from(driver, 0) == Some(NIC_MODELS@[k].1@),
{
    lemma_model_from(driver, 0, k);
}

/// Other drivers are passed over.
proof fn lemma_model_from(driver: Seq<char>, i: int, k: int)
    requires
        0 <= i <= k < 51,
        forall|j: int| 0 <= j < k ==> (#[trigger] NIC_MODELS@[j]).0@ != driver,
    ensures
        model_from(driver, i) == model_from(driver, k),
    decreases k - i,
{
    if i < k {
        assert(NIC_MODELS@[i].0@ != driver);
        lemma_model_from(driver, i + 1, k);
    }
}

/// The bytes of a number the other way round: the last becomes the first.
pub proof fn law_bytes_the_other_way_round(a: int, b: int, c: int, d: int)
    requires
        0 <= a <= 255,
        0 <= b <= 255,
        0 <= c <= 255,
        0 <= d <= 255,
    ensures
        reversed((a * 0x100_0000 + b * 0x1_0000 + c * 0x100 + d) as u32) == d * 0x100_0000 + c
            * 0x1_0000 + b * 0x100 + a,
{
    let x = (a * 0x100 + b) * 0x100 + c;
    let n = x * 0x100 + d;
    lemma_last_byte(x, d);
    lemma_last_byte(a * 0x100 + b, c);
    lemma_last_byte(a, b);
    assert(n / 0x100 == x);
    assert(n / 0x1_0000 == x / 0x100);
    assert(n / 0x100_0000 == x / 0x1_0000);
    assert(x / 0x1_0000 == (x / 0x100) / 0x100);
    assert(n == a * 0x100_0000 + b * 0x1_0000 + c * 0x100 + d);
}

/// A number behind which a byte is put.
proof fn lemma_last_byte(x: int, d: int)
    requires
        0 <= x,
        0 <= d <= 255,
    ensures
        (x * 0x100 + d) / 0x100 == x,
        (x * 0x100 + d) % 0x100 == d,
{
}

/// A line of routes gives a gateway where it is the one for everything: the first word names
/// the card and the third the gateway, its bytes the other way round.
pub proof fn law_lines_of_routes(line: Seq<char>, w: Seq<Seq<char>>, n: u32)
    requires
        text::words(line) == w,
        w.len() >= 3,
        w[2] == text::written(n as int, 16),
    ensures
        w[1] == "00000000"@ ==> route_line(line) == Some((w[0], reversed(n))),
        w[1] != "00000000"@ ==> route_line(line) is None,
{
    text::lemma_written(n as int, 16);
    assert(text::is_digit(w[2][0], 16));
}

/// The first gateway of a card stays, and the first line is none.
pub proof fn law_first_gateway_stays(ls: Seq<Seq<char>>, n: int, name: Seq<char>, gw: u32)
    requires
        1 <= n < ls.len(),
        route_line(ls[n]) == Some((name, gw)),
    ensures
        gateways_run(ls, 1) == Map::<Seq<char>, u32>::empty(),
        gateways_run(ls, n).contains_key(name) ==> gateways_run(ls, n + 1) == gateways_run(ls, n),
        !gateways_run(ls, n).contains_key(name) ==> gateways_run(ls, n + 1) == gateways_run(
            ls,
            n,
        ).insert(name, gw),
{
}

/// The servers for names are listed in their order, each as it stands behind its mark.
pub proof fn law_listed_name_servers(ls: Seq<Seq<char>>, n: int, s: Seq<char>)
    requires
        0 <= n < ls.len(),
        s.len() > 0,
        !text::is_space(s[0]) && !text::is_space(s.last()),
    ensures
        ls[n] == "nameserver "@ + s ==> nameservers_run(ls, n + 1) == nameservers_run(ls, n).push(s),
        !text::starts(text::trimmed(ls[n]), "nameserver"@) ==> nameservers_run(ls, n + 1)
            == nameservers_run(ls, n),
        nameservers_run(ls, 0) == Seq::<Seq<char>>::empty(),
{
    reveal_strlit("nameserver");
    reveal_strlit("nameserver ");
    let e = Seq::<char>::empty();
    let t = seq![' '] + s;
    assert("nameserver "@ + s =~= "nameserver"@ + t);
    text::lemma_after("nameserver"@, t);
    assert(("nameserver "@ + s)[0] == 'n');
    text::law_trimming(e, "nameserver "@ + s, e);
    text::law_trimming(seq![' '], s, e);
    assert(seq![' '] + s + e =~= t);
}

/// The first process with one of the names is the one that is found.
pub proof fn law_first_process_of_a_name(v: Seq<Proc>, names: Seq<&str>, k: int)
    requires
        0 <= k <= v.len(),
        forall|j: int| 0 <= j < k ==> !named(#[trigger] v[j], names),
        k < v.len() ==> named(v[k], names),
    ensures
        first_named(v, names, 0) == if k < v.len() {
            Some(v[k].pid)
        } else {
            None
        },
{
    lemma_named_from(v, names, 0, k);
}

/// Processes with other names are passed over.
proof fn lemma_named_from(v: Seq<Proc>, names: Seq<&str>, i: int, k: int)
    requires
        0 <= i <= k <= v.len(),
        forall|j: int| 0 <= j < k ==> !named(#[trigger] v[j], names),
    ensures
        first_named(v, names, i) == first_named(v, names, k),
    decreases k - i,
{
    if i < k {
        assert(!named(v[i], names));
        lemma_named_from(v, names, i + 1, k);
    }
}

/// All processes with one of the names are found, and no other.
pub proof fn law_all_processes_of_a_name(v: Seq<Proc>, names: Seq<&str>, n: int)
    requires
        0 <= n < v.len(),
    ensures
        ({
            let fits = exists|i: int|
                0 <= i < names.len() && (#[trigger] names[i])@ == text::trimmed(v[n].comm@);
            &&& fits ==> named_pids(v, names, n + 1) == named_pids(v, names, n).push(v[n].pid)
            &&& !fits ==> named_pids(v, names, n + 1) == named_pids(v, names, n)
        }),
        named_pids(v, names, 0) == Seq::<u32>::empty(),
{
}

/// The version of the engine is what stands under its name, and whether it is the other kind
/// of engine is said under another.
pub proof fn law_version_of_the_engine(v: Shape, w: Seq<char>)
    ensures
        json::field(v, "version"@) == Some(Shape::Text(w)) ==> version_of(v) == Some(
            (w, json::field(v, "meta"@) == Some(Shape::Bool(true))),
        ),
        json::field(v, "version"@) is None ==> version_of(v) is None,
{
}

/// The second part of an answer stands between two empty lines, or behind the first.
pub proof fn law_second_part(a: Seq<char>, b: Seq<char>, c: Seq<char>)
    requires
        forall|i: int| 0 <= i < a.len() ==> #[trigger] a[i] != '\r',
        forall|i: int| 0 <= i < b.len() ==> #[trigger] b[i] != '\r',
    ensures
        second_part(a + "\r\n\r\n"@ + (b + "\r\n\r\n"@ + c)) == Some(b),
        second_part(a + "\r\n\r\n"@ + b) == Some(b),
{
    reveal_strlit("\r\n\r\n");
    let g = "\r\n\r\n"@;
    text::lemma_cut_str(a, g, b + g + c);
    text::lemma_cut_str(b, g, c);
    text::lemma_cut_str(a, g, b);
    lemma_no_gap(b, 0);
}

/// A text without a return holds no empty line.
proof fn lemma_no_gap(b: Seq<char>, i: int)
    requires
        0 <= i <= b.len() + 1,
        forall|j: int| 0 <= j < b.len() ==> #[trigger] b[j] != '\r',
    ensures
        text::sub_from(b, "\r\n\r\n"@, i) == b.len() + 1,
    decreases b.len() + 1 - i,
{
    reveal_strlit("\r\n\r\n");
    let g = "\r\n\r\n"@;
    if i <= b.len() {
        if text::starts(b.skip(i), g) {
            assert(b.skip(i).take(4)[0] == g[0]);
            assert(b.skip(i)[0] == b[i]);
        }
        lemma_no_gap(b, i + 1);
    }
}

/// The bits that are set are counted one by one.
pub proof fn law_bits_are_counted(n: int)
    requires
        n >= 0,
    ensures
        ones(2 * n) == ones(n),
        ones(2 * n + 1) == ones(n) + 1,
        ones(0) == 0,
{
    assert((2 * n) / 2 == n && (2 * n) % 2 == 0);
    assert((2 * n + 1) / 2 == n && (2 * n + 1) % 2 == 1);
}

/// An address is shown with the number of bits of its net, and with all of them where no
/// mask is known.
pub proof fn law_addresses_with_their_nets(ip: u32, six: u128)
    ensures
        v4_link(ip, None) == addr::v4_text(ip) + "/32"@,
        v4_link(ip, Some(0xffff_ff00)) == addr::v4_text(ip) + "/24"@,
        v6_link(six, None) == addr::ip_text(addr::IpAddr::V6(six)) + "/128"@,
{
    reveal_strlit("/");
    reveal_strlit("/32");
    reveal_strlit("/24");
    reveal_strlit("/128");
    reveal_with_fuel(text::written, 4);
    reveal_with_fuel(ones, 34);
    assert(text::decimal(32) =~= seq!['3', '2']);
    assert(text::decimal(24) =~= seq!['2', '4']);
    assert(text::decimal(128) =~= seq!['1', '2', '8']);
    let a = addr::v4_text(ip);
    assert(a + "/"@ + text::decimal(32) =~= a + "/32"@);
    assert(a + "/"@ + text::decimal(24) =~= a + "/24"@);
    let b = addr::ip_text(addr::IpAddr::V6(six));
    assert(b + "/"@ + text::decimal(128) =~= b + "/128"@);
}

/// The address of a card is shown with two digits for each of its six bytes, in their order.
pub proof fn law_addresses_of_cards(a: Seq<u8>, i: int)
    requires
        a.len() == 6,
        0 <= i < 6,
    ensures
        mac_text(a) is Some,
        mac_text(a)->0.len() == 17,
        text::value(mac_text(a)->0.subrange(3 * i, 3 * i + 2), 16) == a[i],
        i < 5 ==> mac_text(a)->0[3 * i + 2] == ':',
        mac_text(a.push(0)) is None,
        mac_text(a.drop_last()) is None,
{
    lemma_two_digits(a[0]);
    lemma_two_digits(a[1]);
    lemma_two_digits(a[2]);
    lemma_two_digits(a[3]);
    lemma_two_digits(a[4]);
    lemma_two_digits(a[5]);
    reveal_strlit(":");
    let m = mac_text(a)->0;
    assert(m.len() == 17);
    assert(i == 0 ==> m.subrange(0, 2) =~= hex2(a[0]));
    assert(i == 1 ==> m.subrange(3, 5) =~= hex2(a[1]));
    assert(i == 2 ==> m.subrange(6, 8) =~= hex2(a[2]));
    assert(i == 3 ==> m.subrange(9, 11) =~= hex2(a[3]));
    assert(i == 4 ==> m.subrange(12, 14) =~= hex2(a[4]));
    assert(i == 5 ==> m.subrange(15, 17) =~= hex2(a[5]));
}

/// A byte is written with two digits.
proof fn lemma_two_digits(b: u8)
    ensures
        hex2(b).len() == 2,
        text::value(hex2(b), 16) == b,
{
    let w = text::written(b as int, 16);
    text::lemma_written(b as int, 16);
    reveal_with_fuel(text::written, 3);
    if w.len() == 1 {
        let z = hex2(b);
        assert(z =~= seq!['0'] + w);
        assert(z.drop_last() =~= seq!['0']);
        assert(w.drop_last() =~= Seq::<char>::empty());
        assert(z.last() == w.last());
        assert(seq!['0'].drop_last() =~= Seq::<char>::empty());
        reveal_with_fuel(text::value, 3);
    }
}

/// An address belongs to the card it is listed for, and the machine's own is left out.
pub proof fn law_addresses_belong_to_their_cards(es: Seq<IfEntry>, n: int, name: Seq<char>)
    requires
        0 <= n < es.len(),
    ensures
        ({
            let e = es[n];
            let ours = !e.loopback && e.name@ == name;
            &&& e.addr matches LinkAddr::V4(ip, mask) ==> v4_run(es, name, n + 1) == if ours {
                v4_run(es, name, n).push(v4_link(ip, mask))
            } else {
                v4_run(es, name, n)
            }
            &&& e.addr matches LinkAddr::V6(ip, mask) ==> v6_run(es, name, n + 1) == if ours {
                v6_run(es, name, n).push(v6_link(ip, mask))
            } else {
                v6_run(es, name, n)
            }
            &&& !(e.addr is V4) ==> v4_run(es, name, n + 1) == v4_run(es, name, n)
            &&& !(e.addr is V6) ==> v6_run(es, name, n + 1) == v6_run(es, name, n)
            &&& e.addr matches LinkAddr::Hardware(a) ==> mac_run(es, name, n + 1) == if ours
                && a@.len() == 6 {
                mac_text(a@)
            } else {
                mac_run(es, name, n)
            }
            &&& !(e.addr is Hardware) ==> mac_run(es, name, n + 1) == mac_run(es, name, n)
            &&& e.loopback ==> names_run(es, n + 1) == names_run(es, n)
            &&& !e.loopback ==> names_run(es, n + 1) == names_run(es, n).insert(e.name@)
        }),
{
}

/// A card is shown with its own gateway and its own facts.
pub proof fn law_cards_are_shown_with_their_own(
    i: Iface,
    es: Seq<IfEntry>,
    gateways: Map<Seq<char>, u32>,
    hw: Map<Seq<char>, HwFacts>,
)
    requires
        shown_iface(i, es, gateways, hw),
    ensures
        gateways.contains_key(i.name@) ==> i.gateway is Some && i.gateway->0@ == addr::v4_text(
            gateways[i.name@],
        ),
        !gateways.contains_key(i.name@) ==> i.gateway is None,
        !hw.contains_key(i.name@) ==> i.driver is None && i.speed is None && i.link is None,
        hw.contains_key(i.name@) && hw[i.name@].carrier == Some(1u8) ==> i.link == Some(true),
        i.ipv4@.len() == v4_run(es, i.name@, es.len() as int).len(),
        i.ipv6@.len() == v6_run(es, i.name@, es.len() as int).len(),
{
}

/// The time since the start is the first number, in whole seconds.
pub proof fn law_time_since_the_start(n: int, rest: Seq<char>)
    requires
        0 <= n < 0x20_0000_0000_0000,
        rest.len() > 0 ==> text::is_space(rest[0]),
    ensures
        uptime_of(text::decimal(n) + rest) == n,
        uptime_of(Seq::<char>::empty()) == 0,
{
    let d = text::decimal(n);
    text::law_number_round_trip(n, n);
    text::lemma_first_word(d, rest);
    assert(text::words(d + rest)[0] == d);
    decimal::law_whole_numbers_are_read(n);
    assert(text::words(Seq::<char>::empty()).len() == 0);
}

/// The speeds that are shown are those that the processors name themselves, else those that
/// are listed, else those of the host.
pub proof fn law_which_speeds_are_shown(
    r: Seq<u32>,
    own: Seq<CpuFreq>,
    listing: Seq<u32>,
    host: Option<Seq<CpuFreq>>,
)
    requires
        freqs_shown(r, own, listing, host),
    ensures
        in_order(r, freq_map(own, own.len() as int)) || in_order(
            Seq::empty(),
            freq_map(own, own.len() as int),
        ),
        !in_order(r, freq_map(own, own.len() as int)) && listing.len() > 0 ==> r == listing,
        !in_order(r, freq_map(own, own.len() as int)) && listing.len() == 0 && host is Some
            ==> in_order(r, freq_map(host->0, host->0.len() as int)),
        r.len() > 0 && listing.len() == 0 && host is None ==> in_order(
            r,
            freq_map(own, own.len() as int),
        ),
{
    let o = choose|o: Seq<u32>| #[trigger]
        in_order(o, freq_map(own, own.len() as int)) && if o.len() > 0 {
            r == o
        } else if listing.len() > 0 {
            r == listing
        } else {
            match host {
                Some(h) => in_order(r, freq_map(h, h.len() as int)),
                None => r.len() == 0,
            }
        };
    if o.len() == 0 {
        assert(o =~= Seq::<u32>::empty());
    }
}

} // verus!
