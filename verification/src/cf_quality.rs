//! Which protocol serves the tunnel better, and for how long that is believed.

use crate::cf_config;
use crate::cf_config::Protocol;
use crate::cf_ctl;
use crate::cf_ctl::Egress;
use crate::cf_probe::{Sample, Stage};
use crate::decimal;
use crate::text;
use vstd::prelude::*;

verus! {

/// How many rounds a comparison takes.
pub const ROUNDS: usize = 4;

/// For how long a verdict counts, in seconds.
pub const SCORE_TTL_SEC: u64 = 21_600;

/// The shortest pause between two comparisons, in seconds.
pub const MIN_PROBE_GAP_SEC: u64 = 1_200;

/// The longest pause between two comparisons, in seconds.
pub const MAX_PROBE_GAP_SEC: u64 = 21_600;

/// The pause after a comparison was refused, in seconds.
pub const REFUSED_GAP_SEC: u64 = 7_200;

/// For how long what was measured counts, in seconds.
pub const HISTORY_TTL_SEC: u64 = 86_400;

/// For how long a protocol is kept before another one takes its place, in seconds.
pub const DWELL_SEC: u64 = 3_600;

/// The pause between two comparisons of a running tunnel, in seconds.
pub const RESCORE_INTERVAL_SEC: u64 = 3_600;

/// Where a verdict comes from.
#[derive(Debug, Clone, Copy, PartialEq, Eq, Structural)]
pub enum VerdictSource {
    /// Both protocols were compared.
    Scored,
    /// The other one did not work.
    Fallback,
}

/// The name of where a verdict comes from.
pub open spec fn source_text(v: VerdictSource) -> Seq<char> {
    match v {
        VerdictSource::Scored => "scored"@,
        VerdictSource::Fallback => "fallback"@,
    }
}

/// Where a verdict comes from, by its name.
pub open spec fn source_of(s: Seq<char>) -> Option<VerdictSource> {
    if s == "scored"@ {
        Some(VerdictSource::Scored)
    } else if s == "fallback"@ {
        Some(VerdictSource::Fallback)
    } else {
        None
    }
}

impl VerdictSource {
    /// The name of where a verdict comes from.
    pub fn as_str(self) -> (r: &'static str)
        ensures
            r@ == source_text(self),
    {
        match self {
            VerdictSource::Scored => "scored",
            VerdictSource::Fallback => "fallback",
        }
    }

    /// Where a verdict comes from, by its name.
    pub fn parse(s: &[char]) -> (r: Option<VerdictSource>)
        ensures
            r == source_of(s@),
    {
        if text::same(s, "scored") {
            Some(VerdictSource::Scored)
        } else if text::same(s, "fallback") {
            Some(VerdictSource::Fallback)
        } else {
            None
        }
    }
}

/// The file of a kind of state, for one way out.
pub open spec fn state_file(dir: Seq<char>, kind: Seq<char>, egress: Egress) -> Seq<char> {
    dir + "/sniffbox.cf."@ + kind + "."@ + cf_ctl::egress_text(egress)
}

/// The file of a kind of state.
fn state_path(dir: &str, kind: &str, egress: Egress) -> (r: String)
    ensures
        r@ == state_file(dir@, kind@, egress),
{
    let mut out = dir.to_owned();
    out.append("/sniffbox.cf.");
    out.append(kind);
    out.append(".");
    out.append(egress.as_str());
    assert(out@ =~= state_file(dir@, kind@, egress));
    out
}

/// The file of the verdict.
pub fn verdict_path(dir: &str, egress: Egress) -> (r: String)
    ensures
        r@ == state_file(dir@, "proto"@, egress),
{
    state_path(dir, "proto", egress)
}

/// The file that tells when a comparison is allowed.
pub fn gate_path(dir: &str, egress: Egress) -> (r: String)
    ensures
        r@ == state_file(dir@, "probe"@, egress),
{
    state_path(dir, "probe", egress)
}

/// The file of what was measured.
pub fn history_path(dir: &str, egress: Egress) -> (r: String)
    ensures
        r@ == state_file(dir@, "history"@, egress),
{
    state_path(dir, "history", egress)
}

/// The two ways out never share a file.
pub proof fn law_files_are_separate(dir: Seq<char>, kind: Seq<char>)
    ensures
        state_file(dir, kind, Egress::Direct) != state_file(dir, kind, Egress::Proxied),
{
    reveal_strlit("proxy");
    reveal_strlit("direct");
    assert("proxy"@.len() == 5);
    assert("direct"@.len() == 6);
    assert(state_file(dir, kind, Egress::Direct).len() != state_file(dir, kind, Egress::Proxied).len());
}

/// What is kept of a verdict.
pub open spec fn verdict_text(proto: Protocol, now: int, src: VerdictSource) -> Seq<char> {
    cf_config::protocol_text(proto) + " "@ + text::decimal(now) + " "@ + source_text(src)
}

/// What is kept of a verdict.
pub fn remember_verdict(proto: Protocol, now: u64, src: VerdictSource) -> (r: String)
    ensures
        r@ == verdict_text(proto, now as int, src),
{
    let mut out = proto.as_str().to_owned();
    out.append(" ");
    text::push_decimal(&mut out, now);
    out.append(" ");
    out.append(src.as_str());
    assert(out@ =~= verdict_text(proto, now as int, src));
    out
}

/// A verdict, its age in seconds and where it comes from. An age that cannot be
/// told is the largest number.
pub open spec fn verdict_in(s: Seq<char>, now: u64) -> Option<(Protocol, u64, VerdictSource)> {
    let w = text::words(s);
    if w.len() == 0 {
        None
    } else {
        match cf_config::protocol_of(w[0]) {
            Some(p) => {
                let age = if w.len() > 1 {
                    match text::number(w[1], 10, u64::MAX as int) {
                        Some(ts) => if ts <= now {
                            (now - ts) as u64
                        } else {
                            u64::MAX
                        },
                        None => u64::MAX,
                    }
                } else {
                    u64::MAX
                };
                let src = if w.len() > 2 {
                    match source_of(w[2]) {
                        Some(v) => v,
                        None => VerdictSource::Scored,
                    }
                } else {
                    VerdictSource::Scored
                };
                Some((p, age, src))
            },
            None => None,
        }
    }
}

/// A verdict, its age in seconds and where it comes from. The text is what is
/// kept; `None` stands for nothing.
pub fn read_verdict(kept: Option<&str>, now: u64) -> (r: Option<(Protocol, u64, VerdictSource)>)
    ensures
        r == match kept {
            Some(s) => verdict_in(s@, now),
            None => None,
        },
{
    let s = match kept {
        Some(s) => s,
        None => return None,
    };
    let cs = text::chars_of(s);
    let w = text::words_of(cs.as_slice());
    let ghost all = text::words(s@);
    assert(all == text::texts(w@));
    if w.len() == 0 {
        return None;
    }
    assert(all[0] == w@[0]@);
    let p = match Protocol::parse(text::str_of(w[0]).as_str()) {
        Some(p) => p,
        None => return None,
    };
    let age: u64 = if w.len() > 1 {
        assert(all[1] == w@[1]@);
        match text::parse_number(w[1], 10, u64::MAX) {
            Some(ts) => if ts <= now {
                now - ts
            } else {
                u64::MAX
            },
            None => u64::MAX,
        }
    } else {
        u64::MAX
    };
    let src = if w.len() > 2 {
        assert(all[2] == w@[2]@);
        match VerdictSource::parse(w[2]) {
            Some(v) => v,
            None => VerdictSource::Scored,
        }
    } else {
        VerdictSource::Scored
    };
    Some((p, age, src))
}

/// A verdict that still counts.
pub open spec fn fresh(kept: Option<Seq<char>>, now: u64) -> Option<(Protocol, VerdictSource)> {
    match kept {
        Some(s) => match verdict_in(s, now) {
            Some((p, age, src)) => if age < SCORE_TTL_SEC {
                Some((p, src))
            } else {
                None
            },
            None => None,
        },
        None => None,
    }
}

/// A verdict that still counts.
pub fn fresh_verdict(kept: Option<&str>, now: u64) -> (r: Option<(Protocol, VerdictSource)>)
    ensures
        r == fresh(text::opt_str(kept), now),
{
    match read_verdict(kept, now) {
        Some((p, age, src)) => if age < SCORE_TTL_SEC {
            Some((p, src))
        } else {
            None
        },
        None => None,
    }
}

/// A verdict is read back as it was given, with the time since then as its age;
/// it counts until that time is over.
pub proof fn law_verdict_round_trip(proto: Protocol, then: u64, src: VerdictSource, now: u64)
    requires
        then <= now,
    ensures
        verdict_in(verdict_text(proto, then as int, src), now) == Some((proto, (now - then) as u64, src)),
        fresh(Some(verdict_text(proto, then as int, src)), now) == if now - then < SCORE_TTL_SEC {
            Some((proto, src))
        } else {
            None
        },
{
    let a = cf_config::protocol_text(proto);
    let b = text::decimal(then as int);
    let c = source_text(src);
    cf_config::law_protocol_names(proto);
    text::law_number_round_trip(then as int, u64::MAX as int);
    reveal_strlit("scored");
    reveal_strlit("fallback");
    reveal_strlit(" ");
    assert("scored"@.len() == 6);
    assert("fallback"@.len() == 8);
    assert(" "@ =~= seq![' ']);
    let s2 = " "@ + c;
    let s1 = " "@ + (b + s2);
    assert(verdict_text(proto, then as int, src) =~= a + s1);
    assert(s1[0] == ' ');
    assert(s2[0] == ' ');
    text::lemma_first_word(a, s1);
    text::lemma_space_first(' ', b + s2);
    assert(s1 =~= seq![' '] + (b + s2));
    text::lemma_first_word(b, s2);
    text::lemma_space_first(' ', c);
    assert(s2 =~= seq![' '] + c);
    assert(c + Seq::<char>::empty() =~= c);
    text::lemma_first_word(c, Seq::empty());
    assert(text::words(Seq::<char>::empty()) =~= Seq::<Seq<char>>::empty()) by {
        text::lemma_lead_bounds(Seq::empty(), text::spaces());
        assert(text::trim_start_of(Seq::empty(), text::spaces()) =~= Seq::<char>::empty());
    }
    assert(text::words(a + s1) =~= seq![a, b, c]);
}

/// When the last comparison was made and how many failed since, both zero where
/// that is not known.
pub open spec fn gate_in(s: Seq<char>) -> (u64, u32) {
    let w = text::words(s);
    (
        if w.len() > 0 {
            match text::number(w[0], 10, u64::MAX as int) {
                Some(n) => n as u64,
                None => 0,
            }
        } else {
            0
        },
        if w.len() > 1 {
            match text::number(w[1], 10, u32::MAX as int) {
                Some(n) => n as u32,
                None => 0,
            }
        } else {
            0
        },
    )
}

/// When the last comparison was made and how many failed since.
pub fn read_gate(kept: &str) -> (r: (u64, u32))
    ensures
        r == gate_in(kept@),
{
    let cs = text::chars_of(kept);
    let w = text::words_of(cs.as_slice());
    let ghost all = text::words(kept@);
    assert(all == text::texts(w@));
    let at: u64 = if w.len() > 0 {
        assert(all[0] == w@[0]@);
        match text::parse_number(w[0], 10, u64::MAX) {
            Some(n) => n,
            None => 0,
        }
    } else {
        0
    };
    let fails: u32 = if w.len() > 1 {
        assert(all[1] == w@[1]@);
        match text::parse_number(w[1], 10, u32::MAX as u64) {
            Some(n) => n as u32,
            None => 0,
        }
    } else {
        0
    };
    (at, fails)
}

/// What is kept of a comparison.
pub open spec fn attempt_text(now: u64, fails: u32) -> Seq<char> {
    text::decimal(now as int) + " "@ + text::decimal(fails as int)
}

/// What is kept of a comparison.
pub fn record_attempt(now: u64, fails: u32) -> (r: String)
    ensures
        r@ == attempt_text(now, fails),
{
    let mut out = text::decimal_of(now);
    out.append(" ");
    text::push_decimal(&mut out, fails as u64);
    out
}

/// Two to a power of at most five.
pub open spec fn doublings(fails: u32) -> int {
    if fails == 0 {
        1
    } else if fails == 1 {
        2
    } else if fails == 2 {
        4
    } else if fails == 3 {
        8
    } else if fails == 4 {
        16
    } else {
        32
    }
}

/// The pause after failed comparisons, in seconds: it doubles with each of them,
/// up to a limit.
pub open spec fn pause(fails: u32, refused: bool) -> int {
    let base: int = if refused {
        REFUSED_GAP_SEC as int
    } else {
        MIN_PROBE_GAP_SEC as int
    };
    let all = base * doublings(fails);
    if all < MAX_PROBE_GAP_SEC {
        all
    } else {
        MAX_PROBE_GAP_SEC as int
    }
}

/// The pause after failed comparisons, in seconds.
pub fn backoff(fails: u32, refused: bool) -> (r: u64)
    ensures
        r == pause(fails, refused),
{
    let base: u64 = if refused {
        REFUSED_GAP_SEC
    } else {
        MIN_PROBE_GAP_SEC
    };
    let times: u64 = if fails == 0 {
        1
    } else if fails == 1 {
        2
    } else if fails == 2 {
        4
    } else if fails == 3 {
        8
    } else if fails == 4 {
        16
    } else {
        32
    };
    assert(base * times <= 7_200 * 32) by (nonlinear_arith)
        requires
            base <= 7_200,
            times <= 32,
    ;
    let all: u64 = base * times;
    if all < MAX_PROBE_GAP_SEC {
        all
    } else {
        MAX_PROBE_GAP_SEC
    }
}

/// More failures never shorten the pause, and it keeps within its limits.
pub proof fn law_pause_grows(a: u32, b: u32, refused: bool)
    requires
        a <= b,
    ensures
        pause(a, refused) <= pause(b, refused),
        MIN_PROBE_GAP_SEC <= pause(a, refused) <= MAX_PROBE_GAP_SEC,
{
}

/// How long the next comparison has to wait, in seconds: what is left of the pause
/// since the last one.
pub open spec fn wait_of(kept: Seq<char>, now: u64) -> int {
    let (at, fails) = gate_in(kept);
    let since: int = if now > at {
        now - at
    } else {
        0
    };
    if pause(fails, false) > since {
        pause(fails, false) - since
    } else {
        0
    }
}

/// How long the next comparison has to wait, in seconds.
pub fn probe_wait(kept: &str, now: u64) -> (r: u64)
    ensures
        r == wait_of(kept@, now),
{
    let (at, fails) = read_gate(kept);
    backoff(fails, false).saturating_sub(now.saturating_sub(at))
}

/// A number of failures and more of them, as far as they can be counted.
pub open spec fn more(fails: u32, n: int) -> u32 {
    if fails + n <= u32::MAX {
        (fails + n) as u32
    } else {
        u32::MAX
    }
}

/// How many failures are noted before a comparison starts.
pub fn fails_before(fails: u32) -> (r: u32)
    ensures
        r == more(fails, 1),
{
    fails.saturating_add(1)
}

/// How many failures are noted once a comparison is over; `None` where the number
/// stays as it was noted before. None is noted where both protocols were measured,
/// and one more where the comparison was refused.
pub fn fails_after(measured: usize, refused: bool, fails: u32) -> (r: Option<u32>)
    ensures
        r == if measured == 2 {
            Some(0u32)
        } else if refused {
            Some(more(fails, 2))
        } else {
            None
        },
{
    if measured == 2 {
        Some(0)
    } else if refused {
        Some(fails.saturating_add(2))
    } else {
        None
    }
}

/// How a protocol compares with another.
#[derive(Debug, Clone, Copy, PartialEq, Eq, Structural)]
pub enum Rank {
    Better,
    Same,
    Worse,
}

/// How a protocol compares with another, where that can be told. One that was
/// measured beats one that never came up; one that came up and could not be
/// measured tells nothing.
pub fn rank(
    a_scored: bool,
    a_ready: bool,
    b_scored: bool,
    b_ready: bool,
    a_better: bool,
    b_better: bool,
) -> (r: Option<Rank>)
    ensures
        r == ranked(a_scored, a_ready, b_scored, b_ready, a_better, b_better),
{
    if a_scored && b_scored {
        if a_better {
            Some(Rank::Better)
        } else if b_better {
            Some(Rank::Worse)
        } else {
            Some(Rank::Same)
        }
    } else if a_scored {
        if b_ready {
            None
        } else {
            Some(Rank::Better)
        }
    } else if b_scored {
        if a_ready {
            None
        } else {
            Some(Rank::Worse)
        }
    } else {
        None
    }
}

/// How a protocol compares with another, where that can be told.
pub open spec fn ranked(
    a_scored: bool,
    a_ready: bool,
    b_scored: bool,
    b_ready: bool,
    a_better: bool,
    b_better: bool,
) -> Option<Rank> {
    if a_scored && b_scored {
        Some(
            if a_better {
                Rank::Better
            } else if b_better {
                Rank::Worse
            } else {
                Rank::Same
            },
        )
    } else if a_scored && !b_ready {
        Some(Rank::Better)
    } else if b_scored && !a_ready {
        Some(Rank::Worse)
    } else {
        None
    }
}

/// Comparing the other way round gives the opposite answer, where not both are
/// said to be better.
pub proof fn law_rank_is_fair(
    a_scored: bool,
    a_ready: bool,
    b_scored: bool,
    b_ready: bool,
    a_better: bool,
    b_better: bool,
)
    requires
        !(a_better && b_better),
        a_scored ==> a_ready,
        b_scored ==> b_ready,
    ensures
        ranked(b_scored, b_ready, a_scored, a_ready, b_better, a_better) == match ranked(
            a_scored,
            a_ready,
            b_scored,
            b_ready,
            a_better,
            b_better,
        ) {
            Some(Rank::Better) => Some(Rank::Worse),
            Some(Rank::Worse) => Some(Rank::Better),
            Some(Rank::Same) => Some(Rank::Same),
            None => None,
        },
{
}

/// By how much an answer must come sooner to matter, in nanoseconds.
pub const MIN_LATENCY_GAIN_NS: u128 = 30_000_000;

/// How the measures of a protocol compare with those of another.
#[derive(Debug, Clone, Copy, PartialEq, Eq, Structural)]
pub struct Compared {
    /// A larger share of its requests was completed.
    pub completes_more: bool,
    /// A smaller share of its requests was completed.
    pub completes_less: bool,
    /// It is faster by the margin.
    pub faster: bool,
    /// The other one is faster by the margin.
    pub slower: bool,
    /// Its time to the first byte, longer by the margin, is still within the other's.
    pub ahead: bool,
    /// Its time to the first byte, in nanoseconds.
    pub ttfb_ns: u128,
    /// The other's time to the first byte, in nanoseconds.
    pub other_ns: u128,
}

/// Whether a time is sooner than another: by the margin, and by enough to matter.
pub open spec fn sooner(ahead: bool, ns: u128, other_ns: u128) -> bool {
    ahead && other_ns - ns >= MIN_LATENCY_GAIN_NS
}

/// Whether a time is sooner than another.
fn is_sooner(ahead: bool, ns: u128, other_ns: u128) -> (r: bool)
    ensures
        r == sooner(ahead, ns, other_ns),
{
    ahead && other_ns >= ns && other_ns - ns >= MIN_LATENCY_GAIN_NS
}

/// Whether a protocol is clearly better: what it completes counts first, then how fast it
/// is, then how soon it answers.
pub open spec fn better(c: Compared) -> bool {
    c.completes_more || (!c.completes_less && (c.faster || (!c.slower && sooner(
        c.ahead,
        c.ttfb_ns,
        c.other_ns,
    ))))
}

/// Whether a protocol is clearly better than another.
pub fn clearly_better(c: Compared) -> (r: bool)
    ensures
        r == better(c),
{
    if c.completes_more {
        return true;
    }
    if c.completes_less {
        return false;
    }
    if c.faster {
        return true;
    }
    if c.slower {
        return false;
    }
    is_sooner(c.ahead, c.ttfb_ns, c.other_ns)
}

/// Whether two comparisons are of the same measures, either way round, and the protocols
/// are not each faster by the margin than the other.
pub open spec fn mirrored(a: Compared, b: Compared) -> bool {
    &&& a.completes_more == b.completes_less
    &&& a.completes_less == b.completes_more
    &&& !(a.completes_more && a.completes_less)
    &&& a.faster == b.slower
    &&& a.slower == b.faster
    &&& !(a.faster && a.slower)
    &&& a.ttfb_ns == b.other_ns
    &&& a.other_ns == b.ttfb_ns
}

/// Of two protocols at most one is clearly better, and none is better than itself. What is
/// completed decides before the speed, and the speed before the delay.
pub proof fn law_one_is_better(a: Compared, b: Compared)
    requires
        mirrored(a, b),
    ensures
        !(better(a) && better(b)),
        a == b ==> !better(a),
        a.completes_more ==> better(a),
        !a.completes_more && !b.completes_more && a.faster ==> better(a),
        a.completes_more || a.completes_less || a.faster || a.slower ==> better(a) == !better(b),
{
}

/// The protocol that a comparison of QUIC with HTTP/2 picks. A draw goes to QUIC.
pub fn winner(r: Rank) -> (p: Protocol)
    ensures
        p == match r {
            Rank::Better => Protocol::Quic,
            Rank::Same => Protocol::Quic,
            Rank::Worse => Protocol::Http2,
        },
{
    match r {
        Rank::Better => Protocol::Quic,
        Rank::Same => Protocol::Quic,
        Rank::Worse => Protocol::Http2,
    }
}

/// How a comparison of the protocols begins.
pub enum PickStart {
    /// Not yet; this many seconds have to pass first.
    Wait(u64),
    /// Now. This is noted before anything is measured, and so many failures were noted
    /// before.
    Go(String, u32),
}

/// How a comparison of the protocols begins, from what is kept of the attempts: once
/// the pause is over, and with one more failure noted in case it does not end.
pub fn pick_start(kept: &str, now: u64) -> (r: PickStart)
    ensures
        match r {
            PickStart::Wait(w) => w == wait_of(kept@, now) && w > 0,
            PickStart::Go(note, fails) => {
                &&& wait_of(kept@, now) == 0
                &&& fails == gate_in(kept@).1
                &&& note@ == attempt_text(now, more(fails, 1))
            },
        },
{
    let wait = probe_wait(kept, now);
    if wait > 0 {
        return PickStart::Wait(wait);
    }
    let (_, fails) = read_gate(kept);
    PickStart::Go(record_attempt(now, fails_before(fails)), fails)
}

/// How one protocol came out: whether it was measured, whether it came up, and whether
/// it was refused.
#[derive(Debug, Clone, Copy, PartialEq, Eq, Structural)]
pub struct ArmResult {
    pub scored: bool,
    pub ready: bool,
    pub refused: bool,
}

/// What a comparison comes to.
#[derive(Debug, Clone, Copy, PartialEq, Eq, Structural)]
pub struct PickEnd {
    /// The edges are looked at, and what was measured is kept.
    pub keep: bool,
    /// How many failures are noted, where the number changes.
    pub fails: Option<u32>,
    /// The protocol that won; `None` where the edges and what was measured before are to
    /// decide.
    pub verdict: Option<Protocol>,
}

/// What a comparison comes to: `better` tells whether QUIC is clearly better than
/// HTTP/2, and `worse` the other way round.
pub open spec fn picked(quic: ArmResult, http2: ArmResult, better: bool, worse: bool, fails: u32) -> PickEnd {
    let measured = (if quic.scored {
        1int
    } else {
        0
    }) + (if http2.scored {
        1int
    } else {
        0
    });
    PickEnd {
        keep: measured > 0,
        fails: if measured == 2 {
            Some(0u32)
        } else if quic.refused || http2.refused {
            Some(more(fails, 2))
        } else {
            None
        },
        verdict: match ranked(quic.scored, quic.ready, http2.scored, http2.ready, better, worse) {
            Some(Rank::Worse) => Some(Protocol::Http2),
            Some(_) => Some(Protocol::Quic),
            None => None,
        },
    }
}

/// What a comparison comes to.
pub fn pick_end(quic: ArmResult, http2: ArmResult, better: bool, worse: bool, fails: u32) -> (r: PickEnd)
    ensures
        r == picked(quic, http2, better, worse, fails),
{
    let measured: usize = (if quic.scored {
        1usize
    } else {
        0
    }) + (if http2.scored {
        1usize
    } else {
        0
    });
    PickEnd {
        keep: measured > 0,
        fails: fails_after(measured, quic.refused || http2.refused, fails),
        verdict: match rank(quic.scored, quic.ready, http2.scored, http2.ready, better, worse) {
            Some(v) => Some(winner(v)),
            None => None,
        },
    }
}

/// A protocol that was measured wins over one that never came up, however the measures
/// compare, and a comparison of which nothing is known says nothing.
pub proof fn law_pick_needs_a_measure(
    quic: ArmResult,
    http2: ArmResult,
    better: bool,
    worse: bool,
    fails: u32,
)
    ensures
        !quic.scored && !http2.scored ==> picked(quic, http2, better, worse, fails).verdict is None,
        quic.scored && !http2.scored && !http2.ready ==> picked(
            quic,
            http2,
            better,
            worse,
            fails,
        ).verdict == Some(Protocol::Quic),
        http2.scored && !quic.scored && !quic.ready ==> picked(
            quic,
            http2,
            better,
            worse,
            fails,
        ).verdict == Some(Protocol::Http2),
{
}

/// The protocol that one of two signs favours.
pub fn favoured(quic: bool, http2: bool) -> (r: Option<Protocol>)
    ensures
        r == if quic {
            Some(Protocol::Quic)
        } else if http2 {
            Some(Protocol::Http2)
        } else {
            None
        },
{
    if quic {
        Some(Protocol::Quic)
    } else if http2 {
        Some(Protocol::Http2)
    } else {
        None
    }
}

/// The protocol that is picked without a comparison: the way to the edge and what
/// was measured before must favour the same one.
pub fn degraded_pick(by_edge: Option<Protocol>, by_history: Option<Protocol>) -> (r: Option<Protocol>)
    ensures
        r == if by_edge is Some && by_edge == by_history {
            by_edge
        } else {
            None
        },
{
    match (by_edge, by_history) {
        (Some(a), Some(b)) => if a == b {
            Some(a)
        } else {
            None
        },
        _ => None,
    }
}

/// What speaks for either protocol: whether anything is known of both, and whether it
/// favours QUIC or HTTP/2 clearly.
#[derive(Debug, Clone, Copy, PartialEq, Eq, Structural)]
pub struct Signs {
    pub known: bool,
    pub quic: bool,
    pub http2: bool,
}

/// What the times to the edge speak for: the protocol whose edge answers sooner. Whether
/// a time is within the margin of the other is known already.
pub fn edge_signs(
    quic_ns: Option<u128>,
    http2_ns: Option<u128>,
    quic_ahead: bool,
    http2_ahead: bool,
) -> (r: Signs)
    ensures
        r.known == (quic_ns is Some && http2_ns is Some),
        r.quic == (r.known && sooner(quic_ahead, quic_ns->0, http2_ns->0)),
        r.http2 == (r.known && sooner(http2_ahead, http2_ns->0, quic_ns->0)),
        !(r.quic && r.http2),
{
    match (quic_ns, http2_ns) {
        (Some(q), Some(h)) => Signs {
            known: true,
            quic: is_sooner(quic_ahead, q, h),
            http2: is_sooner(http2_ahead, h, q),
        },
        _ => Signs { known: false, quic: false, http2: false },
    }
}

/// The protocol that signs favour.
pub open spec fn sign_of(s: Signs) -> Option<Protocol> {
    if s.known && s.quic {
        Some(Protocol::Quic)
    } else if s.known && s.http2 {
        Some(Protocol::Http2)
    } else {
        None
    }
}

/// The protocol that a comparison chooses: the one that won, and where none did, the one
/// that both the way to the edges and what was measured favour.
pub open spec fn choice(end: PickEnd, edges: Signs, measures: Signs) -> Option<Protocol> {
    match end.verdict {
        Some(p) => Some(p),
        None => if sign_of(edges) is Some && sign_of(edges) == sign_of(measures) {
            sign_of(edges)
        } else {
            None
        },
    }
}

/// The protocol that a comparison chooses, from what it came to, how the edges answer, and
/// how what was measured now or before compares.
pub fn pick_choice(end: PickEnd, edges: Signs, measures: Signs) -> (r: Option<Protocol>)
    ensures
        r == choice(end, edges, measures),
{
    if end.verdict.is_some() {
        return end.verdict;
    }
    let by_edge = if edges.known {
        favoured(edges.quic, edges.http2)
    } else {
        None
    };
    let by_history = if measures.known {
        favoured(measures.quic, measures.http2)
    } else {
        None
    };
    degraded_pick(by_edge, by_history)
}

/// A protocol that won is chosen whatever the edges and earlier measures say, and without
/// a winner nothing is chosen that they do not both favour.
pub proof fn law_choice(end: PickEnd, edges: Signs, measures: Signs)
    ensures
        end.verdict is Some ==> choice(end, edges, measures) == end.verdict,
        end.verdict is None && choice(end, edges, measures) is Some ==> choice(end, edges, measures)
            == sign_of(edges) && choice(end, edges, measures) == sign_of(measures),
        end.verdict is None && (!edges.known || !measures.known) ==> choice(end, edges, measures) is None,
{
}

/// What is done with a running tunnel once a comparison is over.
#[derive(Debug, Clone, Copy, PartialEq, Eq, Structural)]
pub enum Rescore {
    /// The verdict is noted.
    Confirm,
    /// The verdict is noted and the tunnel changes to it.
    Switch,
    /// Nothing is changed.
    Stay,
}

/// What is done with a running tunnel once a comparison is over. It changes only
/// after it has stayed long enough.
pub fn rescore(incumbent: Protocol, verdict: Option<Protocol>, placed_sec: u64) -> (r: Rescore)
    ensures
        r == match verdict {
            Some(w) => if w == incumbent {
                Rescore::Confirm
            } else if placed_sec >= DWELL_SEC {
                Rescore::Switch
            } else {
                Rescore::Stay
            },
            None => Rescore::Stay,
        },
{
    match verdict {
        Some(w) => if w == incumbent {
            Rescore::Confirm
        } else if placed_sec >= DWELL_SEC {
            Rescore::Switch
        } else {
            Rescore::Stay
        },
        None => Rescore::Stay,
    }
}

/// What was measured once, as it is kept. The rate and the share that was completed are
/// numbers with a fraction; they are kept as they are written.
pub struct HistRow {
    pub protocol: Protocol,
    pub rate: String,
    pub ttfb_ms: u128,
    pub completed: String,
    pub edge_ms: u128,
    pub at: u64,
}

/// What was measured once, as values.
#[verifier::ext_equal]
pub struct RowView {
    pub protocol: Protocol,
    pub rate: Seq<char>,
    pub ttfb_ms: u128,
    pub completed: Seq<char>,
    pub edge_ms: u128,
    pub at: u64,
}

impl View for HistRow {
    type V = RowView;

    open spec fn view(&self) -> RowView {
        RowView {
            protocol: self.protocol,
            rate: self.rate@,
            ttfb_ms: self.ttfb_ms,
            completed: self.completed@,
            edge_ms: self.edge_ms,
            at: self.at,
        }
    }
}

/// What a line tells; `None` for one that has not six fields, or of which one is not
/// what it should be.
pub open spec fn row_of(line: Seq<char>) -> Option<RowView> {
    let w = text::words(line);
    if w.len() != 6 || decimal::number_of(w[1]) is None || decimal::number_of(w[3]) is None {
        None
    } else {
        match (
            cf_config::protocol_of(w[0]),
            text::number(w[2], 10, u128::MAX as int),
            text::number(w[4], 10, u128::MAX as int),
            text::number(w[5], 10, u64::MAX as int),
        ) {
            (Some(protocol), Some(ttfb), Some(edge), Some(at)) => Some(
                RowView {
                    protocol,
                    rate: w[1],
                    ttfb_ms: ttfb as u128,
                    completed: w[3],
                    edge_ms: edge as u128,
                    at: at as u64,
                },
            ),
            _ => None,
        }
    }
}

/// What a line tells.
pub fn parse_row(line: &[char]) -> (r: Option<HistRow>)
    ensures
        match r {
            Some(x) => row_of(line@) == Some(x@),
            None => row_of(line@) is None,
        },
{
    let w = text::words_of(line);
    let ghost all = text::words(line@);
    assert(all == text::texts(w@));
    if w.len() != 6 {
        return None;
    }
    assert(forall|i: int| 0 <= i < 6 ==> #[trigger] all[i] == w@[i]@);
    let protocol = match Protocol::parse(text::str_of(w[0]).as_str()) {
        Some(p) => p,
        None => return None,
    };
    if decimal::parse(w[1]).is_none() || decimal::parse(w[3]).is_none() {
        return None;
    }
    let ttfb_ms = match text::parse_wide(w[2]) {
        Some(n) => n,
        None => return None,
    };
    let edge_ms = match text::parse_wide(w[4]) {
        Some(n) => n,
        None => return None,
    };
    let at = match text::parse_number(w[5], 10, u64::MAX) {
        Some(n) => n,
        None => return None,
    };
    Some(
        HistRow {
            protocol,
            rate: text::str_of(w[1]),
            ttfb_ms,
            completed: text::str_of(w[3]),
            edge_ms,
            at,
        },
    )
}

/// What the first `n` lines tell. A line that tells nothing is passed over.
pub open spec fn rows_run(ls: Seq<Seq<char>>, n: int) -> Seq<RowView>
    decreases n,
{
    if n <= 0 {
        Seq::empty()
    } else {
        match row_of(ls[n - 1]) {
            Some(r) => rows_run(ls, n - 1).push(r),
            None => rows_run(ls, n - 1),
        }
    }
}

/// What was measured, as a text keeps it.
pub open spec fn history(kept: Seq<char>) -> Seq<RowView> {
    rows_run(text::lines(kept), text::lines(kept).len() as int)
}

/// The views of rows.
pub open spec fn row_views(v: Seq<HistRow>) -> Seq<RowView> {
    v.map_values(|r: HistRow| r@)
}

/// What was measured, as a text keeps it.
pub fn load_history(kept: &str) -> (r: Vec<HistRow>)
    ensures
        row_views(r@) == history(kept@),
{
    let cs = text::chars_of(kept);
    let ls = text::lines_of(cs.as_slice());
    let ghost all = text::lines(kept@);
    assert(all == text::texts(ls@));
    let mut out: Vec<HistRow> = Vec::new();
    let mut i: usize = 0;
    assert(row_views(out@) =~= Seq::<RowView>::empty());
    while i < ls.len()
        invariant
            i <= ls@.len(),
            all == text::texts(ls@),
            row_views(out@) == rows_run(all, i as int),
        decreases ls@.len() - i,
    {
        assert(all[i as int] == ls@[i as int]@);
        match parse_row(ls[i]) {
            Some(r) => {
                let ghost before = out@;
                out.push(r);
                assert(row_views(out@) =~= row_views(before).push(r@));
            },
            None => {},
        }
        i = i + 1;
    }
    out
}

/// The line that keeps what was measured once.
pub open spec fn row_text(r: RowView) -> Seq<char> {
    cf_config::protocol_text(r.protocol) + " "@ + r.rate + " "@ + text::decimal(r.ttfb_ms as int) + " "@
        + r.completed + " "@ + text::decimal(r.edge_ms as int) + " "@ + text::decimal(r.at as int)
}

/// The line that keeps what was measured once.
fn write_row(r: &HistRow) -> (out: String)
    ensures
        out@ == row_text(r@),
{
    let mut out = r.protocol.as_str().to_owned();
    out.append(" ");
    out.append(r.rate.as_str());
    out.append(" ");
    text::push_wide(&mut out, r.ttfb_ms);
    out.append(" ");
    out.append(r.completed.as_str());
    out.append(" ");
    text::push_wide(&mut out, r.edge_ms);
    out.append(" ");
    text::push_decimal(&mut out, r.at);
    out
}

/// The text that keeps what was measured.
pub open spec fn history_text(rows: Seq<RowView>) -> Seq<char> {
    text::joined(rows.map_values(|r: RowView| row_text(r)), "\n"@)
}

/// Whether one of the rows is of a protocol.
pub open spec fn has_row(rows: Seq<RowView>, p: Protocol) -> bool {
    exists|i: int| 0 <= i < rows.len() && (#[trigger] rows[i]).protocol == p
}

/// What stays of the first `n` rows once others are measured: those of the other
/// protocols.
pub open spec fn spared(rows: Seq<RowView>, scored: Seq<RowView>, n: int) -> Seq<RowView>
    decreases n,
{
    if n <= 0 {
        Seq::empty()
    } else if has_row(scored, rows[n - 1].protocol) {
        spared(rows, scored, n - 1)
    } else {
        spared(rows, scored, n - 1).push(rows[n - 1])
    }
}

/// What is kept once something was measured: the rows of the other protocols, and then
/// what was measured.
pub open spec fn history_with(rows: Seq<RowView>, scored: Seq<RowView>) -> Seq<RowView> {
    spared(rows, scored, rows.len() as int) + scored
}

/// Whether one of the rows is of a protocol.
fn row_for(rows: &[HistRow], p: Protocol) -> (r: bool)
    ensures
        r == has_row(row_views(rows@), p),
{
    let mut i: usize = 0;
    while i < rows.len()
        invariant
            i <= rows@.len(),
            forall|j: int| 0 <= j < i ==> (#[trigger] row_views(rows@)[j]).protocol != p,
        decreases rows@.len() - i,
    {
        assert(row_views(rows@)[i as int] == rows@[i as int]@);
        if rows[i].protocol == p {
            return true;
        }
        i = i + 1;
    }
    false
}

/// The text that keeps what was measured before and now.
pub fn record_history(kept: &str, scored: &[HistRow]) -> (r: String)
    ensures
        r@ == history_text(history_with(history(kept@), row_views(scored@))),
{
    let rows = load_history(kept);
    let ghost old_rows = history(kept@);
    let ghost new_rows = row_views(scored@);
    let ghost mut done: Seq<RowView> = Seq::empty();
    let mut lines: Vec<String> = Vec::new();
    let mut i: usize = 0;
    assert(text::strings(lines@) =~= done.map_values(|r: RowView| row_text(r)));
    while i < rows.len()
        invariant
            i <= rows@.len(),
            old_rows == row_views(rows@),
            new_rows == row_views(scored@),
            done == spared(old_rows, new_rows, i as int),
            text::strings(lines@) == done.map_values(|r: RowView| row_text(r)),
        decreases rows@.len() - i,
    {
        assert(old_rows[i as int] == rows@[i as int]@);
        if !row_for(scored, rows[i].protocol) {
            let ghost before = lines@;
            let line = write_row(&rows[i]);
            lines.push(line);
            proof {
                let grown = done.push(old_rows[i as int]);
                assert(text::strings(lines@) =~= text::strings(before).push(row_text(old_rows[i as int])));
                assert(grown.map_values(|r: RowView| row_text(r)) =~= done.map_values(
                    |r: RowView| row_text(r),
                ).push(row_text(old_rows[i as int])));
                done = grown;
            }
        }
        i = i + 1;
    }
    let ghost stay = done;
    let mut k: usize = 0;
    assert(stay + new_rows.take(0) =~= stay);
    while k < scored.len()
        invariant
            k <= scored@.len(),
            new_rows == row_views(scored@),
            done == stay + new_rows.take(k as int),
            text::strings(lines@) == done.map_values(|r: RowView| row_text(r)),
        decreases scored@.len() - k,
    {
        assert(new_rows[k as int] == scored@[k as int]@);
        let ghost before = lines@;
        let line = write_row(&scored[k]);
        lines.push(line);
        proof {
            let grown = done.push(new_rows[k as int]);
            assert(text::strings(lines@) =~= text::strings(before).push(row_text(new_rows[k as int])));
            assert(grown.map_values(|r: RowView| row_text(r)) =~= done.map_values(
                |r: RowView| row_text(r),
            ).push(row_text(new_rows[k as int])));
            assert(grown =~= stay + new_rows.take(k + 1));
            done = grown;
        }
        k = k + 1;
    }
    assert(new_rows.take(k as int) =~= new_rows);
    text::join(lines.as_slice(), "\n")
}

/// Whether the way to the edge became more than twice as long or as short.
pub open spec fn path_changed(now_ms: int, was_ms: int) -> bool {
    let a: int = if now_ms > 1 {
        now_ms
    } else {
        1
    };
    let b: int = if was_ms > 1 {
        was_ms
    } else {
        1
    };
    a > 2 * b || b > 2 * a
}

/// Whether what was measured still tells something of a protocol: it is of that
/// protocol, not too old, and the way to the edge, where it is known, did not
/// change.
pub open spec fn counts(row: RowView, wanted: Protocol, now: u64, edge_ms: Option<u128>) -> bool {
    &&& row.protocol == wanted
    &&& now - row.at <= HISTORY_TTL_SEC
    &&& match edge_ms {
        Some(e) => !path_changed(e as int, row.edge_ms as int),
        None => true,
    }
}

/// Whether what was measured still tells something of a protocol.
fn row_counts(row: &HistRow, wanted: Protocol, now: u64, edge_ms: Option<u128>) -> (r: bool)
    ensures
        r == counts(row@, wanted, now, edge_ms),
{
    if row.protocol != wanted || now.saturating_sub(row.at) > HISTORY_TTL_SEC {
        return false;
    }
    match edge_ms {
        Some(e) => {
            let a: u128 = if e > 1 {
                e
            } else {
                1
            };
            let b: u128 = if row.edge_ms > 1 {
                row.edge_ms
            } else {
                1
            };
            !((a - 1) / 2 >= b || (b - 1) / 2 >= a)
        },
        None => true,
    }
}

/// The first row from the `i`th on that still tells something of a protocol.
pub open spec fn first_counting(
    rows: Seq<RowView>,
    i: int,
    wanted: Protocol,
    now: u64,
    edge_ms: Option<u128>,
) -> Option<RowView>
    decreases rows.len() - i,
{
    if i < 0 || i >= rows.len() {
        None
    } else if counts(rows[i], wanted, now, edge_ms) {
        Some(rows[i])
    } else {
        first_counting(rows, i + 1, wanted, now, edge_ms)
    }
}

/// What was last measured of a protocol, where it still tells something.
pub fn remembered(kept: &str, wanted: Protocol, now: u64, edge_ms: Option<u128>) -> (r: Option<HistRow>)
    ensures
        match r {
            Some(x) => first_counting(history(kept@), 0, wanted, now, edge_ms) == Some(x@),
            None => first_counting(history(kept@), 0, wanted, now, edge_ms) is None,
        },
{
    let rows = load_history(kept);
    let ghost all = history(kept@);
    let mut i: usize = 0;
    while i < rows.len()
        invariant
            i <= rows@.len(),
            all == row_views(rows@),
            all == history(kept@),
            first_counting(all, 0, wanted, now, edge_ms) == first_counting(
                all,
                i as int,
                wanted,
                now,
                edge_ms,
            ),
        decreases rows@.len() - i,
    {
        assert(all[i as int] == rows@[i as int]@);
        if row_counts(&rows[i], wanted, now, edge_ms) {
            let x = &rows[i];
            return Some(
                HistRow {
                    protocol: x.protocol,
                    rate: x.rate.clone(),
                    ttfb_ms: x.ttfb_ms,
                    completed: x.completed.clone(),
                    edge_ms: x.edge_ms,
                    at: x.at,
                },
            );
        }
        i = i + 1;
    }
    None
}

/// What stands for a protocol when two are compared.
pub enum Stand {
    /// What was measured now.
    Measured,
    /// What was measured before.
    Remembered(HistRow),
    /// Nothing.
    Nothing,
}

/// What stands for a protocol: what was measured now, else what was last measured before
/// on a path like this one, where it still tells something.
pub fn stand_in(scored: bool, kept: &str, wanted: Protocol, now: u64, edge_ms: u128) -> (r: Stand)
    ensures
        match r {
            Stand::Measured => scored,
            Stand::Remembered(x) => !scored && first_counting(
                history(kept@),
                0,
                wanted,
                now,
                Some(edge_ms),
            ) == Some(x@),
            Stand::Nothing => !scored && first_counting(
                history(kept@),
                0,
                wanted,
                now,
                Some(edge_ms),
            ) is None,
        },
{
    if scored {
        return Stand::Measured;
    }
    match remembered(kept, wanted, now, Some(edge_ms)) {
        Some(x) => Stand::Remembered(x),
        None => Stand::Nothing,
    }
}

/// A row as it is kept: its numbers are written without white space.
pub open spec fn row_ok(r: RowView) -> bool {
    &&& decimal::number_of(r.rate) is Some
    &&& decimal::number_of(r.completed) is Some
    &&& r.rate.len() > 0
    &&& r.completed.len() > 0
    &&& forall|i: int| 0 <= i < r.rate.len() ==> !text::is_space(#[trigger] r.rate[i])
    &&& forall|i: int| 0 <= i < r.completed.len() ==> !text::is_space(#[trigger] r.completed[i])
}

/// Whether a text has no line feed.
pub open spec fn one_line(s: Seq<char>) -> bool {
    forall|i: int| 0 <= i < s.len() ==> #[trigger] s[i] != '\n'
}

/// Texts without a line feed make one without.
proof fn lemma_one_line(a: Seq<char>, b: Seq<char>)
    requires
        one_line(a),
        one_line(b),
    ensures
        one_line(a + b),
{
    assert forall|i: int| 0 <= i < (a + b).len() implies #[trigger] (a + b)[i] != '\n' by {
        if i < a.len() {
            assert((a + b)[i] == a[i]);
        } else {
            assert((a + b)[i] == b[i - a.len()]);
        }
    }
}

/// A word has no line feed.
proof fn lemma_word_line(w: Seq<char>)
    requires
        forall|i: int| 0 <= i < w.len() ==> !text::is_space(#[trigger] w[i]),
    ensures
        one_line(w),
{
    assert forall|i: int| 0 <= i < w.len() implies #[trigger] w[i] != '\n' by {
        assert(!text::is_space(w[i]));
    }
}

/// The numbers of a row are written without white space.
#[verifier::rlimit(40)]
proof fn lemma_row_words(r: RowView)
    requires
        row_ok(r),
    ensures
        text::words(row_text(r)) == seq![
            cf_config::protocol_text(r.protocol),
            r.rate,
            text::decimal(r.ttfb_ms as int),
            r.completed,
            text::decimal(r.edge_ms as int),
            text::decimal(r.at as int),
        ],
{
    let a = cf_config::protocol_text(r.protocol);
    let c = text::decimal(r.ttfb_ms as int);
    let e = text::decimal(r.edge_ms as int);
    let f = text::decimal(r.at as int);
    cf_config::law_protocol_names(r.protocol);
    text::law_number_round_trip(r.ttfb_ms as int, u128::MAX as int);
    text::law_number_round_trip(r.edge_ms as int, u128::MAX as int);
    text::law_number_round_trip(r.at as int, u64::MAX as int);
    reveal_strlit(" ");
    assert(" "@ =~= seq![' ']);
    let s5 = seq![' '] + f;
    let s4 = seq![' '] + (e + s5);
    let s3 = seq![' '] + (r.completed + s4);
    let s2 = seq![' '] + (c + s3);
    let s1 = seq![' '] + (r.rate + s2);
    assert(row_text(r) =~= a + s1);
    text::lemma_first_word(a, s1);
    text::lemma_space_first(' ', r.rate + s2);
    text::lemma_first_word(r.rate, s2);
    text::lemma_space_first(' ', c + s3);
    text::lemma_first_word(c, s3);
    text::lemma_space_first(' ', r.completed + s4);
    text::lemma_first_word(r.completed, s4);
    text::lemma_space_first(' ', e + s5);
    text::lemma_first_word(e, s5);
    text::lemma_space_first(' ', f);
    assert(f + Seq::<char>::empty() =~= f);
    text::lemma_first_word(f, Seq::empty());
    assert(text::words(Seq::<char>::empty()) =~= Seq::<Seq<char>>::empty()) by {
        text::lemma_lead_bounds(Seq::empty(), text::spaces());
        assert(text::trim_start_of(Seq::empty(), text::spaces()) =~= Seq::<char>::empty());
    }
    assert(text::words(row_text(r)) =~= seq![a, r.rate, c, r.completed, e, f]);
}

/// A row is written in one line.
proof fn lemma_row_line(r: RowView)
    requires
        row_ok(r),
    ensures
        row_text(r).len() > 0,
        one_line(row_text(r)),
        row_text(r).last() != '\r',
{
    let a = cf_config::protocol_text(r.protocol);
    let c = text::decimal(r.ttfb_ms as int);
    let e = text::decimal(r.edge_ms as int);
    let f = text::decimal(r.at as int);
    let gap = " "@;
    cf_config::law_protocol_names(r.protocol);
    text::law_number_round_trip(r.ttfb_ms as int, u128::MAX as int);
    text::law_number_round_trip(r.edge_ms as int, u128::MAX as int);
    text::law_number_round_trip(r.at as int, u64::MAX as int);
    reveal_strlit(" ");
    assert(one_line(gap));
    lemma_word_line(a);
    lemma_word_line(r.rate);
    lemma_word_line(c);
    lemma_word_line(r.completed);
    lemma_word_line(e);
    lemma_word_line(f);
    lemma_one_line(a, gap);
    lemma_one_line(a + gap, r.rate);
    lemma_one_line(a + gap + r.rate, gap);
    lemma_one_line(a + gap + r.rate + gap, c);
    lemma_one_line(a + gap + r.rate + gap + c, gap);
    lemma_one_line(a + gap + r.rate + gap + c + gap, r.completed);
    lemma_one_line(a + gap + r.rate + gap + c + gap + r.completed, gap);
    lemma_one_line(a + gap + r.rate + gap + c + gap + r.completed + gap, e);
    lemma_one_line(a + gap + r.rate + gap + c + gap + r.completed + gap + e, gap);
    let most = a + gap + r.rate + gap + c + gap + r.completed + gap + e + gap;
    lemma_one_line(most, f);
    assert(row_text(r) == most + f);
    assert((most + f).last() == f[f.len() - 1]);
    assert(!text::is_space(f[f.len() - 1]));
}

/// A line tells what it was written for.
proof fn lemma_row_round_trip(r: RowView)
    requires
        row_ok(r),
    ensures
        row_of(row_text(r)) == Some(r),
        row_text(r).len() > 0,
        one_line(row_text(r)),
        row_text(r).last() != '\n',
        row_text(r).last() != '\r',
{
    cf_config::law_protocol_names(r.protocol);
    text::law_number_round_trip(r.ttfb_ms as int, u128::MAX as int);
    text::law_number_round_trip(r.edge_ms as int, u128::MAX as int);
    text::law_number_round_trip(r.at as int, u64::MAX as int);
    lemma_row_words(r);
    lemma_row_line(r);
    let t = row_text(r);
    assert(t[t.len() - 1] != '\n');
}

/// The lines of what is kept are those that were written.
proof fn lemma_history_lines(rows: Seq<RowView>)
    requires
        forall|i: int| 0 <= i < rows.len() ==> row_ok(#[trigger] rows[i]),
    ensures
        text::lines(history_text(rows)) == rows.map_values(|r: RowView| row_text(r)),
        rows.len() > 0 ==> {
            &&& history_text(rows).len() > 0
            &&& history_text(rows).last() != '\n'
            &&& history_text(rows).last() != '\r'
        },
    decreases rows.len(),
{
    let parts = rows.map_values(|r: RowView| row_text(r));
    reveal_strlit("\n");
    assert("\n"@ =~= seq!['\n']);
    if rows.len() == 0 {
        assert(text::lines(Seq::<char>::empty()) =~= parts);
    } else {
        let l = rows.last();
        assert(row_ok(rows[rows.len() - 1]));
        lemma_row_round_trip(l);
        if rows.len() == 1 {
            text::lemma_first_bounds(row_text(l), '\n');
            assert(history_text(rows) == row_text(l));
            assert(text::lines(row_text(l)) =~= parts);
        } else {
            let less = rows.drop_last();
            assert forall|i: int| 0 <= i < less.len() implies row_ok(#[trigger] less[i]) by {
                assert(less[i] == rows[i]);
            }
            lemma_history_lines(less);
            assert(parts.drop_last() =~= less.map_values(|r: RowView| row_text(r)));
            text::lemma_line_behind(history_text(less), row_text(l));
            assert(history_text(rows) =~= history_text(less) + seq!['\n'] + row_text(l));
            assert(text::lines(history_text(rows)) =~= parts);
            assert(history_text(rows).last() == row_text(l).last());
        }
    }
}

/// What is kept is read back as it was written.
pub proof fn law_history_round_trip(rows: Seq<RowView>)
    requires
        forall|i: int| 0 <= i < rows.len() ==> row_ok(#[trigger] rows[i]),
    ensures
        history(history_text(rows)) == rows,
{
    let parts = rows.map_values(|r: RowView| row_text(r));
    lemma_history_lines(rows);
    lemma_rows_back(rows, parts, rows.len() as int);
    assert(rows.take(rows.len() as int) =~= rows);
}

/// The first lines tell the first rows.
proof fn lemma_rows_back(rows: Seq<RowView>, parts: Seq<Seq<char>>, n: int)
    requires
        0 <= n <= rows.len(),
        parts == rows.map_values(|r: RowView| row_text(r)),
        forall|i: int| 0 <= i < rows.len() ==> row_ok(#[trigger] rows[i]),
    ensures
        rows_run(parts, n) == rows.take(n),
    decreases n,
{
    if n > 0 {
        lemma_rows_back(rows, parts, n - 1);
        assert(row_ok(rows[n - 1]));
        lemma_row_round_trip(rows[n - 1]);
        assert(parts[n - 1] == row_text(rows[n - 1]));
        assert(rows.take(n) =~= rows.take(n - 1).push(rows[n - 1]));
    } else {
        assert(rows.take(0) =~= Seq::<RowView>::empty());
    }
}

/// What was measured before of a protocol does not stay beside what is measured of it
/// now.
pub proof fn law_measured_anew(rows: Seq<RowView>, scored: Seq<RowView>, n: int, i: int)
    requires
        0 <= n <= rows.len(),
        0 <= i < spared(rows, scored, n).len(),
    ensures
        !has_row(scored, spared(rows, scored, n)[i].protocol),
    decreases n,
{
    if n > 0 {
        let less = spared(rows, scored, n - 1);
        if i < less.len() {
            law_measured_anew(rows, scored, n - 1, i);
        }
    }
}

/// What is said of a protocol that could not be measured.
pub open spec fn unmeasured(stage: Stage, failures: u32, detail: Option<Seq<char>>) -> Seq<char> {
    let why = match detail {
        Some(d) => " — "@ + d,
        None => Seq::empty(),
    };
    match stage {
        Stage::NotRegistered => "did not register"@,
        Stage::Registered => "registered, but the new hostname never resolved on this egress"@,
        Stage::Resolved => "registered and resolved, but never answered 200"@ + why,
        Stage::Warm => "reachable, but no usable sample ("@ + text::decimal(failures as int)
            + " failed)"@ + why,
    }
}

/// What is said of a protocol that could not be measured.
pub fn describe(stage: Stage, failures: u32, detail: Option<&str>) -> (r: String)
    ensures
        r@ == unmeasured(stage, failures, text::opt_str(detail)),
{
    let mut out = match stage {
        Stage::NotRegistered => return "did not register".to_owned(),
        Stage::Registered => return "registered, but the new hostname never resolved on this egress".to_owned(),
        Stage::Resolved => "registered and resolved, but never answered 200".to_owned(),
        Stage::Warm => {
            let mut out = "reachable, but no usable sample (".to_owned();
            text::push_decimal(&mut out, failures as u64);
            out.append(" failed)");
            out
        },
    };
    match detail {
        Some(d) => {
            out.append(" — ");
            out.append(d);
        },
        None => {},
    }
    assert(out@ =~= unmeasured(stage, failures, text::opt_str(detail)));
    out
}

/// Whether numbers ascend.
pub open spec fn ascending(s: Seq<u64>) -> bool {
    forall|i: int, j: int| 0 <= i <= j < s.len() ==> #[trigger] s[i] <= #[trigger] s[j]
}

/// Whether a number is the middle one of some numbers in ascending order.
pub open spec fn is_median(v: Seq<u64>, m: u64) -> bool {
    exists|s: Seq<u64>|
        #[trigger] ascending(s) && s.to_multiset() == v.to_multiset() && m == s[v.len() as int / 2]
}

/// The middle one of some numbers in ascending order.
pub fn median_dur(v: &[u64]) -> (r: u64)
    requires
        v@.len() > 0,
    ensures
        is_median(v@, r),
{
    let mut s: Vec<u64> = Vec::new();
    let mut n: usize = 0;
    assert(v@.take(0) =~= Seq::<u64>::empty());
    assert(s@ =~= Seq::<u64>::empty());
    while n < v.len()
        invariant
            n <= v@.len(),
            s@.len() == n,
            ascending(s@),
            s@.to_multiset() == v@.take(n as int).to_multiset(),
        decreases v@.len() - n,
    {
        let x = v[n];
        let mut k: usize = 0;
        while k < n && s[k] <= x
            invariant
                k <= n,
                n == s@.len(),
                forall|i: int| 0 <= i < k ==> #[trigger] s@[i] <= x,
            decreases n - k,
        {
            k = k + 1;
        }
        let ghost before = s@;
        s.insert(k, x);
        proof {
            assert(s@ =~= before.insert(k as int, x));
            assert forall|i: int, j: int| 0 <= i <= j < s@.len() implies #[trigger] s@[i]
                <= #[trigger] s@[j] by {
                if i < k && j < k {
                    assert(before[i] <= before[j]);
                } else if i < k && j > k {
                    assert(before[i] <= before[j - 1]);
                } else if i == k && j > k {
                    assert(before[k as int] <= before[j - 1]);
                } else if i > k {
                    assert(before[i - 1] <= before[j - 1]);
                }
            }
            before.insert_ensures(k as int, x);
            vstd::seq_lib::to_multiset_insert(before, k as int, x);
            assert(v@.take(n + 1) =~= v@.take(n as int).push(x));
            v@.take(n as int).to_multiset_ensures();
        }
        n = n + 1;
    }
    assert(v@.take(n as int) =~= v@);
    let r = s[n / 2];
    assert(is_median(v@, r));
    r
}

/// What a protocol scored. The share of requests that it completed, and its rate in bytes
/// each second, are held as they are written.
pub struct Score {
    pub protocol: Protocol,
    pub completed: String,
    pub rate: String,
    /// How long the first byte took, in nanoseconds.
    pub ttfb_ns: u64,
}

/// Whether a sample can be scored: the tunnel came up, and both the first byte and the
/// body of something arrived.
pub open spec fn scorable(s: Sample) -> bool {
    s.ready && s.ttfb_ns@.len() > 0 && s.body_ns@.len() > 0
}

/// The score of a sample whose share and rate are known: the first byte took as long as
/// in the middle one of its requests.
pub fn score(s: &Sample, completed: &str, rate: &str) -> (r: Option<Score>)
    ensures
        r is Some == scorable(*s),
        r matches Some(x) ==> {
            &&& x.protocol == s.protocol
            &&& x.completed@ == completed@
            &&& x.rate@ == rate@
            &&& is_median(s.ttfb_ns@, x.ttfb_ns)
        },
{
    if !s.ready || s.ttfb_ns.len() == 0 || s.body_ns.len() == 0 {
        return None;
    }
    Some(
        Score {
            protocol: s.protocol,
            completed: completed.to_owned(),
            rate: rate.to_owned(),
            ttfb_ns: median_dur(s.ttfb_ns.as_slice()),
        },
    )
}

/// What is shown of a protocol in a comparison.
#[derive(Debug)]
pub struct ArmView {
    pub protocol: Protocol,
    pub rate_bps: Option<String>,
    pub ttfb_ms: Option<u128>,
    pub completed: Option<String>,
    pub edge_rtt_ms: Option<u64>,
    /// Why there are no figures.
    pub note: Option<String>,
}

/// What is shown of a protocol, as values.
pub struct ArmFacts {
    pub protocol: Protocol,
    pub rate_bps: Option<Seq<char>>,
    pub ttfb_ms: Option<u128>,
    pub completed: Option<Seq<char>>,
    pub edge_rtt_ms: Option<u64>,
    pub note: Option<Seq<char>>,
}

impl View for ArmView {
    type V = ArmFacts;

    open spec fn view(&self) -> ArmFacts {
        ArmFacts {
            protocol: self.protocol,
            rate_bps: text::opt_string(self.rate_bps),
            ttfb_ms: self.ttfb_ms,
            completed: text::opt_string(self.completed),
            edge_rtt_ms: self.edge_rtt_ms,
            note: text::opt_string(self.note),
        }
    }
}

/// What is shown of a protocol: its figures where it was scored, and else why not. How far
/// the edge is, is shown either way.
pub open spec fn arm_of(protocol: Protocol, score: Option<&Score>, s: Sample) -> ArmFacts {
    match score {
        Some(x) => ArmFacts {
            protocol,
            rate_bps: Some(x.rate@),
            ttfb_ms: Some((x.ttfb_ns / 1_000_000) as u128),
            completed: Some(x.completed@),
            edge_rtt_ms: s.min_rtt_ms,
            note: None,
        },
        None => ArmFacts {
            protocol,
            rate_bps: None,
            ttfb_ms: None,
            completed: None,
            edge_rtt_ms: s.min_rtt_ms,
            note: Some(unmeasured(s.stage, s.failures, text::opt_string(s.detail))),
        },
    }
}

impl ArmView {
    /// What is shown of a protocol, from its score and what was measured.
    pub fn new(protocol: Protocol, score: Option<&Score>, sample: &Sample) -> (r: ArmView)
        ensures
            r@ == arm_of(protocol, score, *sample),
    {
        match score {
            Some(x) => ArmView {
                protocol,
                rate_bps: Some(x.rate.clone()),
                ttfb_ms: Some((x.ttfb_ns / 1_000_000) as u128),
                completed: Some(x.completed.clone()),
                edge_rtt_ms: sample.min_rtt_ms,
                note: None,
            },
            None => {
                let detail = match &sample.detail {
                    Some(d) => Some(d.as_str()),
                    None => None,
                };
                ArmView {
                    protocol,
                    rate_bps: None,
                    ttfb_ms: None,
                    completed: None,
                    edge_rtt_ms: sample.min_rtt_ms,
                    note: Some(describe(sample.stage, sample.failures, detail)),
                }
            },
        }
    }

    /// A copy.
    fn copy(&self) -> (r: ArmView)
        ensures
            r@ == self@,
    {
        ArmView {
            protocol: self.protocol,
            rate_bps: copy_opt(&self.rate_bps),
            ttfb_ms: self.ttfb_ms,
            completed: copy_opt(&self.completed),
            edge_rtt_ms: self.edge_rtt_ms,
            note: copy_opt(&self.note),
        }
    }
}

/// A copy of a text, where there is one.
fn copy_opt(s: &Option<String>) -> (r: Option<String>)
    ensures
        text::opt_string(r) == text::opt_string(*s),
{
    match s {
        Some(t) => Some(t.clone()),
        None => None,
    }
}

/// A comparison of the protocols: when it was made, what is shown of QUIC and of HTTP/2,
/// and which of them it chose.
#[derive(Debug)]
pub struct LastRound {
    pub at: u64,
    pub arms: Vec<ArmView>,
    pub verdict: Option<Protocol>,
}

/// A comparison of the protocols, as values.
pub struct RoundFacts {
    pub at: u64,
    pub arms: Seq<ArmFacts>,
    pub verdict: Option<Protocol>,
}

/// What is shown of protocols, as values.
pub open spec fn arm_facts(v: Seq<ArmView>) -> Seq<ArmFacts> {
    v.map_values(|a: ArmView| a@)
}

impl View for LastRound {
    type V = RoundFacts;

    open spec fn view(&self) -> RoundFacts {
        RoundFacts { at: self.at, arms: arm_facts(self.arms@), verdict: self.verdict }
    }
}

/// A comparison as values, where there is one.
pub open spec fn opt_round(r: Option<LastRound>) -> Option<RoundFacts> {
    match r {
        Some(x) => Some(x@),
        None => None,
    }
}

/// A copy of a comparison, where there is one.
pub fn copy_round(r: &Option<LastRound>) -> (out: Option<LastRound>)
    ensures
        opt_round(out) == opt_round(*r),
{
    match r {
        Some(x) => Some(x.copy()),
        None => None,
    }
}

impl LastRound {
    /// How long ago the comparison was made, in seconds; nothing where the clock went back.
    pub fn age_secs(&self, now: u64) -> (r: u64)
        ensures
            r == if now >= self.at {
                now - self.at
            } else {
                0
            },
    {
        if now >= self.at {
            now - self.at
        } else {
            0
        }
    }

    /// A copy.
    pub fn copy(&self) -> (r: LastRound)
        ensures
            r@ == self@,
    {
        let mut arms: Vec<ArmView> = Vec::new();
        let mut i: usize = 0;
        while i < self.arms.len()
            invariant
                i <= self.arms@.len(),
                arms@.len() == i,
                forall|j: int| 0 <= j < i ==> (#[trigger] arms@[j])@ == self.arms@[j]@,
            decreases self.arms@.len() - i,
        {
            arms.push(self.arms[i].copy());
            i = i + 1;
        }
        assert(arm_facts(arms@) =~= arm_facts(self.arms@));
        LastRound { at: self.at, arms, verdict: self.verdict }
    }
}

/// The latest comparisons, as values: the direct and the proxied way.
pub struct RoundsView {
    pub direct: Option<RoundFacts>,
    pub proxied: Option<RoundFacts>,
}

/// The latest comparison on a way out.
pub open spec fn round_of(v: RoundsView, egress: Egress) -> Option<RoundFacts> {
    match egress {
        Egress::Direct => v.direct,
        Egress::Proxied => v.proxied,
    }
}

/// The comparisons with another one on a way out.
pub open spec fn with_round(v: RoundsView, egress: Egress, r: Option<RoundFacts>) -> RoundsView {
    match egress {
        Egress::Direct => RoundsView { direct: r, ..v },
        Egress::Proxied => RoundsView { proxied: r, ..v },
    }
}

/// The comparisons once both protocols were measured on a way out, and none is chosen yet.
pub open spec fn with_measured(
    v: RoundsView,
    egress: Egress,
    at: u64,
    quic: ArmFacts,
    http2: ArmFacts,
) -> RoundsView {
    with_round(v, egress, Some(RoundFacts { at, arms: seq![quic, http2], verdict: None }))
}

/// The comparisons once the latest one on a way out has chosen.
pub open spec fn with_verdict(
    v: RoundsView,
    egress: Egress,
    verdict: Option<Protocol>,
) -> RoundsView {
    match round_of(v, egress) {
        Some(r) => with_round(v, egress, Some(RoundFacts { verdict, ..r })),
        None => v,
    }
}

/// The latest comparisons of the protocols, one on either way out.
pub struct LastRounds {
    direct: Option<LastRound>,
    proxied: Option<LastRound>,
}

impl View for LastRounds {
    type V = RoundsView;

    closed spec fn view(&self) -> RoundsView {
        RoundsView { direct: opt_round(self.direct), proxied: opt_round(self.proxied) }
    }
}

impl LastRounds {
    /// Nothing was compared yet.
    pub fn new() -> (r: LastRounds)
        ensures
            r@ == (RoundsView { direct: None, proxied: None }),
    {
        LastRounds { direct: None, proxied: None }
    }

    /// Both protocols were measured on a way out.
    pub fn measured(&mut self, egress: Egress, at: u64, quic: ArmView, http2: ArmView)
        ensures
            final(self)@ == with_measured(old(self)@, egress, at, quic@, http2@),
    {
        let mut arms: Vec<ArmView> = Vec::new();
        arms.push(quic);
        arms.push(http2);
        assert(arm_facts(arms@) =~= seq![quic@, http2@]);
        let r = LastRound { at, arms, verdict: None };
        match egress {
            Egress::Direct => {
                self.direct = Some(r);
            },
            Egress::Proxied => {
                self.proxied = Some(r);
            },
        }
    }

    /// The latest comparison on a way out has chosen, or found nothing to choose.
    pub fn decided(&mut self, egress: Egress, verdict: Option<Protocol>)
        ensures
            final(self)@ == with_verdict(old(self)@, egress, verdict),
    {
        match self.last_round(egress) {
            Some(r) => {
                let r = LastRound { at: r.at, arms: r.arms, verdict };
                match egress {
                    Egress::Direct => {
                        self.direct = Some(r);
                    },
                    Egress::Proxied => {
                        self.proxied = Some(r);
                    },
                }
            },
            None => {},
        }
    }

    /// The latest comparison on a way out, where there was one.
    pub fn last_round(&self, egress: Egress) -> (r: Option<LastRound>)
        ensures
            opt_round(r) == round_of(self@, egress),
    {
        match egress {
            Egress::Direct => copy_round(&self.direct),
            Egress::Proxied => copy_round(&self.proxied),
        }
    }
}

/// A comparison leaves what it measured and chose on its own way out, and does not touch
/// the other way. Until it has chosen, it shows no verdict.
pub proof fn law_a_comparison_leaves_its_choice(
    v: RoundsView,
    egress: Egress,
    other: Egress,
    at: u64,
    quic: ArmFacts,
    http2: ArmFacts,
    verdict: Option<Protocol>,
)
    requires
        egress != other,
    ensures
        ({
            let m = with_measured(v, egress, at, quic, http2);
            let d = with_verdict(m, egress, verdict);
            &&& round_of(m, egress) matches Some(r) && r.verdict is None
            &&& round_of(d, egress) == Some(RoundFacts { at, arms: seq![quic, http2], verdict })
            &&& round_of(m, other) == round_of(v, other)
            &&& round_of(d, other) == round_of(v, other)
        }),
{
}

/// A protocol shows figures or says why it has none, never both.
pub proof fn law_figures_or_a_note(protocol: Protocol, score: Option<&Score>, s: Sample)
    ensures
        ({
            let a = arm_of(protocol, score, s);
            &&& a.note is Some <==> a.rate_bps is None
            &&& a.note is Some <==> a.ttfb_ms is None
            &&& a.note is Some <==> a.completed is None
            &&& a.edge_rtt_ms == s.min_rtt_ms
        }),
{
}

/// What a verdict came from is named and read by the same words.
pub proof fn law_sources_by_name(v: VerdictSource, s: Seq<char>)
    ensures
        source_of(source_text(v)) == Some(v),
        source_text(VerdictSource::Scored) == "scored"@,
        source_text(VerdictSource::Fallback) == "fallback"@,
        source_of(s) matches Some(x) ==> s == source_text(x),
{
    reveal_strlit("scored");
    reveal_strlit("fallback");
    assert("scored"@.len() == 6 && "fallback"@.len() == 8);
}

/// A verdict from the time to come, or without a time, is as old as can be.
pub proof fn law_verdicts_without_an_age(
    proto: Protocol,
    then: u64,
    src: VerdictSource,
    now: u64,
)
    ensures
        then > now ==> fresh(Some(verdict_text(proto, then as int, src)), now) is None,
        verdict_in(cf_config::protocol_text(proto), now) == Some(
            (proto, u64::MAX, VerdictSource::Scored),
        ),
        fresh(Some(cf_config::protocol_text(proto)), now) is None,
        fresh(None, now) is None,
{
    cf_config::law_protocol_names(proto);
    let p = cf_config::protocol_text(proto);
    let e = Seq::<char>::empty();
    text::lemma_first_word(p, e);
    assert(p + e =~= p);
    assert(text::words(e).len() == 0);
    let d = text::decimal(then as int);
    let s = source_text(src);
    reveal_strlit(" ");
    text::law_number_round_trip(then as int, u64::MAX as int);
    let t = verdict_text(proto, then as int, src);
    let r = d + (seq![' '] + s);
    assert(t =~= p + (seq![' '] + r));
    text::lemma_first_word(p, seq![' '] + r);
    text::lemma_space_first(' ', r);
    text::lemma_first_word(d, seq![' '] + s);
    assert(text::words(t)[0] == p);
    assert(text::words(t)[1] == d);
}

/// What is noted of an attempt is its time and the failures up to it.
pub proof fn law_attempts_are_read_back(now: u64, fails: u32)
    ensures
        gate_in(attempt_text(now, fails)) == (now, fails),
        gate_in(Seq::<char>::empty()) == (0u64, 0u32),
{
    let a = text::decimal(now as int);
    let b = text::decimal(fails as int);
    let e = Seq::<char>::empty();
    reveal_strlit(" ");
    text::law_number_round_trip(now as int, u64::MAX as int);
    text::law_number_round_trip(fails as int, u32::MAX as int);
    let t = attempt_text(now, fails);
    assert(t =~= a + (seq![' '] + b));
    text::lemma_first_word(a, seq![' '] + b);
    text::lemma_space_first(' ', b);
    text::lemma_first_word(b, e);
    assert(b + e =~= b);
    assert(text::words(t)[0] == a);
    assert(text::words(t)[1] == b);
    assert(text::words(e).len() == 0);
}

/// The pause doubles with each failure, from twenty minutes or, after a refusal, from two
/// hours, up to six hours.
pub proof fn law_how_long_a_pause_is(fails: u32, refused: bool)
    ensures
        pause(0, false) == 1_200,
        pause(0, true) == 7_200,
        fails < 5 ==> pause((fails + 1) as u32, refused) == if 2 * pause(fails, refused) < 21_600 {
            2 * pause(fails, refused)
        } else {
            21_600
        },
        fails >= 5 ==> pause(fails, refused) == 21_600,
{
}

/// After an attempt the next one waits for the pause that goes with its failures, less the
/// time that has gone by.
pub proof fn law_how_long_to_wait(then: u64, fails: u32, now: u64)
    requires
        then <= now,
    ensures
        wait_of(attempt_text(then, fails), now) == if now - then < pause(fails, false) {
            pause(fails, false) - (now - then)
        } else {
            0
        },
        wait_of(attempt_text(now, fails), then) == pause(fails, false),
{
    law_attempts_are_read_back(then, fails);
    law_attempts_are_read_back(now, fails);
}

/// A comparison of two that were measured goes by which is better. One that was measured
/// beats one that would not start, and nothing else is decided.
pub proof fn law_how_transports_are_ranked(
    a_scored: bool,
    a_ready: bool,
    b_scored: bool,
    b_ready: bool,
    a_better: bool,
    b_better: bool,
)
    ensures
        ({
            let r = ranked(a_scored, a_ready, b_scored, b_ready, a_better, b_better);
            &&& r is None <==> !(a_scored && b_scored) && !(a_scored && !b_ready) && !(b_scored
                && !a_ready)
            &&& a_scored && b_scored && a_better ==> r == Some(Rank::Better)
            &&& a_scored && b_scored && !a_better && b_better ==> r == Some(Rank::Worse)
            &&& a_scored && b_scored && !a_better && !b_better ==> r == Some(Rank::Same)
            &&& a_scored && !b_scored && !b_ready ==> r == Some(Rank::Better)
            &&& !a_scored && b_scored && !a_ready ==> r == Some(Rank::Worse)
        }),
{
}

/// The one that completes more is better. Where neither does, the faster one is; and where
/// neither is faster, the one that answers sooner by thirty thousandths of a second.
pub proof fn law_what_better_means(c: Compared)
    ensures
        c.completes_more ==> better(c),
        !c.completes_more && c.completes_less ==> !better(c),
        !c.completes_more && !c.completes_less && c.faster ==> better(c),
        !c.completes_more && !c.completes_less && !c.faster && c.slower ==> !better(c),
        !c.completes_more && !c.completes_less && !c.faster && !c.slower ==> (better(c) <==> c.ahead
            && c.ttfb_ns + 30_000_000 <= c.other_ns),
{
}

/// A round is kept when anything was measured. Failures are forgotten when both were, and
/// count double after a refusal; the verdict follows the better one, and QUIC where they
/// are alike.
pub proof fn law_what_a_round_leaves(
    quic: ArmResult,
    http2: ArmResult,
    better: bool,
    worse: bool,
    fails: u32,
)
    ensures
        ({
            let r = picked(quic, http2, better, worse, fails);
            let both = quic.scored && http2.scored;
            &&& r.keep <==> quic.scored || http2.scored
            &&& both ==> r.fails == Some(0u32)
            &&& !both && (quic.refused || http2.refused) && fails < u32::MAX - 1 ==> r.fails
                == Some((fails + 2) as u32)
            &&& !both && !quic.refused && !http2.refused ==> r.fails is None
            &&& both && better ==> r.verdict == Some(Protocol::Quic)
            &&& both && !better && worse ==> r.verdict == Some(Protocol::Http2)
            &&& both && !better && !worse ==> r.verdict == Some(Protocol::Quic)
        }),
{
}

/// Without a verdict the signs decide, where both are known and point the same way.
pub proof fn law_when_signs_decide(end: PickEnd, edges: Signs, measures: Signs)
    requires
        end.verdict is None,
        !(edges.quic && edges.http2),
        !(measures.quic && measures.http2),
    ensures
        choice(end, edges, measures) == Some(Protocol::Quic) <==> edges.known && measures.known
            && edges.quic && measures.quic,
        choice(end, edges, measures) == Some(Protocol::Http2) <==> edges.known && measures.known
            && edges.http2 && measures.http2,
{
}

/// A row counts for its own transport, for a day, and while the way to the edge is no more
/// than twice as long or as short.
pub proof fn law_which_rows_count(row: RowView, wanted: Protocol, now: u64, edge: u128)
    requires
        edge >= 1,
        row.edge_ms >= 1,
    ensures
        counts(row, wanted, now, None) <==> row.protocol == wanted && now <= row.at + 86_400,
        counts(row, wanted, now, Some(edge)) <==> row.protocol == wanted && now <= row.at + 86_400
            && edge <= 2 * row.edge_ms && row.edge_ms <= 2 * edge,
        path_changed(edge as int, row.edge_ms as int) == path_changed(
            row.edge_ms as int,
            edge as int,
        ),
{
}

/// The first row that counts is the one that is remembered.
pub proof fn law_first_row_that_counts(
    rows: Seq<RowView>,
    k: int,
    wanted: Protocol,
    now: u64,
    edge_ms: Option<u128>,
)
    requires
        0 <= k <= rows.len(),
        forall|j: int| 0 <= j < k ==> !counts(#[trigger] rows[j], wanted, now, edge_ms),
        k < rows.len() ==> counts(rows[k], wanted, now, edge_ms),
    ensures
        first_counting(rows, 0, wanted, now, edge_ms) == if k < rows.len() {
            Some(rows[k])
        } else {
            None
        },
{
    lemma_counting_from(rows, 0, k, wanted, now, edge_ms);
}

/// Rows that do not count are passed over.
proof fn lemma_counting_from(
    rows: Seq<RowView>,
    i: int,
    k: int,
    wanted: Protocol,
    now: u64,
    edge_ms: Option<u128>,
)
    requires
        0 <= i <= k <= rows.len(),
        forall|j: int| 0 <= j < k ==> !counts(#[trigger] rows[j], wanted, now, edge_ms),
    ensures
        first_counting(rows, i, wanted, now, edge_ms) == first_counting(
            rows,
            k,
            wanted,
            now,
            edge_ms,
        ),
    decreases k - i,
{
    if i < k {
        assert(!counts(rows[i], wanted, now, edge_ms));
        lemma_counting_from(rows, i + 1, k, wanted, now, edge_ms);
    }
}

/// What was measured anew takes the place of what was known of the same transport; the rest
/// stays, in its order, and the new stands behind it.
pub proof fn law_new_rows_replace_old_ones(rows: Seq<RowView>, row: RowView, scored: Seq<RowView>)
    ensures
        ({
            let n = rows.len() as int;
            let before = history_with(rows, scored);
            let all = history_with(rows.push(row), scored);
            let replaced = exists|i: int|
                0 <= i < scored.len() && (#[trigger] scored[i]).protocol == row.protocol;
            &&& replaced ==> all == before
            &&& !replaced ==> all == before.subrange(0, before.len() - scored.len()).push(row)
                + scored
        }),
        history_with(seq![], scored) == scored,
{
    let n = rows.len() as int;
    lemma_spared_before(rows, row, scored, n);
    let s = spared(rows, scored, n);
    let before = s + scored;
    assert(before.subrange(0, s.len() as int) =~= s);
    assert(Seq::<RowView>::empty() + scored =~= scored);
}

/// What is spared of the first rows does not depend on those behind them.
proof fn lemma_spared_before(rows: Seq<RowView>, row: RowView, scored: Seq<RowView>, n: int)
    requires
        0 <= n <= rows.len(),
    ensures
        spared(rows.push(row), scored, n) == spared(rows, scored, n),
    decreases n,
{
    if n > 0 {
        lemma_spared_before(rows, row, scored, n - 1);
        assert(rows.push(row)[n - 1] == rows[n - 1]);
    }
}

/// A row is written with its transport, its rate, its first byte, its share, its way to the
/// edge and its time, in that order.
pub proof fn law_order_of_a_row(r: RowView)
    requires
        row_ok(r),
    ensures
        text::words(row_text(r)) == seq![
            cf_config::protocol_text(r.protocol),
            r.rate,
            text::decimal(r.ttfb_ms as int),
            r.completed,
            text::decimal(r.edge_ms as int),
            text::decimal(r.at as int),
        ],
{
    cf_config::law_protocol_names(r.protocol);
    let e = Seq::<char>::empty();
    reveal_strlit(" ");
    let p = cf_config::protocol_text(r.protocol);
    let t = text::decimal(r.ttfb_ms as int);
    let g = text::decimal(r.edge_ms as int);
    let a = text::decimal(r.at as int);
    text::law_number_round_trip(r.ttfb_ms as int, u128::MAX as int);
    text::law_number_round_trip(r.edge_ms as int, u128::MAX as int);
    text::law_number_round_trip(r.at as int, u64::MAX as int);
    let s5 = seq![' '] + a;
    let s4 = seq![' '] + (g + s5);
    let s3 = seq![' '] + (r.completed + s4);
    let s2 = seq![' '] + (t + s3);
    let s1 = seq![' '] + (r.rate + s2);
    assert(row_text(r) =~= p + s1);
    text::lemma_first_word(p, s1);
    text::lemma_space_first(' ', r.rate + s2);
    text::lemma_first_word(r.rate, s2);
    text::lemma_space_first(' ', t + s3);
    text::lemma_first_word(t, s3);
    text::lemma_space_first(' ', r.completed + s4);
    text::lemma_first_word(r.completed, s4);
    text::lemma_space_first(' ', g + s5);
    text::lemma_first_word(g, s5);
    text::lemma_space_first(' ', a);
    text::lemma_first_word(a, e);
    assert(a + e =~= a);
    assert(text::words(e) =~= Seq::<Seq<char>>::empty());
    assert(text::words(row_text(r)) =~= seq![p, r.rate, t, r.completed, g, a]);
}

/// The files of the two ways out, by the end of their names.
pub proof fn law_names_of_files(dir: Seq<char>, kind: Seq<char>)
    ensures
        state_file(dir, kind, Egress::Direct) == dir + "/sniffbox.cf."@ + kind + ".direct"@,
        state_file(dir, kind, Egress::Proxied) == dir + "/sniffbox.cf."@ + kind + ".proxy"@,
{
    reveal_strlit(".");
    reveal_strlit("direct");
    reveal_strlit("proxy");
    reveal_strlit(".direct");
    reveal_strlit(".proxy");
    let a = dir + "/sniffbox.cf."@ + kind;
    assert(a + "."@ + "direct"@ =~= a + ".direct"@);
    assert(a + "."@ + "proxy"@ =~= a + ".proxy"@);
}

/// What is said of a transport without a measure tells how far it came.
pub proof fn law_how_far_a_transport_came(failures: u32, d: Seq<char>)
    ensures
        unmeasured(Stage::NotRegistered, failures, Some(d)) == "did not register"@,
        unmeasured(Stage::Registered, failures, Some(d))
            == "registered, but the new hostname never resolved on this egress"@,
        unmeasured(Stage::Resolved, failures, None)
            == "registered and resolved, but never answered 200"@,
        unmeasured(Stage::Resolved, failures, Some(d))
            == "registered and resolved, but never answered 200"@ + " — "@ + d,
        unmeasured(Stage::Warm, failures, None) == "reachable, but no usable sample ("@
            + text::decimal(failures as int) + " failed)"@,
        unmeasured(Stage::Warm, failures, Some(d)) == "reachable, but no usable sample ("@
            + text::decimal(failures as int) + " failed)"@ + " — "@ + d,
{
    let e = Seq::<char>::empty();
    let a = "registered and resolved, but never answered 200"@;
    let b = "reachable, but no usable sample ("@ + text::decimal(failures as int) + " failed)"@;
    assert(a + e =~= a);
    assert(b + e =~= b);
    assert(a + (" — "@ + d) =~= a + " — "@ + d);
    assert(b + (" — "@ + d) =~= b + " — "@ + d);
}

/// What is shown of a transport that was measured are its own figures, the time of the first
/// byte in whole thousandths of a second.
pub proof fn law_shown_figures(protocol: Protocol, x: &Score, s: Sample)
    ensures
        ({
            let a = arm_of(protocol, Some(x), s);
            &&& a.protocol == protocol
            &&& a.rate_bps == Some(x.rate@)
            &&& a.completed == Some(x.completed@)
            &&& a.ttfb_ms is Some
            &&& a.ttfb_ms->0 * 1_000_000 <= x.ttfb_ns < a.ttfb_ms->0 * 1_000_000 + 1_000_000
            &&& a.note is None
        }),
        arm_of(protocol, None, s).protocol == protocol,
        arm_of(protocol, None, s).note == Some(
            unmeasured(s.stage, s.failures, text::opt_string(s.detail)),
        ),
        s.ready && s.ttfb_ns@.len() > 0 && s.body_ns@.len() > 0 <==> scorable(s),
{
}

/// As many values lie below the middle one as above it, one aside.
pub proof fn law_middle_value(v: Seq<u64>, m: u64)
    requires
        v.len() > 0,
        is_median(v, m),
    ensures
        v.contains(m),
        v.len() == 1 ==> m == v[0],
        exists|s: Seq<u64>|
            ascending(s) && s.to_multiset() == v.to_multiset() && s.len() == v.len() && (forall|
                i: int,
            |
                0 <= i < v.len() as int / 2 ==> #[trigger] s[i] <= m) && (forall|i: int|
                v.len() as int / 2 <= i < v.len() ==> #[trigger] s[i] >= m),
{
    let s = choose|s: Seq<u64>|
        #[trigger] ascending(s) && s.to_multiset() == v.to_multiset() && m == s[v.len() as int / 2];
    s.to_multiset_ensures();
    v.to_multiset_ensures();
    assert(s.len() == v.len());
    assert(s[v.len() as int / 2] == m);
    assert(s.contains(m));
    assert(v.to_multiset().count(m) > 0);
    assert(v.contains(m));
    if v.len() == 1 {
        assert(v[0] == m);
    }
}

} // verus!
