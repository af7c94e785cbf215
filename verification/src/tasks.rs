//! What is done with the counters of connections from time to time.

use crate::runtime;
use vstd::prelude::*;

verus! {

/// How often it is done, in seconds.
pub const FLUSH_INTERVAL_SEC: u64 = 3;

/// How long a closed connection is remembered, in seconds.
pub const KEEP_SEC: u64 = 86_400;

/// What was taken from a connection: the bytes that were not yet in the totals, the
/// bytes that were not yet in the statistics, what it counted in all, and whether it
/// is closed.
#[derive(Debug, Clone, Copy, PartialEq, Eq, Structural)]
pub struct Drained {
    pub id: u64,
    pub new_up: u64,
    pub new_down: u64,
    pub fold_up: u64,
    pub fold_down: u64,
    pub up: u64,
    pub down: u64,
    pub closed: bool,
}

/// What is done with it.
#[derive(Debug, Clone, Copy, PartialEq, Eq, Structural)]
pub struct DrainAct {
    /// The connection was used, and the bytes go into the totals.
    pub touch: bool,
    /// The bytes go into a report.
    pub update: bool,
    /// The bytes go into the statistics.
    pub fold: bool,
}

/// What is done with what was taken from a connection. Nothing is done without new
/// bytes, and no report is made of a closed one.
pub open spec fn act_of(d: Drained, reports: bool) -> DrainAct {
    let moved = d.new_up != 0 || d.new_down != 0;
    DrainAct {
        touch: moved,
        update: moved && reports && !d.closed,
        fold: d.fold_up != 0 || d.fold_down != 0,
    }
}

/// What is done with what was taken from a connection.
pub fn drain_one(d: &Drained, reports: bool) -> (r: DrainAct)
    ensures
        r == act_of(*d, reports),
{
    let moved = d.new_up != 0 || d.new_down != 0;
    DrainAct {
        touch: moved,
        update: moved && reports && !d.closed,
        fold: d.fold_up != 0 || d.fold_down != 0,
    }
}

/// The new bytes of the first `n` connections: those received and those sent.
pub open spec fn moved(v: Seq<Drained>, n: int) -> (int, int)
    decreases n,
{
    if n <= 0 {
        (0, 0)
    } else {
        let b = moved(v, n - 1);
        (b.0 + v[n - 1].new_down, b.1 + v[n - 1].new_up)
    }
}

/// What is done with what was taken from the connections, and the bytes that go into
/// the totals: those received and those sent.
pub fn drain_local(v: &[Drained], reports: bool) -> (r: (Vec<DrainAct>, u128, u128))
    ensures
        r.0@ == Seq::new(v@.len(), |i: int| act_of(v@[i], reports)),
        (r.1 as int, r.2 as int) == moved(v@, v@.len() as int),
{
    let mut acts: Vec<DrainAct> = Vec::new();
    let mut down: u128 = 0;
    let mut up: u128 = 0;
    let mut i: usize = 0;
    while i < v.len()
        invariant
            i <= v@.len(),
            acts@ == Seq::new(i as nat, |k: int| act_of(v@[k], reports)),
            (down as int, up as int) == moved(v@, i as int),
            down <= i * 0xffff_ffff_ffff_ffff,
            up <= i * 0xffff_ffff_ffff_ffff,
        decreases v@.len() - i,
    {
        assert(i * 0xffff_ffff_ffff_ffff + 0xffff_ffff_ffff_ffff <= 0x1_0000_0000_0000_0000
            * 0xffff_ffff_ffff_ffff) by (nonlinear_arith)
            requires
                i < 0xffff_ffff_ffff_ffff,
        ;
        let d = v[i];
        acts.push(drain_one(&d, reports));
        assert(acts@ =~= Seq::new((i + 1) as nat, |k: int| act_of(v@[k], reports)));
        down = down + d.new_down as u128;
        up = up + d.new_up as u128;
        i = i + 1;
    }
    (acts, down, up)
}

/// What is done with the statistics.
#[derive(Debug, Clone, Copy, PartialEq, Eq, Structural)]
pub enum Tidy {
    /// They are made anew for somebody who looks at them.
    Rebuild(usize),
    /// They are kept small.
    Prune(usize),
}

/// What is done with the statistics: they are made anew only while somebody looks at
/// them.
pub fn flush_once(last_access_ms: u64, now_ms: u64, max_rec: usize) -> (r: Tidy)
    ensures
        r == if runtime::demanded(last_access_ms as int, now_ms as int) {
            Tidy::Rebuild(max_rec)
        } else {
            Tidy::Prune(max_rec)
        },
{
    if runtime::in_demand(last_access_ms, now_ms) {
        Tidy::Rebuild(max_rec)
    } else {
        Tidy::Prune(max_rec)
    }
}

/// Connections without new bytes change no totals.
pub proof fn law_idle_changes_nothing(v: Seq<Drained>, n: int)
    requires
        0 <= n <= v.len(),
        forall|i: int|
            0 <= i < n ==> (#[trigger] v[i]).new_up == 0 && v[i].new_down == 0,
    ensures
        moved(v, n) == (0int, 0int),
        forall|i: int, reports: bool|
            0 <= i < n ==> !(#[trigger] act_of(v[i], reports)).touch && !act_of(
                v[i],
                reports,
            ).update,
    decreases n,
{
    if n > 0 {
        law_idle_changes_nothing(v, n - 1);
    }
}

/// What a connection carried since the last time is added to what came down and to what went
/// up, each by itself.
pub proof fn law_sums_of_a_round(v: Seq<Drained>, d: Drained)
    ensures
        ({
            let (down, up) = moved(v, v.len() as int);
            let (all_down, all_up) = moved(v.push(d), v.len() as int + 1);
            &&& all_down == down + d.new_down
            &&& all_up == up + d.new_up
        }),
        moved(seq![], 0) == (0int, 0int),
{
    lemma_moved_before(v, d, v.len() as int);
}

/// What the first connections carried does not depend on those behind them.
proof fn lemma_moved_before(v: Seq<Drained>, d: Drained, n: int)
    requires
        0 <= n <= v.len(),
    ensures
        moved(v.push(d), n) == moved(v, n),
    decreases n,
{
    if n > 0 {
        lemma_moved_before(v, d, n - 1);
        assert(v.push(d)[n - 1] == v[n - 1]);
    }
}

/// A connection counts as alive when anything moved either way. It is reported while it is
/// open, and added to the totals when there is anything to add.
pub proof fn law_what_is_done_for_a_connection(d: Drained, reports: bool)
    ensures
        act_of(d, reports).touch <==> d.new_up > 0 || d.new_down > 0,
        act_of(d, reports).update <==> (d.new_up > 0 || d.new_down > 0) && reports && !d.closed,
        act_of(d, reports).fold <==> d.fold_up > 0 || d.fold_down > 0,
{
}

} // verus!
