//! Groups of domains, and the addresses that were seen under them.

use crate::addr::IpAddr;
use crate::text;
use vstd::prelude::*;

verus! {

/// The domains of the tunnel's edge.
pub const EDGE_DOMAINS: [&'static str; 2] = ["cftunnel.com", "argotunnel.com"];

/// The label of the domains of the tunnel's edge.
pub const EDGE: &'static str = "cloudflared";

/// How many addresses are kept where nothing else is said.
pub const HINTS_CAP: usize = 512;

/// A name without the dot at its end.
pub open spec fn without_root(d: Seq<char>) -> Seq<char> {
    if d.len() > 0 && d.last() == '.' {
        d.drop_last()
    } else {
        d
    }
}

/// Whether a name is a domain or lies under it: a label and a dot stand before
/// the domain. Letters of either case are alike.
pub open spec fn under(d: Seq<char>, domain: Seq<char>) -> bool {
    let cut = d.len() - domain.len();
    ||| text::same_nocase(d, domain)
    ||| cut >= 2 && d[cut - 1] == '.' && text::same_nocase(d.subrange(cut, d.len() as int), domain)
}

/// The label of the group of a name.
pub open spec fn group_of(domain: Seq<char>) -> Option<Seq<char>> {
    let d = without_root(domain);
    if d.len() > 0 && (under(d, EDGE_DOMAINS@[0]@) || under(d, EDGE_DOMAINS@[1]@)) {
        Some(EDGE@)
    } else {
        None
    }
}

/// Whether a name is a domain or lies under it.
fn is_suffix_match(d: &[char], domain: &str) -> (r: bool)
    ensures
        r == under(d@, domain@),
{
    let n: usize = d.len();
    let want = text::chars_of(domain);
    let m: usize = want.len();
    if text::eq_nocase(d, domain) {
        return true;
    }
    if n < m || n - m < 2 {
        return false;
    }
    let cut: usize = n - m;
    d[cut - 1] == '.' && text::eq_nocase(vstd::slice::slice_subrange(d, cut, n), domain)
}

/// The label of the group of a name.
pub fn match_group(domain: &str) -> (r: Option<&'static str>)
    ensures
        match r {
            Some(l) => group_of(domain@) == Some(l@),
            None => group_of(domain@) is None,
        },
{
    let cs = text::chars_of(domain);
    let n: usize = cs.len();
    let end: usize = if n > 0 && cs[n - 1] == '.' {
        n - 1
    } else {
        n
    };
    let d = vstd::slice::slice_subrange(cs.as_slice(), 0, end);
    assert(d@ =~= without_root(domain@));
    if d.len() > 0 && (is_suffix_match(d, EDGE_DOMAINS[0]) || is_suffix_match(d, EDGE_DOMAINS[1])) {
        Some(EDGE)
    } else {
        None
    }
}

/// An address as a key: its family and its number.
pub type Key = (u8, u128);

/// A label and when it was last asked for.
pub type Hint = (&'static str, u64);

/// The concurrent table of the crate `dashmap`.
#[verifier::external_type_specification]
#[verifier::external_body]
#[verifier::reject_recursive_types(K)]
#[verifier::reject_recursive_types(V)]
#[verifier::reject_recursive_types(S)]
pub struct ExDashMap<K, V, S>(dashmap::DashMap<K, V, S>);

/// What a table of hints holds.
pub uninterp spec fn hints_held(m: dashmap::DashMap<Key, Hint>) -> Map<Key, Hint>;

/// The table that holds nothing.
pub open spec fn no_hints() -> Map<Key, Hint> {
    Map::empty()
}

/// `DashMap::new` of the crate `dashmap` makes an empty table.
#[verifier::external_body]
fn hints_new() -> (r: dashmap::DashMap<Key, Hint>)
    ensures
        hints_held(r) == no_hints(),
{
    dashmap::DashMap::new()
}

/// `DashMap::get` of the crate `dashmap` gives the value under a key; a copy of
/// it is handed on.
#[verifier::external_body]
fn hints_get(m: &dashmap::DashMap<Key, Hint>, k: Key) -> (r: Option<Hint>)
    ensures
        r == if hints_held(*m).contains_key(k) {
            Some(hints_held(*m)[k])
        } else {
            None::<Hint>
        },
{
    m.get(&k).map(|e| *e.value())
}

/// `DashMap::insert` of the crate `dashmap` puts a value under a key, in the
/// place of the one that stood there.
#[verifier::external_body]
fn hints_put(m: &mut dashmap::DashMap<Key, Hint>, k: Key, v: Hint)
    ensures
        hints_held(*final(m)) == hints_held(*old(m)).insert(k, v),
{
    m.insert(k, v);
}

/// Whether a table has `n` keys.
pub open spec fn counts(n: usize, h: Map<Key, Hint>) -> bool {
    h.dom().finite() && n == h.dom().len()
}

/// `DashMap::len` of the crate `dashmap` counts the keys.
#[verifier::external_body]
fn hints_len(m: &dashmap::DashMap<Key, Hint>) -> (r: usize)
    ensures
        counts(r, hints_held(*m)),
{
    m.len()
}

/// The keys and stamps of a list are those of a table, each once.
pub open spec fn lists(e: Seq<(Key, u64)>, h: Map<Key, Hint>) -> bool {
    &&& forall|i: int|
        0 <= i < e.len() ==> h.contains_key((#[trigger] e[i]).0) && h[e[i].0].1 == e[i].1
    &&& forall|i: int, j: int|
        0 <= i < e.len() && 0 <= j < e.len() && (#[trigger] e[i]).0 == (#[trigger] e[j]).0 ==> i
            == j
    &&& forall|k: Key|
        #[trigger] h.contains_key(k) ==> exists|i: int| 0 <= i < e.len() && (#[trigger] e[i]).0 == k
}

/// `DashMap::iter` of the crate `dashmap` walks over the entries, in no promised
/// order and each once; their keys and stamps are handed on.
#[verifier::external_body]
fn hints_list(m: &dashmap::DashMap<Key, Hint>) -> (r: Vec<(Key, u64)>)
    ensures
        lists(r@, hints_held(*m)),
{
    m.iter().map(|e| (*e.key(), e.value().1)).collect()
}

/// Whether a stamp reaches a floor.
fn reaches(stamp: u64, floor: u64) -> (r: bool)
    ensures
        r == (stamp >= floor),
{
    stamp >= floor
}

/// `DashMap::retain` of the crate `dashmap` keeps the entries for which a
/// function holds: here, those whose stamp reaches a floor.
#[verifier::external_body]
fn hints_retain(m: &mut dashmap::DashMap<Key, Hint>, floor: u64)
    ensures
        hints_held(*final(m)) == hints_held(*old(m)).restrict(
            Set::new(|k: Key| hints_held(*old(m))[k].1 >= floor),
        ),
{
    m.retain(|_, h| reaches(h.1, floor));
}

/// The entries whose stamp is at most `x`.
pub open spec fn up_to(h: Map<Key, Hint>, x: u64) -> Set<Key> {
    h.dom().filter(|k: Key| h[k].1 <= x)
}

/// How many of the oldest entries leave when room is made: a quarter, but at
/// least one and never all.
pub open spec fn leaving(n: int) -> int {
    let quarter: int = if n / 4 > 1 {
        n / 4
    } else {
        1
    };
    if quarter < n - 1 {
        quarter
    } else {
        n - 1
    }
}

/// What stays when room is made: the entries that are not among the oldest.
pub open spec fn newest(h: Map<Key, Hint>) -> Map<Key, Hint> {
    h.restrict(Set::new(|k: Key| up_to(h, h[k].1).len() > leaving(h.dom().len() as int)))
}

/// The keys among the first `n` entries whose stamp is at most `x`.
spec fn picked(e: Seq<(Key, u64)>, x: u64, n: int) -> Seq<Key>
    decreases n,
{
    if n <= 0 {
        Seq::empty()
    } else if e[n - 1].1 <= x {
        picked(e, x, n - 1).push(e[n - 1].0)
    } else {
        picked(e, x, n - 1)
    }
}

/// What is picked stands among the first `n` entries, each key once.
proof fn lemma_picked(e: Seq<(Key, u64)>, x: u64, n: int)
    requires
        0 <= n <= e.len(),
        forall|i: int, j: int|
            0 <= i < e.len() && 0 <= j < e.len() && (#[trigger] e[i]).0 == (#[trigger] e[j]).0 ==> i
                == j,
    ensures
        picked(e, x, n).no_duplicates(),
        forall|k: Key|
            #[trigger] picked(e, x, n).contains(k) <==> exists|i: int|
                0 <= i < n && (#[trigger] e[i]).0 == k && e[i].1 <= x,
    decreases n,
{
    if n > 0 {
        lemma_picked(e, x, n - 1);
        let before = picked(e, x, n - 1);
        let all = picked(e, x, n);
        assert forall|k: Key| #[trigger] all.contains(k) <==> exists|i: int|
            0 <= i < n && (#[trigger] e[i]).0 == k && e[i].1 <= x by {
            if all.contains(k) {
                let j = choose|j: int| 0 <= j < all.len() && all[j] == k;
                if j < before.len() {
                    assert(before[j] == k);
                    assert(before.contains(k));
                } else {
                    assert(e[n - 1].0 == k);
                }
            }
            if exists|i: int| 0 <= i < n && (#[trigger] e[i]).0 == k && e[i].1 <= x {
                let i = choose|i: int| 0 <= i < n && (#[trigger] e[i]).0 == k && e[i].1 <= x;
                if i < n - 1 {
                    assert(before.contains(k));
                    let j = choose|j: int| 0 <= j < before.len() && before[j] == k;
                    assert(all[j] == k);
                } else {
                    assert(all[all.len() - 1] == k);
                }
            }
        }
        if e[n - 1].1 <= x {
            assert(!before.contains(e[n - 1].0));
            assert forall|i: int, j: int| 0 <= i < j < all.len() implies all[i] != all[j] by {
                if j == all.len() - 1 {
                    assert(before[i] == all[i]);
                    assert(before.contains(all[i]));
                }
            }
        }
    }
}

/// Counting over a list of the entries counts the entries.
proof fn lemma_count(e: Seq<(Key, u64)>, h: Map<Key, Hint>, x: u64)
    requires
        lists(e, h),
    ensures
        up_to(h, x).finite(),
        up_to(h, x).len() == picked(e, x, e.len() as int).len(),
        h.dom().finite(),
        h.dom().len() == e.len(),
{
    let p = picked(e, x, e.len() as int);
    lemma_picked(e, x, e.len() as int);
    assert(p.to_set() =~= up_to(h, x)) by {
        assert forall|k: Key| p.to_set().contains(k) <==> up_to(h, x).contains(k) by {
            assert(p.to_set().contains(k) <==> p.contains(k));
            if up_to(h, x).contains(k) {
                let i = choose|i: int| 0 <= i < e.len() && (#[trigger] e[i]).0 == k;
                assert(e[i].1 <= x);
            }
        }
    }
    p.unique_seq_to_set();
    let keys = Seq::new(e.len(), |i: int| e[i].0);
    assert(keys.to_set() =~= h.dom()) by {
        assert forall|k: Key| keys.to_set().contains(k) <==> h.dom().contains(k) by {
            assert(keys.to_set().contains(k) <==> keys.contains(k));
            if keys.contains(k) {
                let i = choose|i: int| 0 <= i < keys.len() && keys[i] == k;
                assert(e[i].0 == k);
            }
            if h.contains_key(k) {
                let i = choose|i: int| 0 <= i < e.len() && (#[trigger] e[i]).0 == k;
                assert(keys[i] == k);
            }
        }
    }
    assert(keys.no_duplicates()) by {
        assert forall|i: int, j: int| 0 <= i < keys.len() && 0 <= j < keys.len() && i != j implies keys[i]
            != keys[j] by {
            assert(e[i].0 == keys[i]);
            assert(e[j].0 == keys[j]);
        }
    }
    keys.unique_seq_to_set();
}

/// More entries lie below a higher stamp.
proof fn lemma_up_to_grows(h: Map<Key, Hint>, x: u64, y: u64)
    requires
        h.dom().finite(),
        x <= y,
    ensures
        up_to(h, x).len() <= up_to(h, y).len(),
{
    assert(up_to(h, x).subset_of(up_to(h, y)));
    vstd::set_lib::lemma_len_subset(up_to(h, x), up_to(h, y));
}

/// How many entries have a stamp of at most `x`.
fn count_up_to(e: &Vec<(Key, u64)>, x: u64) -> (r: usize)
    ensures
        r == picked(e@, x, e@.len() as int).len(),
{
    let mut n: usize = 0;
    let mut i: usize = 0;
    while i < e.len()
        invariant
            i <= e@.len(),
            n <= i,
            n == picked(e@, x, i as int).len(),
        decreases e@.len() - i,
    {
        if e[i].1 <= x {
            n = n + 1;
        }
        i = i + 1;
    }
    n
}

/// An address as a key.
pub open spec fn key_of(ip: IpAddr) -> Key {
    match ip {
        IpAddr::V4(a) => (4, a as u128),
        IpAddr::V6(a) => (6, a),
    }
}

/// Different addresses have different keys.
pub proof fn law_keys_differ(a: IpAddr, b: IpAddr)
    ensures
        key_of(a) == key_of(b) <==> a == b,
{
}

/// No two addresses have one stamp, and all were given before the next one.
pub open spec fn in_order(h: Map<Key, Hint>, next: u64) -> bool {
    &&& apart(h)
    &&& forall|a: Key| #[trigger] h.contains_key(a) ==> h[a].1 < next
}

/// No two addresses have one stamp.
pub open spec fn apart(h: Map<Key, Hint>) -> bool {
    forall|a: Key, b: Key|
        #[trigger] h.contains_key(a) && #[trigger] h.contains_key(b) && h[a].1 == h[b].1 ==> a == b
}

/// How many addresses there are at most where room is made from `limit` on: when there is
/// but one, it stays beside the new one.
pub open spec fn room(limit: int) -> int {
    if limit >= 2 {
        limit
    } else {
        2
    }
}

/// The groups of the addresses that were seen last, up to a number of addresses.
pub struct IpHints {
    map: dashmap::DashMap<Key, Hint>,
    seq: u64,
    count: usize,
    cap: usize,
    /// The stamps have started anew.
    anew: Ghost<bool>,
}

impl IpHints {
    /// The addresses, their labels and when each was last asked for.
    pub closed spec fn held(&self) -> Map<Key, Hint> {
        hints_held(self.map)
    }

    /// The stamp that comes next.
    pub closed spec fn stamp(&self) -> u64 {
        self.seq
    }

    /// The number from which on room is made.
    pub closed spec fn limit(&self) -> int {
        self.cap as int
    }

    /// Whether the stamps have started anew: there are as many as numbers of 64 bits.
    pub closed spec fn turned(&self) -> bool {
        self.anew@
    }

    /// The count is that of the table. Until the stamps start anew, no two addresses have
    /// one stamp, all were given before the next one, and there are no more addresses
    /// than the limit allows.
    pub closed spec fn wf(&self) -> bool {
        &&& self.held().dom().finite()
        &&& self.count == self.held().dom().len()
        &&& self.cap >= 1
        &&& !self.turned() ==> in_order(self.held(), self.stamp())
        &&& !self.turned() ==> self.held().dom().len() <= room(self.limit())
    }

    /// No address is known; room is made from `cap` addresses on, and from one on
    /// where `cap` is zero.
    pub fn with_cap(cap: usize) -> (r: IpHints)
        ensures
            r.wf(),
            r.held() == no_hints(),
            r.stamp() == 0,
            !r.turned(),
            r.limit() == if cap >= 1 {
                cap as int
            } else {
                1
            },
    {
        IpHints {
            map: hints_new(),
            seq: 0,
            count: 0,
            cap: if cap >= 1 {
                cap
            } else {
                1
            },
            anew: Ghost(false),
        }
    }

    /// The label of an address, which is then the one asked for last.
    pub fn get(&mut self, ip: IpAddr) -> (r: Option<&'static str>)
        requires
            old(self).wf(),
        ensures
            final(self).wf(),
            final(self).limit() == old(self).limit(),
            if old(self).held().contains_key(key_of(ip)) {
                let hint = old(self).held()[key_of(ip)];
                &&& r == Some(hint.0)
                &&& final(self).held() == old(self).held().insert(
                    key_of(ip),
                    (hint.0, old(self).stamp()),
                )
                &&& final(self).stamp() == if old(self).stamp() < u64::MAX {
                    (old(self).stamp() + 1) as u64
                } else {
                    0
                }
                &&& final(self).turned() == (old(self).turned() || old(self).stamp() == u64::MAX)
            } else {
                &&& r is None
                &&& final(self).held() == old(self).held()
                &&& final(self).stamp() == old(self).stamp()
                &&& final(self).turned() == old(self).turned()
            },
    {
        if self.count == 0 {
            proof {
                assert(self.held().dom().len() == 0);
                assert(self.held().dom() =~= Set::<Key>::empty());
                assert(!self.held().dom().contains(key_of(ip)));
            }
            return None;
        }
        let k = key(ip);
        match hints_get(&self.map, k) {
            Some(hint) => {
                proof {
                    assert(self.held().dom().insert(k) =~= self.held().dom());
                }
                proof {
                    lemma_noted(self.held(), self.limit(), k, hint.0, self.seq);
                }
                hints_put(&mut self.map, k, (hint.0, self.seq));
                self.step();
                Some(hint.0)
            },
            None => None,
        }
    }

    /// Notes the label of an address, which is then the one asked for last. An
    /// address that is known keeps its label. For a new one, room is made first
    /// where the limit is reached.
    pub fn note(&mut self, ip: IpAddr, label: &'static str)
        requires
            old(self).wf(),
        ensures
            final(self).wf(),
            final(self).limit() == old(self).limit(),
            final(self).stamp() == if old(self).stamp() < u64::MAX {
                (old(self).stamp() + 1) as u64
            } else {
                0
            },
            final(self).turned() == (old(self).turned() || old(self).stamp() == u64::MAX),
            final(self).held() == noted(
                old(self).held(),
                old(self).limit(),
                key_of(ip),
                label,
                old(self).stamp(),
            ),
    {
        let stamp: u64 = self.seq;
        let k = key(ip);
        proof {
            lemma_noted(self.held(), self.limit(), k, label, stamp);
        }
        match hints_get(&self.map, k) {
            Some(hint) => {
                proof {
                    assert(self.held().dom().insert(k) =~= self.held().dom());
                }
                hints_put(&mut self.map, k, (hint.0, stamp));
                self.step();
                return ;
            },
            None => {},
        }
        if hints_len(&self.map) >= self.cap {
            self.evict_oldest();
        }
        hints_put(&mut self.map, k, (label, stamp));
        self.count = hints_len(&self.map);
        self.step();
    }

    /// Goes on to the next stamp.
    fn step(&mut self)
        ensures
            final(self).map == old(self).map,
            final(self).count == old(self).count,
            final(self).cap == old(self).cap,
            final(self).seq == if old(self).seq < u64::MAX {
                (old(self).seq + 1) as u64
            } else {
                0
            },
            final(self).anew@ == (old(self).anew@ || old(self).seq == u64::MAX),
    {
        let ghost turned = self.anew@ || self.seq == u64::MAX;
        self.anew = Ghost(turned);
        self.seq = self.seq.wrapping_add(1);
    }

    /// How many addresses are known.
    pub fn len(&self) -> (r: usize)
        requires
            self.wf(),
        ensures
            r == self.held().dom().len(),
    {
        self.count
    }

    /// Whether no address is known.
    pub fn is_empty(&self) -> (r: bool)
        requires
            self.wf(),
        ensures
            r == (self.held().dom().len() == 0),
    {
        self.len() == 0
    }

    /// Makes room.
    fn evict_oldest(&mut self)
        requires
            old(self).wf(),
            old(self).held().dom().len() >= 1,
        ensures
            final(self).wf(),
            final(self).limit() == old(self).limit(),
            final(self).stamp() == old(self).stamp(),
            final(self).turned() == old(self).turned(),
            final(self).held() == newest(old(self).held()),
    {
        let ghost h = self.held();
        proof {
            assert(newest(h).dom().subset_of(h.dom()));
            vstd::set_lib::lemma_len_subset(newest(h).dom(), h.dom());
        }
        let e = hints_list(&self.map);
        proof {
            lemma_count(e@, h, 0);
        }
        let n: usize = e.len();
        let quarter: usize = if n / 4 > 1 {
            n / 4
        } else {
            1
        };
        let drop: usize = if quarter < n - 1 {
            quarter
        } else {
            n - 1
        };
        let mut floor: u64 = e[0].1;
        let mut i: usize = 1;
        while i < n
            invariant
                1 <= i <= n,
                n == e@.len(),
                forall|j: int| 0 <= j < i ==> (#[trigger] e@[j]).1 <= floor,
            decreases n - i,
        {
            if e[i].1 > floor {
                floor = e[i].1;
            }
            i = i + 1;
        }
        proof {
            lemma_count(e@, h, floor);
            assert(up_to(h, floor) =~= h.dom()) by {
                assert forall|k: Key| h.dom().contains(k) implies h[k].1 <= floor by {
                    let j = choose|j: int| 0 <= j < e@.len() && (#[trigger] e@[j]).0 == k;
                    assert(e@[j].1 <= floor);
                }
            }
        }
        let mut i: usize = 0;
        while i < n
            invariant
                i <= n,
                n == e@.len(),
                lists(e@, h),
                up_to(h, floor).len() > drop,
                forall|j: int|
                    0 <= j < i && up_to(h, (#[trigger] e@[j]).1).len() > drop ==> floor <= e@[j].1,
            decreases n - i,
        {
            let c = count_up_to(&e, e[i].1);
            proof {
                lemma_count(e@, h, e@[i as int].1);
            }
            if c > drop && e[i].1 < floor {
                floor = e[i].1;
            }
            i = i + 1;
        }
        proof {
            assert forall|k: Key| h.dom().contains(k) implies (h[k].1 >= floor) == (up_to(
                h,
                h[k].1,
            ).len() > leaving(h.dom().len() as int)) by {
                let j = choose|j: int| 0 <= j < e@.len() && (#[trigger] e@[j]).0 == k;
                assert(e@[j].1 == h[k].1);
                if h[k].1 >= floor {
                    lemma_up_to_grows(h, floor, h[k].1);
                }
            }
            assert(h.restrict(Set::new(|k: Key| h[k].1 >= floor)) =~= newest(h));
        }
        hints_retain(&mut self.map, floor);
        self.count = hints_len(&self.map);
    }
}

impl Default for IpHints {
    fn default() -> (r: Self)
        ensures
            r.wf(),
            r.held() == no_hints(),
            r.stamp() == 0,
            !r.turned(),
            r.limit() == HINTS_CAP,
    {
        IpHints::with_cap(HINTS_CAP)
    }
}

/// What is held once an address was noted.
pub open spec fn noted(
    h: Map<Key, Hint>,
    limit: int,
    k: Key,
    label: &'static str,
    stamp: u64,
) -> Map<Key, Hint> {
    if h.contains_key(k) {
        h.insert(k, (h[k].0, stamp))
    } else if h.dom().len() >= limit {
        newest(h).insert(k, (label, stamp))
    } else {
        h.insert(k, (label, stamp))
    }
}

/// An address as a key.
fn key(ip: IpAddr) -> (r: Key)
    ensures
        r == key_of(ip),
{
    match ip {
        IpAddr::V4(a) => (4, a as u128),
        IpAddr::V6(a) => (6, a),
    }
}

/// The address that was asked for last stays when room is made.
pub proof fn law_recent_stays(h: Map<Key, Hint>, k: Key)
    requires
        h.dom().finite(),
        h.contains_key(k),
        forall|j: Key| #[trigger] h.contains_key(j) ==> h[j].1 <= h[k].1,
    ensures
        newest(h).contains_key(k),
        newest(h)[k] == h[k],
{
    assert(up_to(h, h[k].1) =~= h.dom()) by {
        assert forall|j: Key| h.dom().contains(j) implies up_to(h, h[k].1).contains(j) by {
            assert(h.contains_key(j));
        }
    }
    assert(h.dom().len() > 0) by {
        if h.dom().len() == 0 {
            assert(h.dom() =~= Set::<Key>::empty());
            assert(!h.dom().contains(k));
        }
    }
}

/// Of addresses without a common stamp, `d` are among the `d` oldest.
proof fn lemma_ranks(h: Map<Key, Hint>, d: int)
    requires
        h.dom().finite(),
        apart(h),
        0 <= d <= h.dom().len(),
    ensures
        oldest(h, d).finite(),
        oldest(h, d).len() == d,
    decreases d,
{
    assert(oldest(h, d).subset_of(h.dom()));
    vstd::set_lib::lemma_len_subset(oldest(h, d), h.dom());
    if d == 0 {
        assert forall|k: Key| !oldest(h, 0).contains(k) by {
            if h.contains_key(k) {
                assert(up_to(h, h[k].1).contains(k));
                assert(up_to(h, h[k].1).subset_of(h.dom()));
                vstd::set_lib::lemma_len_subset(up_to(h, h[k].1), h.dom());
                if up_to(h, h[k].1).len() == 0 {
                    assert(up_to(h, h[k].1) =~= Set::<Key>::empty());
                }
            }
        }
        assert(oldest(h, 0) =~= Set::<Key>::empty());
    } else {
        let c = d - 1;
        let old = oldest(h, c);
        lemma_ranks(h, c);
        let rest = h.dom().difference(old);
        assert(rest.len() > 0) by {
            if rest.len() == 0 {
                assert(rest =~= Set::<Key>::empty());
                assert forall|k: Key| h.dom().contains(k) implies old.contains(k) by {
                    assert(!rest.contains(k));
                }
                assert(old =~= h.dom());
            }
        }
        lemma_oldest(h, rest);
        let a = choose|a: Key|
            #[trigger] rest.contains(a) && h.contains_key(a) && forall|b: Key| #[trigger]
                rest.contains(b) ==> h[a].1 <= h[b].1;
        assert(up_to(h, h[a].1) =~= old.insert(a)) by {
            assert forall|k: Key| up_to(h, h[a].1).contains(k) <==> old.insert(a).contains(k) by {
                if old.contains(k) && h[k].1 > h[a].1 {
                    lemma_up_to_grows(h, h[a].1, h[k].1);
                    assert(old.contains(a));
                }
                if h.contains_key(k) && h[k].1 <= h[a].1 && !old.contains(k) {
                    assert(rest.contains(k));
                    assert(h[k].1 == h[a].1);
                }
            }
        }
        assert(oldest(h, d) =~= old.insert(a)) by {
            assert forall|k: Key| oldest(h, d).contains(k) <==> old.insert(a).contains(k) by {
                if oldest(h, d).contains(k) && !old.contains(k) && k != a {
                    assert(rest.contains(k));
                    assert(h[a].1 < h[k].1);
                    let more = up_to(h, h[a].1).insert(k);
                    assert(more.subset_of(up_to(h, h[k].1)));
                    assert(up_to(h, h[k].1).subset_of(h.dom()));
                    vstd::set_lib::lemma_len_subset(up_to(h, h[k].1), h.dom());
                    vstd::set_lib::lemma_len_subset(more, up_to(h, h[k].1));
                }
            }
        }
    }
}

/// Those among the `d` oldest addresses.
spec fn oldest(h: Map<Key, Hint>, d: int) -> Set<Key> {
    h.dom().filter(|k: Key| up_to(h, h[k].1).len() <= d)
}

/// Room is made by letting as many of the oldest leave as is said, and no others.
proof fn lemma_newest(h: Map<Key, Hint>)
    requires
        h.dom().finite(),
        apart(h),
        h.dom().len() >= 1,
    ensures
        h.dom().difference(newest(h).dom()).len() == leaving(h.dom().len() as int),
        newest(h).dom().len() == h.dom().len() - leaving(h.dom().len() as int),
        newest(h).dom().finite(),
        forall|a: Key, b: Key|
            h.contains_key(a) && !(#[trigger] newest(h).contains_key(a)) && (#[trigger] newest(
                h,
            ).contains_key(b)) ==> h[a].1 < h[b].1,
{
    let d = leaving(h.dom().len() as int);
    lemma_ranks(h, d);
    let gone = oldest(h, d);
    assert(h.dom().difference(newest(h).dom()) =~= gone);
    assert(newest(h).dom() =~= h.dom().difference(gone));
    assert(gone.subset_of(h.dom()));
    assert(h.dom().intersect(gone) =~= gone);
    vstd::set_lib::lemma_set_intersect_union_lens(newest(h).dom(), gone);
    assert(newest(h).dom().union(gone) =~= h.dom());
    assert(newest(h).dom().intersect(gone) =~= Set::<Key>::empty());
    assert forall|a: Key, b: Key|
        h.contains_key(a) && !(#[trigger] newest(h).contains_key(a)) && (#[trigger] newest(
            h,
        ).contains_key(b)) implies h[a].1 < h[b].1 by {
        if h[b].1 <= h[a].1 {
            lemma_up_to_grows(h, h[b].1, h[a].1);
        }
    }
}

/// A note keeps the order of the stamps and the bound on the room.
proof fn lemma_noted(h: Map<Key, Hint>, limit: int, k: Key, label: &'static str, stamp: u64)
    requires
        h.dom().finite(),
        limit >= 1,
    ensures
        noted(h, limit, k, label, stamp).dom().finite(),
        in_order(h, stamp) && stamp < u64::MAX ==> in_order(
            noted(h, limit, k, label, stamp),
            (stamp + 1) as u64,
        ),
        in_order(h, stamp) && h.dom().len() <= room(limit) ==> noted(
            h,
            limit,
            k,
            label,
            stamp,
        ).dom().len() <= room(limit),
{
    assert(newest(h).dom().subset_of(h.dom()));
    vstd::set_lib::lemma_len_subset(newest(h).dom(), h.dom());
    if h.contains_key(k) {
        assert(h.dom().insert(k) =~= h.dom());
    } else if in_order(h, stamp) && h.dom().len() >= limit {
        lemma_newest(h);
    }
}

/// Addresses that are noted and asked for have stamps of their own and no more room than
/// the limit allows, as long as the stamps do not start anew.
pub proof fn law_hints_are_in_order(hints: IpHints)
    requires
        hints.wf(),
        !hints.turned(),
    ensures
        in_order(hints.held(), hints.stamp()),
        hints.held().dom().finite(),
        hints.held().dom().len() <= room(hints.limit()),
{
}

/// A note never takes more room than the limit allows, where that is at least two.
pub proof fn law_room_is_bounded(hints: IpHints, ip: IpAddr, label: &'static str)
    requires
        hints.wf(),
        !hints.turned(),
        hints.limit() >= 2,
    ensures
        ({
            let after = noted(hints.held(), hints.limit(), key_of(ip), label, hints.stamp());
            &&& after.dom().finite()
            &&& after.dom().len() <= hints.limit()
            &&& after.contains_key(key_of(ip))
        }),
{
    lemma_noted(hints.held(), hints.limit(), key_of(ip), label, hints.stamp());
}

/// An address that is known keeps its label and takes no more room.
pub proof fn law_known_label_stays(hints: IpHints, ip: IpAddr, label: &'static str)
    requires
        hints.wf(),
        hints.held().contains_key(key_of(ip)),
    ensures
        ({
            let after = noted(hints.held(), hints.limit(), key_of(ip), label, hints.stamp());
            &&& after.dom() == hints.held().dom()
            &&& after[key_of(ip)].0 == hints.held()[key_of(ip)].0
            &&& forall|k: Key|
                k != key_of(ip) && #[trigger] hints.held().contains_key(k) ==> after[k]
                    == hints.held()[k]
        }),
{
    assert(hints.held().dom().insert(key_of(ip)) =~= hints.held().dom());
}

/// Where the limit is reached, a new address makes exactly a quarter of the others leave,
/// at least one: those that were noted or asked for longest ago. The rest stays as it is.
pub proof fn law_oldest_leave(hints: IpHints, ip: IpAddr, label: &'static str)
    requires
        hints.wf(),
        !hints.turned(),
        hints.limit() >= 2,
        !hints.held().contains_key(key_of(ip)),
    ensures
        ({
            let before = hints.held();
            let after = noted(before, hints.limit(), key_of(ip), label, hints.stamp());
            let gone = before.dom().difference(after.dom());
            &&& after[key_of(ip)] == (label, hints.stamp())
            &&& gone.len() == if before.dom().len() < hints.limit() {
                0
            } else if hints.limit() / 4 > 1 {
                hints.limit() / 4
            } else {
                1
            }
            &&& forall|a: Key, b: Key|
                #[trigger] gone.contains(a) && #[trigger] before.contains_key(b) && !gone.contains(b)
                    ==> before[a].1 < before[b].1
            &&& forall|b: Key|
                #[trigger] before.contains_key(b) && !gone.contains(b) ==> after.contains_key(b)
                    && after[b] == before[b]
        }),
{
    let before = hints.held();
    let k = key_of(ip);
    let after = noted(before, hints.limit(), k, label, hints.stamp());
    let gone = before.dom().difference(after.dom());
    if before.dom().len() >= hints.limit() {
        lemma_newest(before);
        assert(gone =~= before.dom().difference(newest(before).dom()));
        assert forall|a: Key, b: Key|
            #[trigger] gone.contains(a) && #[trigger] before.contains_key(b) && !gone.contains(b) implies before[a].1
            < before[b].1 by {
            assert(!newest(before).contains_key(a));
            assert(newest(before).contains_key(b));
        }
    } else {
        assert(gone =~= Set::<Key>::empty());
    }
}

/// Among some addresses one has the lowest stamp.
proof fn lemma_oldest(h: Map<Key, Hint>, s: Set<Key>)
    requires
        s.finite(),
        s.len() > 0,
        s.subset_of(h.dom()),
    ensures
        exists|a: Key|
            #[trigger] s.contains(a) && h.contains_key(a) && forall|b: Key| #[trigger]
                s.contains(b) ==> h[a].1 <= h[b].1,
    decreases s.len(),
{
    let x = s.choose();
    assert(s.contains(x));
    assert(h.contains_key(x));
    if s.len() == 1 {
        assert forall|b: Key| #[trigger] s.contains(b) implies h[x].1 <= h[b].1 by {
            if b != x {
                assert(s.remove(x).contains(b));
                assert(s.remove(x).len() == 0);
                assert(s.remove(x) =~= Set::<Key>::empty());
            }
        }
    } else {
        let t = s.remove(x);
        lemma_oldest(h, t);
        let a = choose|a: Key|
            #[trigger] t.contains(a) && h.contains_key(a) && forall|b: Key| #[trigger]
                t.contains(b) ==> h[a].1 <= h[b].1;
        let best = if h[a].1 <= h[x].1 {
            a
        } else {
            x
        };
        assert(s.contains(best));
        assert forall|b: Key| #[trigger] s.contains(b) implies h[best].1 <= h[b].1 by {
            if b != x {
                assert(t.contains(b));
            }
        }
    }
}

/// The two domains of the edge and all that lies under them are in the group, in any
/// spelling and with or without a point at the end.
pub proof fn law_domains_of_the_edge(sub: Seq<char>, d: Seq<char>)
    requires
        text::lowered(d) == text::lowered("cftunnel.com"@) || text::lowered(d) == text::lowered(
            "argotunnel.com"@,
        ),
        sub.len() > 0,
    ensures
        group_of(d) == Some("cloudflared"@),
        group_of(sub + seq!['.'] + d) == Some("cloudflared"@),
        group_of(d.push('.')) == Some("cloudflared"@),
        group_of((sub + seq!['.'] + d).push('.')) == Some("cloudflared"@),
{
    reveal_strlit("cftunnel.com");
    reveal_strlit("argotunnel.com");
    let w = if text::lowered(d) == text::lowered("cftunnel.com"@) {
        "cftunnel.com"@
    } else {
        "argotunnel.com"@
    };
    assert(text::lowered(d).len() == d.len() && text::lowered(w).len() == w.len());
    assert(text::lowered(d).last() == text::lower(d.last()));
    assert(text::lowered(w).last() == text::lower(w.last()));
    assert(w.last() == 'm');
    assert(d.last() != '.');
    let t = sub + seq!['.'] + d;
    assert(t.subrange(t.len() - d.len(), t.len() as int) =~= d);
    assert(d.push('.').drop_last() =~= d);
    assert(t.push('.').drop_last() =~= t);
    assert(t.last() == d.last());
    assert(t[t.len() - d.len() - 1] == '.');
}

/// What is in the group ends as one of the two domains does; a longer name that only looks
/// like one of them at its end is not in it.
pub proof fn law_only_these_domains(d: Seq<char>)
    requires
        d.len() > 0,
        d.last() != '.',
        group_of(d) is Some,
    ensures
        group_of(d) == Some("cloudflared"@),
        exists|k: int|
            0 <= k <= d.len() && (#[trigger] text::lowered(d.skip(k)) == text::lowered(
                "cftunnel.com"@,
            ) || text::lowered(d.skip(k)) == text::lowered("argotunnel.com"@)) && (k == 0 || k >= 2
                && d[k - 1] == '.'),
{
    let w = if under(d, "cftunnel.com"@) {
        "cftunnel.com"@
    } else {
        "argotunnel.com"@
    };
    assert(under(d, w));
    let k = d.len() - w.len();
    assert(d.skip(0) =~= d);
    assert(text::lowered(d).len() == d.len());
    if text::same_nocase(d, w) {
        assert(text::lowered(d.skip(0)) == text::lowered(w));
    } else {
        assert(d.skip(k) =~= d.subrange(k, d.len() as int));
        assert(text::lowered(d.skip(k)) == text::lowered(w));
    }
}

/// The address stands in the key with its family.
pub proof fn law_keys_of_addresses(a: u32, b: u128)
    ensures
        key_of(IpAddr::V4(a)) == (4u8, a as u128),
        key_of(IpAddr::V6(b)) == (6u8, b),
{
}

/// A quarter leaves, but at least one and never all.
pub proof fn law_how_many_leave(n: int)
    requires
        n >= 1,
    ensures
        0 <= leaving(n) < n,
        n >= 2 ==> leaving(n) >= 1,
        n >= 4 ==> 4 * leaving(n) <= n < 4 * leaving(n) + 4,
{
}

} // verus!
