//! Names and the addresses that a name server gave for them.

use crate::addr;
use crate::addr::{IpAddr, SocketAddr};
use crate::text;
use vstd::prelude::*;

verus! {

/// The name server that is asked where no other is known: 8.8.8.8.
pub const FALLBACK_DNS: u32 = 0x0808_0808;

/// The port of a name server.
pub const DNS_PORT: u16 = 53;

/// For how long an answer is kept at least, in seconds.
pub const CACHE_TTL_MIN: u64 = 2;

/// For how long an answer is kept at most, in seconds.
pub const CACHE_TTL_MAX: u64 = 600;

/// How many answers are kept.
pub const CACHE_SOFT_CAP: usize = 8192;

/// How long an answer is waited for, in milliseconds.
pub const TIMEOUT_MS: u64 = 3_000;

/// What is kept of an answer: its first address, and until when it counts, in
/// milliseconds.
pub type Answer = (Option<u32>, u128);

/// What a table of answers holds.
pub uninterp spec fn answers_held(m: dashmap::DashMap<String, Answer>) -> Map<Seq<char>, Answer>;

/// The table that holds nothing.
pub open spec fn no_answers() -> Map<Seq<char>, Answer> {
    Map::empty()
}

/// Whether a table has `n` keys.
pub open spec fn counts(n: usize, h: Map<Seq<char>, Answer>) -> bool {
    h.dom().finite() && n == h.dom().len()
}

/// `DashMap::new` of the crate `dashmap` makes an empty table.
#[verifier::external_body]
fn answers_new() -> (r: dashmap::DashMap<String, Answer>)
    ensures
        answers_held(r) == no_answers(),
{
    dashmap::DashMap::new()
}

/// `DashMap::get` of the crate `dashmap` gives the value under a key; a copy of
/// it is handed on.
#[verifier::external_body]
fn answers_get(m: &dashmap::DashMap<String, Answer>, k: &str) -> (r: Option<Answer>)
    ensures
        r == if answers_held(*m).contains_key(k@) {
            Some(answers_held(*m)[k@])
        } else {
            None::<Answer>
        },
{
    m.get(k).map(|e| *e.value())
}

/// `DashMap::insert` of the crate `dashmap` puts a value under a key, in the
/// place of the one that stood there.
#[verifier::external_body]
fn answers_put(m: &mut dashmap::DashMap<String, Answer>, k: String, v: Answer)
    ensures
        answers_held(*final(m)) == answers_held(*old(m)).insert(k@, v),
{
    m.insert(k, v);
}

/// `DashMap::len` of the crate `dashmap` counts the keys.
#[verifier::external_body]
fn answers_len(m: &dashmap::DashMap<String, Answer>) -> (r: usize)
    ensures
        counts(r, answers_held(*m)),
{
    m.len()
}

/// Whether an answer still counts.
fn counts_at(expire: u128, now_ms: u64) -> (r: bool)
    ensures
        r == (now_ms < expire),
{
    (now_ms as u128) < expire
}

/// `DashMap::retain` of the crate `dashmap` keeps the entries for which a
/// function holds: here, those that still count.
#[verifier::external_body]
fn answers_retain(m: &mut dashmap::DashMap<String, Answer>, now_ms: u64)
    ensures
        answers_held(*final(m)) == living(answers_held(*old(m)), now_ms),
{
    m.retain(|_, a| counts_at(a.1, now_ms));
}

/// The answers that still count.
pub open spec fn living(h: Map<Seq<char>, Answer>, now_ms: u64) -> Map<Seq<char>, Answer> {
    h.restrict(Set::new(|k: Seq<char>| now_ms < h[k].1))
}

/// For how long an answer is kept, in seconds.
pub open spec fn kept_sec(ttl: u32) -> int {
    if ttl < CACHE_TTL_MIN {
        CACHE_TTL_MIN as int
    } else if ttl > CACHE_TTL_MAX {
        CACHE_TTL_MAX as int
    } else {
        ttl as int
    }
}

/// The first of some addresses.
pub open spec fn first_of(ips: Seq<u32>) -> Option<u32> {
    if ips.len() > 0 {
        Some(ips[0])
    } else {
        None
    }
}

/// What is held once an answer came. Where there are too many, those that no longer
/// count leave, and where there still are, the new one is not kept.
pub open spec fn after_put(
    h: Map<Seq<char>, Answer>,
    host: Seq<char>,
    ips: Seq<u32>,
    ttl: u32,
    now_ms: u64,
) -> Map<Seq<char>, Answer> {
    let room = if h.dom().len() >= CACHE_SOFT_CAP {
        living(h, now_ms)
    } else {
        h
    };
    if room.dom().len() >= CACHE_SOFT_CAP {
        room
    } else {
        room.insert(host, (first_of(ips), (now_ms + kept_sec(ttl) * 1000) as u128))
    }
}

/// The address that is known for a name.
pub open spec fn known(h: Map<Seq<char>, Answer>, host: Seq<char>, now_ms: u64) -> Option<u32> {
    if h.contains_key(host) && now_ms < h[host].1 {
        h[host].0
    } else {
        None
    }
}

/// The name server in a line of the system's settings.
pub open spec fn server_in(line: Seq<char>) -> Option<IpAddr> {
    match text::after(text::trimmed(line), "nameserver"@) {
        Some(rest) => {
            let w = text::words(rest);
            if w.len() > 0 {
                addr::ip(w[0])
            } else {
                None
            }
        },
        None => None,
    }
}

/// The first name server in the lines from a place on.
pub open spec fn server_from(ls: Seq<Seq<char>>, i: int) -> Option<SocketAddr>
    decreases ls.len() - i,
{
    if i < 0 || i >= ls.len() {
        None
    } else {
        match server_in(ls[i]) {
            Some(ip) => Some(SocketAddr { ip, port: DNS_PORT, scope: 0 }),
            None => server_from(ls, i + 1),
        }
    }
}

/// The first name server in the system's settings.
pub fn resolv_conf_nameserver(conf: &str) -> (r: Option<SocketAddr>)
    ensures
        r == server_from(text::lines(conf@), 0),
{
    let cs = text::chars_of(conf);
    let ls = text::lines_of(cs.as_slice());
    let ghost all = text::lines(conf@);
    let mut i: usize = 0;
    while i < ls.len()
        invariant
            i <= ls@.len(),
            all == text::texts(ls@),
            all == text::lines(conf@),
            server_from(all, 0) == server_from(all, i as int),
        decreases ls@.len() - i,
    {
        assert(all[i as int] == ls@[i as int]@);
        match text::strip_prefix(text::trim(ls[i]), "nameserver") {
            Some(rest) => {
                let w = text::words_of(rest);
                assert(text::words(rest@) == text::texts(w@));
                if w.len() > 0 {
                    assert(text::words(rest@)[0] == w@[0]@);
                    match addr::parse_ip(w[0]) {
                        Some(ip) => return Some(SocketAddr::new(ip, DNS_PORT)),
                        None => {},
                    }
                }
            },
            None => {},
        }
        i = i + 1;
    }
    None
}

/// The name server that is asked: the one of the configuration, else the first of
/// the system, else a public one.
pub open spec fn chosen_server(server: Option<SocketAddr>, conf: Option<Seq<char>>) -> SocketAddr {
    match server {
        Some(s) => s,
        None => match conf {
            Some(c) => match server_from(text::lines(c), 0) {
                Some(s) => s,
                None => SocketAddr { ip: IpAddr::V4(FALLBACK_DNS), port: DNS_PORT, scope: 0 },
            },
            None => SocketAddr { ip: IpAddr::V4(FALLBACK_DNS), port: DNS_PORT, scope: 0 },
        },
    }
}

/// The name server that is asked.
pub fn resolve_server(server: Option<SocketAddr>, conf: Option<&str>) -> (r: SocketAddr)
    ensures
        r == chosen_server(server, text::opt_str(conf)),
{
    match server {
        Some(s) => return s,
        None => {},
    }
    match conf {
        Some(c) => match resolv_conf_nameserver(c) {
            Some(s) => return s,
            None => {},
        },
        None => {},
    }
    SocketAddr::new(IpAddr::V4(FALLBACK_DNS), DNS_PORT)
}

/// Why an answer of a name server is of no use.
#[derive(Debug, Clone, Copy, PartialEq, Eq, Structural)]
pub enum AnswerErr {
    IdMismatch,
    NoRecord,
}

impl AnswerErr {
    /// The text of it.
    pub fn text(self) -> (r: &'static str)
        ensures
            r@ == match self {
                AnswerErr::IdMismatch => "dns response id mismatch"@,
                AnswerErr::NoRecord => "no A record in response"@,
            },
    {
        match self {
            AnswerErr::IdMismatch => "dns response id mismatch",
            AnswerErr::NoRecord => "no A record in response",
        }
    }
}

/// Whether an answer is of use: it answers the question that was asked, with an
/// address.
pub fn check_answer(asked: u16, answered: u16, addresses: usize) -> (r: Result<(), AnswerErr>)
    ensures
        r == if asked != answered {
            Err(AnswerErr::IdMismatch)
        } else if addresses == 0 {
            Err(AnswerErr::NoRecord)
        } else {
            Ok(())
        },
{
    if asked != answered {
        Err(AnswerErr::IdMismatch)
    } else if addresses == 0 {
        Err(AnswerErr::NoRecord)
    } else {
        Ok(())
    }
}

/// The names that a table of questions holds.
pub uninterp spec fn asked_held(m: dashmap::DashMap<String, ()>) -> Set<Seq<char>>;

/// No name.
pub open spec fn nothing_asked() -> Set<Seq<char>> {
    Set::empty()
}

/// `DashMap::new` of the crate `dashmap` makes an empty table.
#[verifier::external_body]
fn asked_new() -> (r: dashmap::DashMap<String, ()>)
    ensures
        asked_held(r) == nothing_asked(),
{
    dashmap::DashMap::new()
}

/// `DashMap::contains_key` of the crate `dashmap` tells whether a key is there.
#[verifier::external_body]
fn asked_has(m: &dashmap::DashMap<String, ()>, k: &str) -> (r: bool)
    ensures
        r == asked_held(*m).contains(k@),
{
    m.contains_key(k)
}

/// `DashMap::insert` of the crate `dashmap` puts a key in.
#[verifier::external_body]
fn asked_put(m: &mut dashmap::DashMap<String, ()>, k: String)
    ensures
        asked_held(*final(m)) == asked_held(*old(m)).insert(k@),
{
    m.insert(k, ());
}

/// `DashMap::remove` of the crate `dashmap` takes a key out.
#[verifier::external_body]
fn asked_drop(m: &mut dashmap::DashMap<String, ()>, k: &str)
    ensures
        asked_held(*final(m)) == asked_held(*old(m)).remove(k@),
{
    m.remove(k);
}

/// How a name is resolved.
#[derive(Debug, Clone, Copy, PartialEq, Eq, Structural)]
pub enum Resolve {
    /// Its address is known.
    Known(u32),
    /// The name server is asked, and the answer is told to all who wait for it.
    Lead,
    /// Somebody else asks the name server, and the answer is waited for.
    Follow,
}

/// How a name is resolved: one that is an address itself, or for which an answer
/// still counts, needs no question, and one question is asked at a time.
pub open spec fn way(
    h: Map<Seq<char>, Answer>,
    asked: Set<Seq<char>>,
    host: Seq<char>,
    now_ms: u64,
) -> Resolve {
    match addr::ipv4(host) {
        Some(a) => Resolve::Known(a),
        None => match known(h, host, now_ms) {
            Some(a) => Resolve::Known(a),
            None => if asked.contains(host) {
                Resolve::Follow
            } else {
                Resolve::Lead
            },
        },
    }
}

/// Why a name has no address.
#[derive(Debug, Clone, Copy, PartialEq, Eq, Structural)]
pub enum ResolveErr {
    /// The name server did not answer, or not with an address.
    Failed,
    /// The answer holds no address.
    NoAddress,
}

impl ResolveErr {
    /// The text of it.
    pub fn text(self) -> (r: &'static str)
        ensures
            r@ == match self {
                ResolveErr::Failed => "dns query failed"@,
                ResolveErr::NoAddress => "no A record"@,
            },
    {
        match self {
            ResolveErr::Failed => "dns query failed",
            ResolveErr::NoAddress => "no A record",
        }
    }
}

/// The address that a question is sent from: any, of the family of the name server.
pub fn bind_addr(server: SocketAddr) -> (r: SocketAddr)
    ensures
        r == (SocketAddr {
            ip: match server.ip {
                IpAddr::V4(_) => IpAddr::V4(0),
                IpAddr::V6(_) => IpAddr::V6(0),
            },
            port: 0,
            scope: 0,
        }),
{
    match server.ip {
        IpAddr::V4(_) => SocketAddr::new(IpAddr::V4(0), 0),
        IpAddr::V6(_) => SocketAddr::new(IpAddr::V6(0), 0),
    }
}

/// A name server, the answers that it gave, and the names that it is asked for.
pub struct Resolver {
    server: SocketAddr,
    cache: dashmap::DashMap<String, Answer>,
    inflight: dashmap::DashMap<String, ()>,
    next_id: u16,
}

impl Resolver {
    /// The name server that is asked.
    pub closed spec fn asks(&self) -> SocketAddr {
        self.server
    }

    /// The answers that are held.
    pub closed spec fn answers(&self) -> Map<Seq<char>, Answer> {
        answers_held(self.cache)
    }

    /// The names that the name server is asked for.
    pub closed spec fn asked(&self) -> Set<Seq<char>> {
        asked_held(self.inflight)
    }

    /// The number of the next question.
    pub closed spec fn question(&self) -> u16 {
        self.next_id
    }

    /// No question was asked yet.
    pub fn from_cfg(server: Option<SocketAddr>, conf: Option<&str>) -> (r: Resolver)
        ensures
            r.asks() == chosen_server(server, text::opt_str(conf)),
            r.answers() == no_answers(),
            r.asked() == nothing_asked(),
            r.question() == 1,
    {
        Resolver {
            server: resolve_server(server, conf),
            cache: answers_new(),
            inflight: asked_new(),
            next_id: 1,
        }
    }

    /// The name server that is asked.
    pub fn server(&self) -> (r: SocketAddr)
        ensures
            r == self.asks(),
    {
        self.server
    }

    /// Changes the name server; the answers stay.
    pub fn set_from_cfg(&mut self, server: Option<SocketAddr>, conf: Option<&str>)
        ensures
            final(self).asks() == chosen_server(server, text::opt_str(conf)),
            final(self).answers() == old(self).answers(),
            final(self).asked() == old(self).asked(),
            final(self).question() == old(self).question(),
    {
        self.server = resolve_server(server, conf);
    }

    /// The number of the next question; it starts anew after the last one.
    pub fn take_id(&mut self) -> (r: u16)
        ensures
            r == old(self).question(),
            final(self).question() == if r < u16::MAX {
                (r + 1) as u16
            } else {
                0
            },
            final(self).asks() == old(self).asks(),
            final(self).answers() == old(self).answers(),
            final(self).asked() == old(self).asked(),
    {
        let id: u16 = self.next_id;
        self.next_id = self.next_id.wrapping_add(1);
        id
    }

    /// How a name is resolved. Who is to ask the name server is noted as asking.
    pub fn resolve_v4(&mut self, host: &str, now_ms: u64) -> (r: Resolve)
        ensures
            r == way(old(self).answers(), old(self).asked(), host@, now_ms),
            final(self).asked() == if r == Resolve::Lead {
                old(self).asked().insert(host@)
            } else {
                old(self).asked()
            },
            final(self).answers() == old(self).answers(),
            final(self).asks() == old(self).asks(),
            final(self).question() == old(self).question(),
    {
        let cs = text::chars_of(host);
        match addr::parse_ipv4(cs.as_slice()) {
            Some(a) => return Resolve::Known(a),
            None => {},
        }
        match self.cache_get(host, now_ms) {
            Some(a) => return Resolve::Known(a),
            None => {},
        }
        if asked_has(&self.inflight, host) {
            return Resolve::Follow;
        }
        asked_put(&mut self.inflight, host.to_owned());
        Resolve::Lead
    }

    /// What was waited for: the first address that was told, else an answer that
    /// still counts. Without either, the name server has to be asked.
    pub fn followed(&self, host: &str, told: Option<&[u32]>, now_ms: u64) -> (r: Option<u32>)
        ensures
            r == match told {
                Some(ips) => if ips@.len() > 0 {
                    Some(ips@[0])
                } else {
                    known(self.answers(), host@, now_ms)
                },
                None => known(self.answers(), host@, now_ms),
            },
    {
        match told {
            Some(ips) => if ips.len() > 0 {
                return Some(ips[0]);
            },
            None => {},
        }
        self.cache_get(host, now_ms)
    }

    /// Takes the answer of the name server in: its addresses, and for how long it
    /// counts.
    pub fn query_and_cache(
        &mut self,
        host: &str,
        answer: Option<(&[u32], u32)>,
        now_ms: u64,
    ) -> (r: Result<u32, ResolveErr>)
        ensures
            match answer {
                Some((ips, ttl)) => final(self).answers() == after_put(
                    old(self).answers(),
                    host@,
                    ips@,
                    ttl,
                    now_ms,
                ) && r == match first_of(ips@) {
                    Some(a) => Ok(a),
                    None => Err(ResolveErr::NoAddress),
                },
                None => final(self).answers() == old(self).answers() && r == Err::<u32, ResolveErr>(
                    ResolveErr::Failed,
                ),
            },
            final(self).asks() == old(self).asks(),
            final(self).asked() == old(self).asked(),
            final(self).question() == old(self).question(),
    {
        match answer {
            Some((ips, ttl)) => {
                self.cache_put(host, ips, ttl, now_ms);
                if ips.len() > 0 {
                    Ok(ips[0])
                } else {
                    Err(ResolveErr::NoAddress)
                }
            },
            None => Err(ResolveErr::Failed),
        }
    }

    /// Who asked the name server is done with it, with an answer or without.
    pub fn release(&mut self, host: &str)
        ensures
            final(self).asked() == old(self).asked().remove(host@),
            final(self).answers() == old(self).answers(),
            final(self).asks() == old(self).asks(),
            final(self).question() == old(self).question(),
    {
        asked_drop(&mut self.inflight, host);
    }

    /// The address that is known for a name.
    pub fn cache_get(&self, host: &str, now_ms: u64) -> (r: Option<u32>)
        ensures
            r == known(self.answers(), host@, now_ms),
    {
        match answers_get(&self.cache, host) {
            Some(a) => if counts_at(a.1, now_ms) {
                a.0
            } else {
                None
            },
            None => None,
        }
    }

    /// Keeps an answer.
    pub fn cache_put(&mut self, host: &str, ips: &[u32], ttl: u32, now_ms: u64)
        ensures
            final(self).answers() == after_put(old(self).answers(), host@, ips@, ttl, now_ms),
            final(self).asks() == old(self).asks(),
            final(self).asked() == old(self).asked(),
            final(self).question() == old(self).question(),
    {
        if answers_len(&self.cache) >= CACHE_SOFT_CAP {
            answers_retain(&mut self.cache, now_ms);
            if answers_len(&self.cache) >= CACHE_SOFT_CAP {
                return ;
            }
        }
        let secs: u64 = if (ttl as u64) < CACHE_TTL_MIN {
            CACHE_TTL_MIN
        } else if ttl as u64 > CACHE_TTL_MAX {
            CACHE_TTL_MAX
        } else {
            ttl as u64
        };
        let first = if ips.len() > 0 {
            Some(ips[0])
        } else {
            None
        };
        let expire: u128 = now_ms as u128 + secs as u128 * 1000;
        answers_put(&mut self.cache, host.to_owned(), (first, expire));
    }

    /// How many answers are held.
    pub fn cached(&self) -> (r: usize)
        ensures
            counts(r, self.answers()),
    {
        answers_len(&self.cache)
    }
}

/// There are never more answers than are kept.
pub proof fn law_cache_is_bounded(
    h: Map<Seq<char>, Answer>,
    host: Seq<char>,
    ips: Seq<u32>,
    ttl: u32,
    now_ms: u64,
)
    requires
        h.dom().finite(),
        h.dom().len() <= CACHE_SOFT_CAP,
    ensures
        after_put(h, host, ips, ttl, now_ms).dom().finite(),
        after_put(h, host, ips, ttl, now_ms).dom().len() <= CACHE_SOFT_CAP,
{
    let l = living(h, now_ms);
    assert(l.dom().subset_of(h.dom()));
    vstd::set_lib::lemma_len_subset(l.dom(), h.dom());
}

/// An answer that is kept is found until its time is over, and not after it. No
/// other name is touched, unless its own answer no longer counts.
pub proof fn law_answers_are_found(
    h: Map<Seq<char>, Answer>,
    host: Seq<char>,
    ips: Seq<u32>,
    ttl: u32,
    now_ms: u64,
    later_ms: u64,
    other: Seq<char>,
)
    requires
        h.dom().len() < CACHE_SOFT_CAP,
        now_ms <= later_ms,
    ensures
        known(after_put(h, host, ips, ttl, now_ms), host, later_ms) == if later_ms < now_ms
            + kept_sec(ttl) * 1000 {
            first_of(ips)
        } else {
            None
        },
        other != host ==> known(after_put(h, host, ips, ttl, now_ms), other, later_ms) == known(
            h,
            other,
            later_ms,
        ),
{
}

/// One question is asked at a time: while a name is asked for, nobody else asks for
/// it, and once that is over somebody can.
pub proof fn law_one_question(
    h: Map<Seq<char>, Answer>,
    asked: Set<Seq<char>>,
    host: Seq<char>,
    now_ms: u64,
    later_ms: u64,
)
    requires
        way(h, asked, host, now_ms) == Resolve::Lead,
        known(h, host, later_ms) is None,
    ensures
        way(h, asked.insert(host), host, later_ms) == Resolve::Follow,
        way(h, asked.insert(host).remove(host), host, later_ms) == Resolve::Lead,
{
}

/// An answer is kept for as long as it says, but not for less than two seconds nor for more
/// than ten minutes.
pub proof fn law_how_long_answers_are_kept(ttl: u32)
    ensures
        2 <= kept_sec(ttl) <= 600,
        2 <= ttl <= 600 ==> kept_sec(ttl) == ttl,
        ttl < 2 ==> kept_sec(ttl) == 2,
        ttl > 600 ==> kept_sec(ttl) == 600,
{
}

/// The first address of an answer is the one that counts.
pub proof fn law_first_address_counts(ip: u32, more: Seq<u32>)
    ensures
        first_of(seq![ip] + more) == Some(ip),
        first_of(Seq::<u32>::empty()) is None,
{
}

/// Where there is no more room, answers that have run out make way, and only these: an
/// answer that still holds is never lost, and a new one is taken in only where there is
/// room.
pub proof fn law_old_answers_make_way(
    h: Map<Seq<char>, Answer>,
    host: Seq<char>,
    ips: Seq<u32>,
    ttl: u32,
    now_ms: u64,
    other: Seq<char>,
)
    requires
        h.dom().finite(),
        other != host,
    ensures
        h.contains_key(other) && now_ms < h[other].1 ==> after_put(
            h,
            host,
            ips,
            ttl,
            now_ms,
        ).contains_key(other) && after_put(h, host, ips, ttl, now_ms)[other] == h[other],
        !h.contains_key(other) ==> !after_put(h, host, ips, ttl, now_ms).contains_key(other),
        h.contains_key(other) && now_ms >= h[other].1 && h.dom().len() >= 8192 ==> !after_put(
            h,
            host,
            ips,
            ttl,
            now_ms,
        ).contains_key(other),
        h.dom().len() < 8192 ==> after_put(h, host, ips, ttl, now_ms).contains_key(host),
        h.dom().len() >= 8192 && (forall|k: Seq<char>|
            h.contains_key(k) ==> now_ms < (#[trigger] h[k]).1) ==> after_put(
            h,
            host,
            ips,
            ttl,
            now_ms,
        ) == h,
{
    if forall|k: Seq<char>| h.contains_key(k) ==> now_ms < (#[trigger] h[k]).1 {
        assert(living(h, now_ms) =~= h);
    }
}

/// A host that is an address needs no question. For another, an answer that holds is used;
/// else it is asked for, by one who leads while others wait.
pub proof fn law_who_asks(
    h: Map<Seq<char>, Answer>,
    asked: Set<Seq<char>>,
    host: Seq<char>,
    now_ms: u64,
    ip: u32,
)
    ensures
        way(h, asked, addr::v4_text(ip), now_ms) == Resolve::Known(ip),
        addr::ipv4(host) is None ==> {
            let found = h.contains_key(host) && now_ms < h[host].1 && h[host].0 is Some;
            &&& found ==> way(h, asked, host, now_ms) == Resolve::Known(h[host].0->0)
            &&& !found && asked.contains(host) ==> way(h, asked, host, now_ms) == Resolve::Follow
            &&& !found && !asked.contains(host) ==> way(h, asked, host, now_ms) == Resolve::Lead
        },
{
    addr::law_v4_round_trip(ip, 0);
}

/// The server is the one that is set, else the first that the machine's own settings name,
/// else a public one; always on the usual port but where it is set.
#[verifier::rlimit(40)]
pub proof fn law_which_server(
    set: SocketAddr,
    conf: Option<Seq<char>>,
    ls: Seq<Seq<char>>,
    k: int,
    ip: u32,
    c: Seq<char>,
)
    requires
        0 <= k < ls.len(),
        forall|j: int| 0 <= j < k ==> !text::starts(text::trimmed(#[trigger] ls[j]), "nameserver"@),
        ls[k] == "nameserver "@ + addr::v4_text(ip),
        text::lines(c) == ls,
    ensures
        chosen_server(Some(set), conf) == set,
        chosen_server(None, Some(c)) == (SocketAddr { ip: IpAddr::V4(ip), port: 53, scope: 0 }),
        chosen_server(None, None) == (SocketAddr {
            ip: IpAddr::V4(0x0808_0808),
            port: 53,
            scope: 0,
        }),
{
    lemma_server_from(ls, 0, k);
    let a = addr::v4_text(ip);
    addr::law_v4_round_trip(ip, 0);
    addr::lemma_v4_plain(ip);
    let e = Seq::<char>::empty();
    reveal_strlit("nameserver");
    reveal_strlit("nameserver ");
    text::law_trimming(e, ls[k], e);
    assert(ls[k] =~= "nameserver"@ + (seq![' '] + a));
    text::lemma_after("nameserver"@, seq![' '] + a);
    text::lemma_space_first(' ', a);
    text::lemma_first_word(a, e);
    assert(a + e =~= a);
    assert(text::words(seq![' '] + a)[0] == a);
}

/// Lines that name no server are passed over.
proof fn lemma_server_from(ls: Seq<Seq<char>>, i: int, k: int)
    requires
        0 <= i <= k <= ls.len(),
        forall|j: int| i <= j < k ==> !text::starts(text::trimmed(#[trigger] ls[j]), "nameserver"@),
    ensures
        server_from(ls, i) == server_from(ls, k),
    decreases k - i,
{
    if i < k {
        assert(!text::starts(text::trimmed(ls[i]), "nameserver"@));
        lemma_server_from(ls, i + 1, k);
    }
}

} // verus!
