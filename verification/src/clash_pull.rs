//! The connections of clash, as its controller lists them.

use crate::addr;
use crate::addr::IpAddr;
use crate::bytes;
use crate::json;
use crate::json::{Json, Shape};
use crate::names::Names;
use crate::records;
use crate::records::{InboundKind, Transport};
use crate::runtime;
use crate::table::Table;
use crate::text;
use vstd::prelude::*;

verus! {

/// For how long a listing is kept fresh after it was asked for, in milliseconds.
pub const CONNS_DEMAND_WINDOW_MS: u64 = 30_000;

/// How often the traffic of the nodes is reported, in seconds.
pub const PPLOG_NODE_INTERVAL_SEC: u64 = 600;

/// The listing that stands for one that cannot be read.
pub const EMPTY_LISTING: &'static str = "{\"downloadTotal\":0,\"uploadTotal\":0,\"connections\":[]}";

/// A connection of clash.
pub struct ClashConn {
    pub id: String,
    pub chains: Vec<String>,
    pub upload: u64,
    pub download: u64,
    pub inbound_type: String,
    pub network: String,
    pub host: String,
    pub src_ip: Option<IpAddr>,
    pub src_port: u16,
    pub dst_ip: Option<IpAddr>,
    pub dst_port: u16,
}

/// A connection of clash, as values.
#[verifier::ext_equal]
pub struct ConnView {
    pub id: Seq<char>,
    pub chains: Seq<Seq<char>>,
    pub upload: u64,
    pub download: u64,
    pub inbound_type: Seq<char>,
    pub network: Seq<char>,
    pub host: Seq<char>,
    pub src_ip: Option<IpAddr>,
    pub src_port: u16,
    pub dst_ip: Option<IpAddr>,
    pub dst_port: u16,
}

impl View for ClashConn {
    type V = ConnView;

    open spec fn view(&self) -> ConnView {
        ConnView {
            id: self.id@,
            chains: text::strings(self.chains@),
            upload: self.upload,
            download: self.download,
            inbound_type: self.inbound_type@,
            network: self.network@,
            host: self.host@,
            src_ip: self.src_ip,
            src_port: self.src_port,
            dst_ip: self.dst_ip,
            dst_port: self.dst_port,
        }
    }
}

/// Connections, as values.
pub open spec fn views(v: Seq<ClashConn>) -> Seq<ConnView> {
    Seq::new(v.len(), |i: int| v[i]@)
}

impl ConnView {
    /// The node that carries the connection: the first of its chain.
    pub open spec fn endpoint(self) -> Seq<char> {
        if self.chains.len() > 0 {
            self.chains[0]
        } else {
            Seq::empty()
        }
    }
}

impl ClashConn {
    /// The node that carries the connection: the first of its chain.
    pub fn endpoint(&self) -> (r: &str)
        ensures
            r@ == self@.endpoint(),
    {
        if self.chains.len() > 0 {
            assert(self@.chains[0] == self.chains@[0]@);
            self.chains[0].as_str()
        } else {
            proof {
                reveal_strlit("");
                assert(""@ =~= Seq::<char>::empty());
            }
            ""
        }
    }
}

/// A text that may be missing; the empty one where it is.
pub open spec fn or_empty(s: Option<Seq<char>>) -> Seq<char> {
    match s {
        Some(t) => t,
        None => Seq::empty(),
    }
}

/// The texts among the first `n` items.
pub open spec fn texts_among(a: Seq<Shape>, n: int) -> Seq<Seq<char>>
    decreases n,
{
    if n <= 0 {
        Seq::empty()
    } else {
        match json::words(a[n - 1]) {
            Some(s) => texts_among(a, n - 1).push(s),
            None => texts_among(a, n - 1),
        }
    }
}

/// The text under a name in the description of a connection.
pub open spec fn meta_text(c: Shape, k: Seq<char>) -> Seq<char> {
    match json::field(c, "metadata"@) {
        Some(m) => or_empty(json::words_at(m, k)),
        None => Seq::empty(),
    }
}

/// The port that a text writes; zero where it writes none.
pub open spec fn port_of(s: Seq<char>) -> u16 {
    match text::number(s, 10, 65535) {
        Some(n) => n as u16,
        None => 0,
    }
}

/// A whole number that may be missing; zero where it is.
pub open spec fn or_zero(n: Option<u64>) -> u64 {
    match n {
        Some(x) => x,
        None => 0,
    }
}

/// The connection that an item of the listing describes.
pub open spec fn conn_of(c: Shape) -> ConnView {
    ConnView {
        id: or_empty(json::words_at(c, "id"@)),
        chains: match json::items_at(c, "chains"@) {
            Some(a) => texts_among(a, a.len() as int),
            None => Seq::empty(),
        },
        upload: or_zero(json::whole_at(c, "upload"@)),
        download: or_zero(json::whole_at(c, "download"@)),
        inbound_type: meta_text(c, "type"@),
        network: meta_text(c, "network"@),
        host: meta_text(c, "host"@),
        src_ip: addr::ip(meta_text(c, "sourceIP"@)),
        src_port: port_of(meta_text(c, "sourcePort"@)),
        dst_ip: addr::ip(meta_text(c, "destinationIP"@)),
        dst_port: port_of(meta_text(c, "destinationPort"@)),
    }
}

/// The connections that a listing describes.
pub open spec fn conns_of(v: Shape) -> Seq<ConnView> {
    match json::items_at(v, "connections"@) {
        Some(a) => Seq::new(a.len(), |i: int| conn_of(a[i])),
        None => Seq::empty(),
    }
}

/// The connections that a text describes.
pub open spec fn conns_in(s: Seq<char>) -> Seq<ConnView> {
    match json::json_value(s) {
        Some(v) => conns_of(v),
        None => Seq::empty(),
    }
}

/// A copy of a text that may be missing.
fn text_or_empty(s: Option<&str>) -> (r: String)
    ensures
        r@ == or_empty(text::opt_str(s)),
{
    match s {
        Some(t) => t.to_owned(),
        None => String::new(),
    }
}

/// The text under a name in the description of a connection.
fn meta(c: &Json, k: &str) -> (r: String)
    ensures
        r@ == meta_text(c@, k@),
{
    match c.get("metadata") {
        Some(m) => text_or_empty(m.str_at(k)),
        None => String::new(),
    }
}

/// The address that a text writes.
fn ip_in(s: &String) -> (r: Option<IpAddr>)
    ensures
        r == addr::ip(s@),
{
    IpAddr::parse(s.as_str())
}

/// The port that a text writes.
fn port_in(s: &String) -> (r: u16)
    ensures
        r == port_of(s@),
{
    let cs = text::chars_of(s.as_str());
    match text::parse_number(cs.as_slice(), 10, 65535) {
        Some(n) => n as u16,
        None => 0,
    }
}

/// The connection that an item of the listing describes.
fn parse_one(c: &Json) -> (r: ClashConn)
    ensures
        r@ == conn_of(c@),
{
    let mut chains: Vec<String> = Vec::new();
    match c.list_at("chains") {
        Some(a) => {
            let ghost all = json::shapes(a@);
            proof {
                json::lemma_shapes(a@);
            }
            let mut i: usize = 0;
            assert(text::strings(chains@) =~= texts_among(all, 0));
            while i < a.len()
                invariant
                    i <= a@.len(),
                    all.len() == a@.len(),
                    forall|j: int| 0 <= j < a@.len() ==> #[trigger] all[j] == json::shape(a@[j]),
                    text::strings(chains@) == texts_among(all, i as int),
                decreases a@.len() - i,
            {
                let ghost before = text::strings(chains@);
                assert(all[i as int] == json::shape(a@[i as int]));
                match &a[i] {
                    Json::Text(s) => {
                        chains.push(s.clone());
                        assert(text::strings(chains@) =~= before.push(s@));
                    },
                    _ => {},
                }
                i = i + 1;
            }
        },
        None => {},
    }
    let ghost want = conn_of(c@).chains;
    assert(text::strings(chains@) =~= want);
    let src_ip = meta(c, "sourceIP");
    let src_port = meta(c, "sourcePort");
    let dst_ip = meta(c, "destinationIP");
    let dst_port = meta(c, "destinationPort");
    ClashConn {
        id: text_or_empty(c.str_at("id")),
        chains,
        upload: match c.u64_at("upload") {
            Some(n) => n,
            None => 0,
        },
        download: match c.u64_at("download") {
            Some(n) => n,
            None => 0,
        },
        inbound_type: meta(c, "type"),
        network: meta(c, "network"),
        host: meta(c, "host"),
        src_ip: ip_in(&src_ip),
        src_port: port_in(&src_port),
        dst_ip: ip_in(&dst_ip),
        dst_port: port_in(&dst_port),
    }
}

/// The connections that a listing describes.
pub fn connections(v: &Json) -> (r: Vec<ClashConn>)
    ensures
        views(r@) == conns_of(v@),
{
    let mut out: Vec<ClashConn> = Vec::new();
    match v.list_at("connections") {
        Some(a) => {
            let ghost all = json::shapes(a@);
            proof {
                json::lemma_shapes(a@);
            }
            let mut i: usize = 0;
            while i < a.len()
                invariant
                    i <= a@.len(),
                    all.len() == a@.len(),
                    forall|j: int| 0 <= j < a@.len() ==> #[trigger] all[j] == json::shape(a@[j]),
                    out@.len() == i,
                    forall|j: int| 0 <= j < i ==> (#[trigger] out@[j])@ == conn_of(all[j]),
                decreases a@.len() - i,
            {
                out.push(parse_one(&a[i]));
                i = i + 1;
            }
            assert(views(out@) =~= conns_of(v@));
        },
        None => {
            assert(views(out@) =~= conns_of(v@));
        },
    }
    out
}

/// The connections that a text describes; none where it cannot be read.
pub fn parse_connections(json: &str) -> (r: Vec<ClashConn>)
    ensures
        views(r@) == conns_in(json@),
{
    match json::parse(json) {
        Some(v) => connections(&v),
        None => {
            let out: Vec<ClashConn> = Vec::new();
            assert(views(out@) =~= Seq::<ConnView>::empty());
            out
        },
    }
}

/// Whether a listing was asked for recently enough to be kept fresh; zero stands
/// for never.
pub fn in_demand_window(last: u64, now: u64) -> (r: bool)
    ensures
        r == (last != 0 && now - last <= CONNS_DEMAND_WINDOW_MS),
{
    last != 0 && now.saturating_sub(last) <= CONNS_DEMAND_WINDOW_MS
}

/// What a connection carried since it was last seen. A counter that fell counts
/// as nothing.
pub open spec fn grown(now: u64, then: u64) -> u64 {
    if now >= then {
        (now - then) as u64
    } else {
        0
    }
}

/// The counters of a connection when it was last seen; zeros for a new one.
pub open spec fn counters(last: Map<Seq<char>, (u64, u64)>, id: Seq<char>) -> (u64, u64) {
    if last.contains_key(id) {
        last[id]
    } else {
        (0, 0)
    }
}

/// The counters after the first `n` connections.
pub open spec fn counted(
    last: Map<Seq<char>, (u64, u64)>,
    conns: Seq<ConnView>,
    n: int,
) -> Map<Seq<char>, (u64, u64)>
    decreases n,
{
    if n <= 0 {
        last
    } else {
        counted(last, conns, n - 1).insert(conns[n - 1].id, (conns[n - 1].upload, conns[n - 1].download))
    }
}

/// What a connection adds to the traffic of its node.
pub open spec fn share(last: Map<Seq<char>, (u64, u64)>, conns: Seq<ConnView>, i: int) -> (
    Seq<char>,
    u64,
    u64,
) {
    let c = conns[i];
    let then = counters(counted(last, conns, i), c.id);
    (c.endpoint(), grown(c.upload, then.0), grown(c.download, then.1))
}

/// Shares of traffic, as values.
pub open spec fn shares(v: Seq<(String, u64, u64)>) -> Seq<(Seq<char>, u64, u64)> {
    Seq::new(v.len(), |i: int| (v[i].0@, v[i].1, v[i].2))
}

/// Counts what each connection carried since it was last seen, for its node, and
/// remembers the counters of these connections alone.
pub fn accumulate(last: &mut Table<(u64, u64)>, conns: &[ClashConn]) -> (r: Vec<(String, u64, u64)>)
    requires
        old(last).wf(),
    ensures
        final(last).wf(),
        final(last)@ == counted(Map::empty(), views(conns@), conns@.len() as int),
        shares(r@) == Seq::new(conns@.len(), |i: int| share(old(last)@, views(conns@), i)),
{
    let ghost first = last@;
    let ghost cs = views(conns@);
    let mut fresh: Table<(u64, u64)> = Table::new();
    let mut out: Vec<(String, u64, u64)> = Vec::new();
    let mut i: usize = 0;
    while i < conns.len()
        invariant
            i <= conns@.len(),
            cs == views(conns@),
            last.wf(),
            fresh.wf(),
            last@ == counted(first, cs, i as int),
            fresh@ == counted(Map::empty(), cs, i as int),
            out@.len() == i,
            forall|j: int|
                0 <= j < i ==> ((#[trigger] out@[j]).0@, out@[j].1, out@[j].2) == share(first, cs, j),
        decreases conns@.len() - i,
    {
        let c = &conns[i];
        assert(cs[i as int] == c@);
        let (pu, pd) = match last.get(c.id.as_str()) {
            Some(p) => *p,
            None => (0, 0),
        };
        out.push((c.endpoint().to_owned(), c.upload.saturating_sub(pu), c.download.saturating_sub(pd)));
        last.insert(c.id.clone(), (c.upload, c.download));
        fresh.insert(c.id.clone(), (c.upload, c.download));
        i = i + 1;
    }
    *last = fresh;
    assert(shares(out@) =~= Seq::new(conns@.len(), |i: int| share(first, views(conns@), i)));
    out
}

/// The counters of a connection that is not among the first `n` are those of before,
/// and those of one that is among them, once, are its own.
proof fn lemma_counted(
    last: Map<Seq<char>, (u64, u64)>,
    conns: Seq<ConnView>,
    id: Seq<char>,
    n: int,
)
    requires
        0 <= n <= conns.len(),
        forall|i: int, j: int|
            0 <= i < conns.len() && 0 <= j < conns.len() && (#[trigger] conns[i]).id == (
            #[trigger] conns[j]).id ==> i == j,
    ensures
        (forall|i: int| 0 <= i < n ==> (#[trigger] conns[i]).id != id) ==> counters(
            counted(last, conns, n),
            id,
        ) == counters(last, id),
        forall|i: int|
            0 <= i < n && (#[trigger] conns[i]).id == id ==> counters(counted(last, conns, n), id)
                == (conns[i].upload, conns[i].download),
    decreases n,
{
    if n > 0 {
        lemma_counted(last, conns, id, n - 1);
    }
}

/// Every byte counts once: what a connection carried by one look and by the next adds
/// up to what its counters grew by from before the first of them, as long as they
/// grow and no two connections have one name.
pub proof fn law_every_byte_once(
    last: Map<Seq<char>, (u64, u64)>,
    a: Seq<ConnView>,
    b: Seq<ConnView>,
    i: int,
    j: int,
)
    requires
        0 <= i < a.len(),
        0 <= j < b.len(),
        a[i].id == b[j].id,
        forall|x: int, y: int|
            0 <= x < a.len() && 0 <= y < a.len() && (#[trigger] a[x]).id == (#[trigger] a[y]).id
                ==> x == y,
        forall|x: int, y: int|
            0 <= x < b.len() && 0 <= y < b.len() && (#[trigger] b[x]).id == (#[trigger] b[y]).id
                ==> x == y,
        counters(last, a[i].id).0 <= a[i].upload <= b[j].upload,
        counters(last, a[i].id).1 <= a[i].download <= b[j].download,
    ensures
        ({
            let then = counters(last, a[i].id);
            let one = share(last, a, i);
            let two = share(counted(Map::empty(), a, a.len() as int), b, j);
            &&& one.1 + two.1 == b[j].upload - then.0
            &&& one.2 + two.2 == b[j].download - then.1
        }),
{
    let id = a[i].id;
    lemma_counted(last, a, id, i);
    lemma_counted(Map::empty(), a, id, a.len() as int);
    lemma_counted(counted(Map::empty(), a, a.len() as int), b, id, j);
}

/// The inbounds of clash that the gateway serves itself or that are its own.
pub const SKIPPED: [&'static str; 8] = [
    "https",
    "http",
    "redir",
    "socks4",
    "socks5",
    "tproxy",
    "tun",
    "inner",
];

/// The listeners of clash with a label of their own.
pub const KNOWN: [&'static str; 12] = [
    "anytls",
    "hysteria2",
    "mieru",
    "shadowsocks",
    "snell",
    "sudoku",
    "trojan",
    "trusttunnel",
    "tuic",
    "tunnel",
    "vless",
    "vmess",
];

/// Whether an inbound is one that is left out, from a place in the list on.
pub open spec fn skipped_from(t: Seq<char>, i: int) -> bool
    decreases 8 - i,
{
    if i < 0 || i >= 8 {
        false
    } else {
        text::same_nocase(t, SKIPPED@[i]@) || skipped_from(t, i + 1)
    }
}

/// The label of a listener, from a place in the list on.
pub open spec fn known_from(t: Seq<char>, i: int) -> Seq<char>
    decreases 12 - i,
{
    if i < 0 || i >= 12 {
        "clash"@
    } else if text::same_nocase(t, KNOWN@[i]@) {
        KNOWN@[i]@
    } else {
        known_from(t, i + 1)
    }
}

/// The label of an inbound; `None` for one that is left out.
pub open spec fn label_of(t: Seq<char>) -> Option<Seq<char>> {
    if t.len() == 0 || skipped_from(t, 0) {
        None
    } else {
        Some(known_from(t, 0))
    }
}

/// The label of an inbound; `None` for one that is left out. A listener that is
/// not known is labelled with the name of clash.
pub fn clash_inbound_label(t: &str) -> (r: Option<&'static str>)
    ensures
        text::opt_str(r) == label_of(t@),
{
    let cs = text::chars_of(t);
    if cs.len() == 0 {
        return None;
    }
    let mut i: usize = 0;
    while i < 8
        invariant
            i <= 8,
            cs@ == t@,
            t@.len() > 0,
            skipped_from(t@, 0) == skipped_from(t@, i as int),
        decreases 8 - i,
    {
        if text::eq_nocase(cs.as_slice(), SKIPPED[i]) {
            return None;
        }
        i = i + 1;
    }
    let mut i: usize = 0;
    while i < 12
        invariant
            i <= 12,
            cs@ == t@,
            label_of(t@) == Some(known_from(t@, i as int)),
        decreases 12 - i,
    {
        if text::eq_nocase(cs.as_slice(), KNOWN[i]) {
            return Some(KNOWN[i]);
        }
        i = i + 1;
    }
    Some("clash")
}

/// Whether a character is a letter or a digit of ASCII.
pub open spec fn is_alnum(c: char) -> bool {
    ('0' <= c && c <= '9') || ('A' <= c && c <= 'Z') || ('a' <= c && c <= 'z')
}

/// The letters and digits of ASCII.
pub open spec fn alnums() -> spec_fn(char) -> bool {
    |c: char| is_alnum(c)
}

/// Whether a character is a letter or a digit of ASCII.
fn alnum(c: char) -> (r: bool)
    ensures
        r == is_alnum(c),
{
    ('0' <= c && c <= '9') || ('A' <= c && c <= 'Z') || ('a' <= c && c <= 'z')
}

/// Whether a place in a text names a type: the key `type:`, not at the end of a
/// longer key, and a word of letters and digits after it.
pub open spec fn names_type(s: Seq<char>, p: int, v: Seq<char>) -> bool {
    &&& 0 <= p <= s.len()
    &&& p == 0 || !(is_alnum(s[p - 1]) || s[p - 1] == '-')
    &&& match text::after(s.subrange(p, s.len() as int), "type:"@) {
        Some(rest) => {
            let t = text::trim_start_of(rest, text::spaces());
            v.len() > 0 && v == text::lowered(t.subrange(0, text::lead(t, alnums())))
        },
        None => false,
    }
}

/// The types that a text names.
pub open spec fn types_in(s: Seq<char>) -> Set<Seq<char>> {
    Set::new(|v: Seq<char>| exists|p: int| names_type(s, p, v))
}

/// The word of letters and digits at the start of a text, in small letters.
fn word_at(cs: &[char]) -> (r: Vec<char>)
    ensures
        r@ == text::lowered(cs@.subrange(0, text::lead(cs@, alnums()))),
{
    let mut i: usize = 0;
    while i < cs.len() && alnum(cs[i])
        invariant
            i <= cs@.len(),
            forall|j: int| 0 <= j < i ==> is_alnum(#[trigger] cs@[j]),
        decreases cs@.len() - i,
    {
        i = i + 1;
    }
    proof {
        text::lemma_lead(cs@, alnums(), i as int);
    }
    text::to_lower(vstd::slice::slice_subrange(cs, 0, i))
}

/// Adds the types that a text names.
pub fn collect_types(s: &[char], out: &mut Names)
    requires
        old(out).wf(),
    ensures
        final(out).wf(),
        final(out)@ == old(out)@.union(types_in(s@)),
{
    let ghost first = out@;
    let n: usize = s.len();
    let mut p: usize = 0;
    let mut more = true;
    let ghost mut done: int = 0;
    assert(out@ =~= first.union(
        Set::new(|v: Seq<char>| exists|q: int| 0 <= q < 0 && names_type(s@, q, v)),
    ));
    while more
        invariant
            n == s@.len(),
            p <= n,
            out.wf(),
            0 <= done <= n + 1,
            more ==> done == p,
            !more ==> done == n + 1,
            forall|v: Seq<char>|
                #[trigger] out@.contains(v) <==> (first.contains(v) || exists|q: int|
                    0 <= q < done && #[trigger] names_type(s@, q, v)),
        decreases n + 1 - done,
    {
        let ghost before = out@;
        let rest = vstd::slice::slice_subrange(s, p, n);
        let bound = p == 0 || !(alnum(s[p - 1]) || s[p - 1] == '-');
        let ghost mut found: Option<Seq<char>> = None;
        if bound {
            match text::strip_prefix(rest, "type:") {
                Some(tail) => {
                    let word = word_at(text::trim_start(tail));
                    if word.len() > 0 {
                        proof {
                            found = Some(word@);
                        }
                        out.insert(text::str_of(word.as_slice()));
                    }
                },
                None => {},
            }
        }
        proof {
            assert forall|v: Seq<char>| names_type(s@, p as int, v) <==> found == Some(v) by {}
            assert forall|v: Seq<char>| #[trigger] out@.contains(v) <==> (first.contains(v)
                || exists|q: int| 0 <= q < p + 1 && #[trigger] names_type(s@, q, v)) by {
                if out@.contains(v) && !before.contains(v) {
                    assert(names_type(s@, p as int, v));
                }
                if exists|q: int| 0 <= q < p + 1 && #[trigger] names_type(s@, q, v) {
                    let q = choose|q: int| 0 <= q < p + 1 && #[trigger] names_type(s@, q, v);
                    if q < p {
                        assert(before.contains(v));
                    }
                }
            }
            done = p + 1;
        }
        if p == n {
            more = false;
        } else {
            p = p + 1;
        }
    }
    assert(out@ =~= first.union(types_in(s@))) by {
        assert forall|v: Seq<char>| types_in(s@).contains(v) implies out@.contains(v) by {
            let q = choose|q: int| names_type(s@, q, v);
            assert(0 <= q < done);
        }
    }
}

/// Whether a line stands at the top level: it is not blank and not indented.
pub open spec fn is_top(line: Seq<char>) -> bool {
    &&& text::trimmed(line).len() > 0
    &&& !(line.len() > 0 && (line[0] == ' ' || line[0] == '\t'))
}

/// What stands before a comment, without the spaces around it.
pub open spec fn before_comment(s: Seq<char>) -> Seq<char> {
    text::trimmed(
        match text::cut(s, '#') {
            Some((head, _)) => head,
            None => s,
        },
    )
}

/// The types found so far, and whether the block of listeners is open.
pub struct TypesState {
    pub types: Set<Seq<char>>,
    pub open: bool,
}

/// What a line adds.
pub open spec fn types_step(st: TypesState, line: Seq<char>) -> TypesState {
    if is_top(line) {
        match text::after(line, "listeners:"@) {
            Some(rest) => {
                let value = before_comment(rest);
                if value.len() == 0 {
                    TypesState { types: st.types, open: true }
                } else {
                    TypesState { types: st.types.union(types_in(value)), open: false }
                }
            },
            None => TypesState { types: st.types, open: false },
        }
    } else if st.open {
        TypesState { types: st.types.union(types_in(line)), open: true }
    } else {
        st
    }
}

/// What is known after the first `n` lines.
pub open spec fn types_run(ls: Seq<Seq<char>>, n: int) -> TypesState
    decreases n,
{
    if n <= 0 {
        TypesState { types: Set::empty(), open: false }
    } else {
        types_step(types_run(ls, n - 1), ls[n - 1])
    }
}

/// The types of the listeners that a configuration of clash declares.
pub open spec fn listener_types(yaml: Seq<char>) -> Set<Seq<char>> {
    let ls = text::lines(yaml);
    types_run(ls, ls.len() as int).types
}

/// The types of the listeners that a configuration of clash declares.
pub fn config_listener_types(yaml: &str) -> (r: Names)
    ensures
        r.wf(),
        r@ == listener_types(yaml@),
{
    let cs = text::chars_of(yaml);
    let ls = text::lines_of(cs.as_slice());
    let ghost all = text::lines(yaml@);
    let mut types = Names::new();
    let mut open = false;
    let mut i: usize = 0;
    while i < ls.len()
        invariant
            i <= ls@.len(),
            all == text::texts(ls@),
            types.wf(),
            types@ == types_run(all, i as int).types,
            open == types_run(all, i as int).open,
        decreases ls@.len() - i,
    {
        let line = ls[i];
        assert(all[i as int] == line@);
        let indented = line.len() > 0 && (line[0] == ' ' || line[0] == '\t');
        if !indented && text::trim(line).len() > 0 {
            match text::strip_prefix(line, "listeners:") {
                Some(rest) => {
                    let head = match text::split_once(rest, '#') {
                        Some((head, _)) => head,
                        None => rest,
                    };
                    let value = text::trim(head);
                    if value.len() == 0 {
                        open = true;
                    } else {
                        collect_types(value, &mut types);
                        open = false;
                    }
                },
                None => {
                    open = false;
                },
            }
        } else if open {
            collect_types(line, &mut types);
        }
        i = i + 1;
    }
    types
}

/// Remembers which listeners the configuration of clash declares, for as long as
/// its file stays the same.
pub struct ListenersGate {
    mtime: Option<u128>,
    checked: bool,
    types: Names,
}

impl ListenersGate {
    /// When the file was last changed, as far as is known.
    pub closed spec fn seen(&self) -> Option<u128> {
        self.mtime
    }

    /// Whether the file was ever looked at.
    pub closed spec fn looked(&self) -> bool {
        self.checked
    }

    /// The types of the listeners.
    pub closed spec fn known(&self) -> Set<Seq<char>> {
        self.types@
    }

    /// The types are kept in order.
    pub closed spec fn wf(&self) -> bool {
        self.types.wf()
    }

    /// Nothing was looked at yet.
    pub fn new() -> (r: ListenersGate)
        ensures
            r.wf(),
            !r.looked(),
            r.seen() is None,
            r.known() == Set::<Seq<char>>::empty(),
    {
        ListenersGate { mtime: None, checked: false, types: Names::new() }
    }

    /// Whether the file must be read: it was never looked at, or it changed.
    pub fn stale(&self, mtime: Option<u128>) -> (r: bool)
        ensures
            r == (!self.looked() || mtime != self.seen()),
    {
        if !self.checked {
            return true;
        }
        match (mtime, self.mtime) {
            (Some(a), Some(b)) => a != b,
            (None, None) => false,
            _ => true,
        }
    }

    /// Takes in when the file was changed and what it holds: without a file there
    /// are no listeners, and a file that cannot be read holds nothing. Tells
    /// whether the listeners changed.
    pub fn refresh(&mut self, mtime: Option<u128>, yaml: Option<&str>) -> (r: bool)
        requires
            old(self).wf(),
        ensures
            final(self).wf(),
            final(self).looked(),
            final(self).seen() == mtime,
            final(self).known() == match (mtime, yaml) {
                (Some(_), Some(y)) => listener_types(y@),
                (Some(_), None) => listener_types(""@),
                (None, _) => Set::<Seq<char>>::empty(),
            },
            r == (final(self).known() != old(self).known()),
    {
        self.checked = true;
        self.mtime = mtime;
        let types = match (mtime, yaml) {
            (Some(_), Some(y)) => config_listener_types(y),
            (Some(_), None) => config_listener_types(""),
            (None, _) => Names::new(),
        };
        if types.same(&self.types) {
            false
        } else {
            self.types = types;
            true
        }
    }

    /// The types of the listeners.
    pub fn types(&self) -> (r: &Names)
        ensures
            r@ == self.known(),
    {
        &self.types
    }
}

/// A connection that came in at a listener of clash, as the gateway records it.
pub struct MirrorRec {
    pub label: &'static str,
    pub transport: Transport,
    pub domain: Option<String>,
    pub src: (IpAddr, u16),
    pub dst: (IpAddr, u16),
}

/// Such a record, as values.
#[verifier::ext_equal]
pub struct RecView {
    pub label: Seq<char>,
    pub transport: Transport,
    pub domain: Option<Seq<char>>,
    pub src: (IpAddr, u16),
    pub dst: (IpAddr, u16),
}

impl View for MirrorRec {
    type V = RecView;

    open spec fn view(&self) -> RecView {
        RecView {
            label: self.label@,
            transport: self.transport,
            domain: text::opt_string(self.domain),
            src: self.src,
            dst: self.dst,
        }
    }
}

/// The record of a connection that came in from elsewhere at a listener that the
/// configuration declares; `None` for any other.
pub open spec fn mirrored(c: ConnView, active: Set<Seq<char>>) -> Option<RecView> {
    match (label_of(c.inbound_type), c.src_ip) {
        (Some(label), Some(src)) => if active.contains(text::lowered(c.inbound_type))
            && !runtime::is_loopback(src) {
            Some(
                RecView {
                    label,
                    transport: if text::same_nocase(c.network, "udp"@) {
                        Transport::Udp
                    } else {
                        Transport::Tcp
                    },
                    domain: if c.host.len() > 0 {
                        Some(c.host)
                    } else {
                        None
                    },
                    src: (src, c.src_port),
                    dst: (
                        match c.dst_ip {
                            Some(d) => d,
                            None => IpAddr::V4(0),
                        },
                        c.dst_port,
                    ),
                },
            )
        } else {
            None
        },
        _ => None,
    }
}

/// The record of a connection that came in from elsewhere at a listener that the
/// configuration declares.
pub fn mirror_rec(c: &ClashConn, active: &Names) -> (r: Option<MirrorRec>)
    ensures
        match r {
            Some(rec) => mirrored(c@, active@) == Some(rec@),
            None => mirrored(c@, active@) is None,
        },
{
    let label = match clash_inbound_label(c.inbound_type.as_str()) {
        Some(l) => l,
        None => return None,
    };
    let t = text::chars_of(c.inbound_type.as_str());
    let low = text::str_of(text::to_lower(t.as_slice()).as_slice());
    if !active.contains(low.as_str()) {
        return None;
    }
    let src = match c.src_ip {
        Some(s) => s,
        None => return None,
    };
    if runtime::loopback(src) {
        return None;
    }
    let network = text::chars_of(c.network.as_str());
    let host = text::chars_of(c.host.as_str());
    Some(
        MirrorRec {
            label,
            transport: if text::eq_nocase(network.as_slice(), "udp") {
                Transport::Udp
            } else {
                Transport::Tcp
            },
            domain: if host.len() > 0 {
                Some(c.host.clone())
            } else {
                None
            },
            src: (src, c.src_port),
            dst: (
                match c.dst_ip {
                    Some(d) => d,
                    None => IpAddr::V4(0),
                },
                c.dst_port,
            ),
        },
    )
}

/// What is done to keep the records in step with the listing.
pub enum MirrorAct {
    /// A record is opened for the connection at a place in the listing.
    Open(usize, MirrorRec),
    /// The record of the connection at a place in the listing is kept.
    Keep(usize),
    /// The record of a connection is closed.
    Close(String),
}

/// What is done, as values.
pub enum ActView {
    Open(int, RecView),
    Keep(int),
    Close(Seq<char>),
}

/// What is done, as a value.
pub open spec fn act_view(a: MirrorAct) -> ActView {
    match a {
        MirrorAct::Open(i, rec) => ActView::Open(i as int, rec@),
        MirrorAct::Keep(i) => ActView::Keep(i as int),
        MirrorAct::Close(id) => ActView::Close(id@),
    }
}

/// What is done, as values.
pub open spec fn acts(v: Seq<MirrorAct>) -> Seq<ActView> {
    Seq::new(v.len(), |i: int| act_view(v[i]))
}

/// The connections among the first `n` that have a record.
pub open spec fn seen_ids(conns: Seq<ConnView>, active: Set<Seq<char>>, n: int) -> Set<Seq<char>>
    decreases n,
{
    if n <= 0 {
        Set::empty()
    } else if mirrored(conns[n - 1], active) is Some {
        seen_ids(conns, active, n - 1).insert(conns[n - 1].id)
    } else {
        seen_ids(conns, active, n - 1)
    }
}

/// What is done for the first `n` connections.
pub open spec fn open_acts(
    conns: Seq<ConnView>,
    active: Set<Seq<char>>,
    held: Set<Seq<char>>,
    n: int,
) -> Seq<ActView>
    decreases n,
{
    if n <= 0 {
        Seq::empty()
    } else {
        let before = open_acts(conns, active, held, n - 1);
        let c = conns[n - 1];
        match mirrored(c, active) {
            Some(rec) => if held.contains(c.id) || seen_ids(conns, active, n - 1).contains(c.id) {
                before.push(ActView::Keep(n - 1))
            } else {
                before.push(ActView::Open(n - 1, rec))
            },
            None => before,
        }
    }
}

/// The records among the first `n` that are closed.
pub open spec fn close_acts(held: Seq<Seq<char>>, seen: Set<Seq<char>>, n: int) -> Seq<ActView>
    decreases n,
{
    if n <= 0 {
        Seq::empty()
    } else if seen.contains(held[n - 1]) {
        close_acts(held, seen, n - 1)
    } else {
        close_acts(held, seen, n - 1).push(ActView::Close(held[n - 1]))
    }
}

/// Keeps the records in step with the listing: one for each connection that came
/// in from elsewhere at a declared listener, and none for a connection that the
/// listing no longer holds.
pub fn mirror_direct_inbounds(mirror: &mut Names, conns: &[ClashConn], active: &Names) -> (r: Vec<
    MirrorAct,
>)
    requires
        old(mirror).wf(),
    ensures
        final(mirror).wf(),
        final(mirror)@ == seen_ids(views(conns@), active@, conns@.len() as int),
        acts(r@) == open_acts(views(conns@), active@, old(mirror)@, conns@.len() as int)
            + close_acts(
            old(mirror).order(),
            seen_ids(views(conns@), active@, conns@.len() as int),
            old(mirror).order().len() as int,
        ),
{
    let ghost cs = views(conns@);
    let ghost held = mirror@;
    let ghost order = mirror.order();
    let mut seen = Names::new();
    let mut out: Vec<MirrorAct> = Vec::new();
    let mut i: usize = 0;
    assert(acts(out@) =~= open_acts(cs, active@, held, 0));
    while i < conns.len()
        invariant
            i <= conns@.len(),
            cs == views(conns@),
            mirror.wf(),
            mirror@ == held,
            mirror.order() == order,
            seen.wf(),
            seen@ == seen_ids(cs, active@, i as int),
            acts(out@) == open_acts(cs, active@, held, i as int),
        decreases conns@.len() - i,
    {
        let c = &conns[i];
        assert(cs[i as int] == c@);
        let ghost before = acts(out@);
        match mirror_rec(c, active) {
            Some(rec) => {
                let known = mirror.contains(c.id.as_str()) || seen.contains(c.id.as_str());
                if known {
                    out.push(MirrorAct::Keep(i));
                    assert(acts(out@) =~= before.push(ActView::Keep(i as int)));
                } else {
                    out.push(MirrorAct::Open(i, rec));
                    assert(acts(out@) =~= before.push(ActView::Open(i as int, rec@)));
                }
                seen.insert(c.id.clone());
            },
            None => {},
        }
        i = i + 1;
    }
    let ghost opened = acts(out@);
    let ghost gone = seen@;
    let ids = mirror.items();
    let mut j: usize = 0;
    assert(acts(out@) =~= opened + close_acts(order, gone, 0));
    while j < ids.len()
        invariant
            j <= ids@.len(),
            text::strings(ids@) == order,
            seen@ == gone,
            acts(out@) == opened + close_acts(order, gone, j as int),
        decreases ids@.len() - j,
    {
        let ghost before = acts(out@);
        assert(order[j as int] == ids@[j as int]@);
        if !seen.contains(ids[j].as_str()) {
            out.push(MirrorAct::Close(ids[j].clone()));
            assert(acts(out@) =~= before.push(ActView::Close(order[j as int])));
            assert(acts(out@) =~= opened + close_acts(order, gone, j + 1));
        }
        j = j + 1;
    }
    *mirror = seen;
    out
}

/// How the records are kept in step with a listing.
#[derive(Debug, Clone, Copy, PartialEq, Eq, Structural)]
pub enum MirrorMode {
    /// Nothing is done.
    Idle,
    /// With the connections of the listing.
    Follow,
    /// Every record is closed.
    Clear,
}

/// How the records are kept in step with a listing: where no listener is declared
/// any more, what was recorded is closed.
pub fn mirror_mode(no_listeners: bool, no_records: bool) -> (r: MirrorMode)
    ensures
        r == if !no_listeners {
            MirrorMode::Follow
        } else if !no_records {
            MirrorMode::Clear
        } else {
            MirrorMode::Idle
        },
{
    if !no_listeners {
        MirrorMode::Follow
    } else if !no_records {
        MirrorMode::Clear
    } else {
        MirrorMode::Idle
    }
}

/// Whether the traffic of the nodes is to be reported.
pub fn nodes_due(nodes_enabled: bool, reporting: bool, elapsed_sec: u64) -> (r: bool)
    ensures
        r == (nodes_enabled && reporting && elapsed_sec >= PPLOG_NODE_INTERVAL_SEC),
{
    nodes_enabled && reporting && elapsed_sec >= PPLOG_NODE_INTERVAL_SEC
}

/// The contents of a body that was sent in chunks.
pub fn dechunk_buffered(data: &[u8]) -> (r: Vec<u8>)
    ensures
        r@ == bytes::dechunked(data@, 0),
{
    bytes::dechunk(data)
}

/// The client behind a connection to the proxy.
#[derive(Debug, Clone, Copy)]
pub struct SocksSrc {
    pub ip: IpAddr,
    pub port: u16,
    pub inbound: InboundKind,
}

/// What a table of clients holds.
pub uninterp spec fn sources_held(m: dashmap::DashMap<u16, SocksSrc>) -> Map<u16, SocksSrc>;

/// The table that holds nothing.
pub open spec fn no_sources() -> Map<u16, SocksSrc> {
    Map::empty()
}

/// `DashMap::new` of the crate `dashmap` makes an empty table.
#[verifier::external_body]
fn sources_new() -> (r: dashmap::DashMap<u16, SocksSrc>)
    ensures
        sources_held(r) == no_sources(),
{
    dashmap::DashMap::new()
}

/// `DashMap::get` of the crate `dashmap` gives the value under a key; a copy of
/// it is handed on.
#[verifier::external_body]
fn sources_get(m: &dashmap::DashMap<u16, SocksSrc>, k: u16) -> (r: Option<SocksSrc>)
    ensures
        r == if sources_held(*m).contains_key(k) {
            Some(sources_held(*m)[k])
        } else {
            None::<SocksSrc>
        },
{
    m.get(&k).map(|e| *e.value())
}

/// `DashMap::insert` of the crate `dashmap` puts a value under a key, in the
/// place of the one that stood there.
#[verifier::external_body]
fn sources_put(m: &mut dashmap::DashMap<u16, SocksSrc>, k: u16, v: SocksSrc)
    ensures
        sources_held(*final(m)) == sources_held(*old(m)).insert(k, v),
{
    m.insert(k, v);
}

/// `DashMap::remove` of the crate `dashmap` takes the value under a key out.
#[verifier::external_body]
fn sources_drop(m: &mut dashmap::DashMap<u16, SocksSrc>, k: u16)
    ensures
        sources_held(*final(m)) == sources_held(*old(m)).remove(k),
{
    m.remove(&k);
}

/// The clients behind the connections to the proxy, under the port that the
/// gateway uses towards it.
pub struct SourceIndex {
    map: dashmap::DashMap<u16, SocksSrc>,
}

impl View for SourceIndex {
    type V = Map<u16, SocksSrc>;

    closed spec fn view(&self) -> Map<u16, SocksSrc> {
        sources_held(self.map)
    }
}

impl SourceIndex {
    /// No client is known.
    pub fn new() -> (r: SourceIndex)
        ensures
            r@ == no_sources(),
    {
        SourceIndex { map: sources_new() }
    }

    /// The client behind a port.
    pub fn get(&self, port: u16) -> (r: Option<SocksSrc>)
        ensures
            r == if self@.contains_key(port) {
                Some(self@[port])
            } else {
                None
            },
    {
        sources_get(&self.map, port)
    }

    /// Notes the client behind a port.
    pub fn insert(&mut self, port: u16, src: SocksSrc)
        ensures
            final(self)@ == old(self)@.insert(port, src),
    {
        sources_put(&mut self.map, port, src);
    }

    /// Forgets the client behind a port.
    pub fn remove(&mut self, port: u16)
        ensures
            final(self)@ == old(self)@.remove(port),
    {
        sources_drop(&mut self.map, port);
    }
}

/// What becomes of an item of the listing.
pub enum Fate {
    /// It stays as it is.
    Keep,
    /// It is left out.
    Drop,
    /// It is shown with the client behind it.
    Show(SocksSrc),
}

/// What becomes of an item of the listing: one that came from the machine itself
/// is shown with the client behind its port, and left out where there is none.
pub open spec fn fate(idx: Map<u16, SocksSrc>, c: Shape) -> Fate {
    match json::field(c, "metadata"@) {
        Some(m) => match (m, addr::ip(or_empty(json::words_at(m, "sourceIP"@)))) {
            (Shape::Object(_), Some(ip)) => if runtime::is_loopback(ip) {
                match json::words_at(m, "sourcePort"@) {
                    Some(p) => match text::number(p, 10, 65535) {
                        Some(n) => if idx.contains_key(n as u16) {
                            Fate::Show(idx[n as u16])
                        } else {
                            Fate::Drop
                        },
                        None => Fate::Drop,
                    },
                    None => Fate::Drop,
                }
            } else {
                Fate::Keep
            },
            _ => Fate::Keep,
        },
        None => Fate::Keep,
    }
}

/// The description of a connection with a client in it.
pub open spec fn with_client(m: Seq<(Seq<char>, Shape)>, src: SocksSrc) -> Seq<(Seq<char>, Shape)> {
    json::with_field(
        json::with_field(
            json::with_field(m, "sourceIP"@, Shape::Text(addr::ip_text(src.ip))),
            "sourcePort"@,
            Shape::Text(text::decimal(src.port as int)),
        ),
        "type"@,
        Shape::Text(records::inbound_text(src.inbound)),
    )
}

/// An item as it is shown; `None` for one that is left out.
pub open spec fn shown(idx: Map<u16, SocksSrc>, c: Shape) -> Option<Shape> {
    match fate(idx, c) {
        Fate::Keep => Some(c),
        Fate::Drop => None,
        Fate::Show(src) => match (c, json::field(c, "metadata"@)) {
            (Shape::Object(es), Some(Shape::Object(m))) => Some(
                Shape::Object(
                    json::with_field(es, "metadata"@, Shape::Object(with_client(m, src))),
                ),
            ),
            _ => None,
        },
    }
}

/// The first `n` items as they are shown, without those that are left out.
pub open spec fn shown_run(idx: Map<u16, SocksSrc>, a: Seq<Shape>, n: int) -> Seq<Shape>
    decreases n,
{
    if n <= 0 {
        Seq::empty()
    } else {
        match shown(idx, a[n - 1]) {
            Some(d) => shown_run(idx, a, n - 1).push(d),
            None => shown_run(idx, a, n - 1),
        }
    }
}

/// A listing in which the connections are those that are not left out, as they are shown,
/// and the rest is as it was.
pub open spec fn restored(idx: Map<u16, SocksSrc>, v: Shape) -> Shape {
    match (v, json::items_at(v, "connections"@)) {
        (Shape::Object(es), Some(a)) => Shape::Object(
            json::with_field(es, "connections"@, Shape::List(shown_run(idx, a, a.len() as int))),
        ),
        _ => v,
    }
}

/// An item that did not come from the machine itself is shown as it is.
pub proof fn law_others_are_shown(idx: Map<u16, SocksSrc>, c: Shape)
    requires
        addr::ip(meta_text(c, "sourceIP"@)) matches Some(ip) ==> !runtime::is_loopback(ip),
    ensures
        shown(idx, c) == Some(c),
{
}

/// What becomes of an item of the listing.
fn decide(index: &SourceIndex, c: &Json) -> (r: Fate)
    ensures
        r == fate(index@, c@),
{
    let m = match c.get("metadata") {
        Some(m) => m,
        None => return Fate::Keep,
    };
    match m {
        Json::Object(_) => {},
        _ => return Fate::Keep,
    }
    let ip = text_or_empty(m.str_at("sourceIP"));
    match IpAddr::parse(ip.as_str()) {
        Some(ip) => if !runtime::loopback(ip) {
            return Fate::Keep;
        },
        None => return Fate::Keep,
    }
    match m.str_at("sourcePort") {
        Some(p) => {
            let cs = text::chars_of(p);
            match text::parse_number(cs.as_slice(), 10, 65535) {
                Some(n) => match index.get(n as u16) {
                    Some(src) => Fate::Show(src),
                    None => Fate::Drop,
                },
                None => Fate::Drop,
            }
        },
        None => Fate::Drop,
    }
}

/// An item of the listing as it is shown; `None` for one that is left out.
pub fn restore_one(index: &SourceIndex, c: Json) -> (r: Option<Json>)
    ensures
        json::opt_view(r) == shown(index@, c@),
{
    let src = match decide(index, &c) {
        Fate::Keep => return Some(c),
        Fate::Drop => return None,
        Fate::Show(src) => src,
    };
    match c {
        Json::Object(es) => {
            let ghost before = json::entries(es@);
            let (m, rest) = json::take(es, "metadata");
            match m {
                Some(Json::Object(ms)) => {
                    let ghost was = json::entries(ms@);
                    let m1 = json::put(ms, "sourceIP", Json::Text(src.ip.text()));
                    let m2 = json::put(
                        m1,
                        "sourcePort",
                        Json::Text(text::decimal_of(src.port as u64)),
                    );
                    let m3 = json::put(
                        m2,
                        "type",
                        Json::Text(records::inbound_type_str(src.inbound).to_owned()),
                    );
                    assert(json::entries(m3@) == with_client(was, src));
                    let out = json::put(rest, "metadata", Json::Object(m3));
                    proof {
                        json::law_last_value_stays(
                            before,
                            "metadata"@,
                            Shape::Null,
                            Shape::Object(with_client(was, src)),
                        );
                    }
                    Some(Json::Object(out))
                },
                _ => None,
            }
        },
        _ => None,
    }
}

/// A listing with the clients behind the connections.
pub fn restore_value(index: &SourceIndex, v: Json) -> (r: Json)
    ensures
        r@ == restored(index@, v@),
{
    match v {
        Json::Object(es) => {
            if json::has_list(&es, "connections") {
                let ghost before = json::entries(es@);
                let (m, rest) = json::take(es, "connections");
                match m {
                    Some(Json::List(items)) => {
                        let ghost all = json::shapes(items@);
                        let b = restore_items(index, items);
                        let ghost kept = Shape::List(shown_run(index@, all, all.len() as int));
                        let out = json::put(rest, "connections", Json::List(b));
                        proof {
                            json::law_last_value_stays(
                                before,
                                "connections"@,
                                Shape::Null,
                                kept,
                            );
                        }
                        Json::Object(out)
                    },
                    _ => {
                        assert(false);
                        Json::Null
                    },
                }
            } else {
                Json::Object(es)
            }
        },
        other => other,
    }
}

/// The items of the listing that are not left out, as they are shown.
fn restore_items(index: &SourceIndex, items: Vec<Json>) -> (r: Vec<Json>)
    ensures
        json::shapes(r@) == shown_run(
            index@,
            json::shapes(items@),
            json::shapes(items@).len() as int,
        ),
{
    let ghost a = items@;
    let ghost all = json::shapes(a);
    proof {
        json::lemma_shapes(a);
    }
    let mut left = items;
    let mut back: Vec<Json> = Vec::new();
    while left.len() > 0
        invariant
            left@.len() + back@.len() == a.len(),
            forall|i: int| 0 <= i < left@.len() ==> left@[i] == a[i],
            forall|i: int| 0 <= i < back@.len() ==> #[trigger] back@[i] == a[a.len() - 1 - i],
        decreases left@.len(),
    {
        match left.pop() {
            Some(c) => {
                back.push(c);
            },
            None => {},
        }
    }
    let mut out: Vec<Json> = Vec::new();
    let ghost mut n: int = 0;
    while back.len() > 0
        invariant
            0 <= n <= a.len(),
            all.len() == a.len(),
            forall|i: int| 0 <= i < a.len() ==> #[trigger] all[i] == json::shape(a[i]),
            back@.len() == a.len() - n,
            forall|i: int| 0 <= i < back@.len() ==> #[trigger] back@[i] == a[a.len() - 1 - i],
            json::shapes(out@) == shown_run(index@, all, n),
        decreases back@.len(),
    {
        match back.pop() {
            Some(c) => {
                assert(c == a[n]);
                assert(all[n] == json::shape(a[n]));
                match restore_one(index, c) {
                    Some(d) => {
                        json::push(&mut out, d);
                    },
                    None => {},
                }
                proof {
                    n = n + 1;
                }
            },
            None => {},
        }
    }
    out
}

/// A listing with the clients behind the connections; an empty one where it
/// cannot be read.
pub fn restore_with_index(index: &SourceIndex, json: &str) -> (r: String)
    ensures
        match json::json_value(json@) {
            Some(v) => r@ == json::json_text(restored(index@, v)),
            None => r@ == EMPTY_LISTING@,
        },
{
    match json::parse(json) {
        Some(v) => {
            let w = restore_value(index, v);
            json::write(&w)
        },
        None => EMPTY_LISTING.to_owned(),
    }
}

/// A connection is listed with each of its values under a name of its own, and those that
/// are about its ends stand together under another.
pub proof fn law_how_a_connection_is_listed(
    c: Shape,
    m: Shape,
    words: Seq<char>,
    n: u64,
    ip: u32,
    port: u16,
)
    requires
        json::field(c, "metadata"@) == Some(m),
    ensures
        ({
            let r = conn_of(c);
            let number = Some(Shape::Number(text::decimal(n as int), Some(n)));
            let said = Some(Shape::Text(words));
            let address = Some(Shape::Text(addr::v4_text(ip)));
            let end = Some(Shape::Text(text::decimal(port as int)));
            &&& json::field(c, "id"@) == said ==> r.id == words
            &&& json::field(c, "upload"@) == number ==> r.upload == n
            &&& json::field(c, "download"@) == number ==> r.download == n
            &&& json::field(m, "type"@) == said ==> r.inbound_type == words
            &&& json::field(m, "network"@) == said ==> r.network == words
            &&& json::field(m, "host"@) == said ==> r.host == words
            &&& json::field(m, "sourceIP"@) == address ==> r.src_ip == Some(IpAddr::V4(ip))
            &&& json::field(m, "sourcePort"@) == end ==> r.src_port == port
            &&& json::field(m, "destinationIP"@) == address ==> r.dst_ip == Some(IpAddr::V4(ip))
            &&& json::field(m, "destinationPort"@) == end ==> r.dst_port == port
        }),
{
    addr::law_v4_round_trip(ip, port);
    text::law_number_round_trip(port as int, 65535);
}

/// The chain of a connection is made of the texts that are listed for it, in their order,
/// and the connection is counted for the first of them.
pub proof fn law_chains_are_kept_in_order(a: Seq<Shape>, s: Shape, words: Seq<char>)
    ensures
        texts_among(seq![], 0) == Seq::<Seq<char>>::empty(),
        texts_among(a.push(Shape::Text(words)), a.len() as int + 1) == texts_among(
            a,
            a.len() as int,
        ).push(words),
        !(s is Text) ==> texts_among(a.push(s), a.len() as int + 1) == texts_among(
            a,
            a.len() as int,
        ),
        forall|c: ConnView| c.chains.len() > 0 ==> #[trigger] c.endpoint() == c.chains[0],
        forall|c: ConnView| c.chains.len() == 0 ==> (#[trigger] c.endpoint()).len() == 0,
{
    lemma_texts_before(a, s, a.len() as int);
    lemma_texts_before(a, Shape::Text(words), a.len() as int);
}

/// The first texts of a list do not depend on what stands behind them.
proof fn lemma_texts_before(a: Seq<Shape>, s: Shape, n: int)
    requires
        0 <= n <= a.len(),
    ensures
        texts_among(a.push(s), n) == texts_among(a, n),
    decreases n,
{
    if n > 0 {
        lemma_texts_before(a, s, n - 1);
        assert(a.push(s)[n - 1] == a[n - 1]);
    }
}

/// Every connection of a listing is taken, in its order, and a text that is no listing has
/// none.
pub proof fn law_listed_connections(v: Shape, a: Seq<Shape>)
    ensures
        json::field(v, "connections"@) == Some(Shape::List(a)) ==> {
            &&& conns_of(v).len() == a.len()
            &&& forall|i: int| 0 <= i < a.len() ==> #[trigger] conns_of(v)[i] == conn_of(a[i])
        },
        json::field(v, "connections"@) is None ==> conns_of(v).len() == 0,
{
}

/// A connection that comes up once in a listing is counted for what it carried since it was
/// listed last, each way by itself, and for nothing where its counter went back.
pub proof fn law_only_what_is_new_counts(
    last: Map<Seq<char>, (u64, u64)>,
    conns: Seq<ConnView>,
    i: int,
)
    requires
        0 <= i < conns.len(),
        forall|j: int| 0 <= j < i ==> (#[trigger] conns[j]).id != conns[i].id,
    ensures
        ({
            let c = conns[i];
            let (name, up, down) = share(last, conns, i);
            &&& c.chains.len() > 0 ==> name == c.chains[0]
            &&& !last.contains_key(c.id) ==> up == c.upload && down == c.download
            &&& last.contains_key(c.id) ==> {
                let (was_up, was_down) = last[c.id];
                &&& up == if c.upload >= was_up {
                    c.upload - was_up
                } else {
                    0
                }
                &&& down == if c.download >= was_down {
                    c.download - was_down
                } else {
                    0
                }
            }
        }),
{
    lemma_others_do_not_count(last, conns, conns[i].id, i);
}

/// What is known of a connection does not change with other connections.
proof fn lemma_others_do_not_count(
    last: Map<Seq<char>, (u64, u64)>,
    conns: Seq<ConnView>,
    id: Seq<char>,
    n: int,
)
    requires
        0 <= n <= conns.len(),
        forall|j: int| 0 <= j < n ==> (#[trigger] conns[j]).id != id,
    ensures
        counted(last, conns, n).contains_key(id) == last.contains_key(id),
        last.contains_key(id) ==> counted(last, conns, n)[id] == last[id],
    decreases n,
{
    if n > 0 {
        lemma_others_do_not_count(last, conns, id, n - 1);
    }
}

/// After a listing the counters are those of the last connection of each name in it, and of
/// no other.
pub proof fn law_counters_of_a_listing(conns: Seq<ConnView>, i: int, id: Seq<char>)
    requires
        0 <= i < conns.len(),
        forall|j: int| i < j < conns.len() ==> (#[trigger] conns[j]).id != conns[i].id,
    ensures
        ({
            let all = counted(Map::empty(), conns, conns.len() as int);
            &&& all.contains_key(conns[i].id)
            &&& all[conns[i].id] == (conns[i].upload, conns[i].download)
            &&& all.contains_key(id) ==> exists|j: int|
                0 <= j < conns.len() && (#[trigger] conns[j]).id == id
        }),
{
    lemma_counter_stays(conns, i, conns.len() as int);
    lemma_counted_from(conns, id, conns.len() as int);
}

/// A counter stays while other connections are counted.
proof fn lemma_counter_stays(conns: Seq<ConnView>, i: int, n: int)
    requires
        0 <= i < n <= conns.len(),
        forall|j: int| i < j < conns.len() ==> (#[trigger] conns[j]).id != conns[i].id,
    ensures
        counted(Map::empty(), conns, n).contains_key(conns[i].id),
        counted(Map::empty(), conns, n)[conns[i].id] == (conns[i].upload, conns[i].download),
    decreases n,
{
    if n - 1 > i {
        lemma_counter_stays(conns, i, n - 1);
        assert(conns[n - 1].id != conns[i].id);
    }
}

/// A counter is that of a connection.
proof fn lemma_counted_from(conns: Seq<ConnView>, id: Seq<char>, n: int)
    requires
        0 <= n <= conns.len(),
    ensures
        counted(Map::empty(), conns, n).contains_key(id) ==> exists|j: int|
            0 <= j < conns.len() && (#[trigger] conns[j]).id == id,
    decreases n,
{
    if n > 0 {
        lemma_counted_from(conns, id, n - 1);
        if conns[n - 1].id == id {
            assert(conns[n - 1].id == id);
        }
    }
}

/// The inbounds that the gateway serves itself have no label in any spelling.
pub proof fn law_own_inbounds_have_no_label(t: Seq<char>)
    ensures
        text::lowered(t) == text::lowered("http"@) ==> label_of(t) is None,
        text::lowered(t) == text::lowered("https"@) ==> label_of(t) is None,
        text::lowered(t) == text::lowered("redir"@) ==> label_of(t) is None,
        text::lowered(t) == text::lowered("socks4"@) ==> label_of(t) is None,
        text::lowered(t) == text::lowered("socks5"@) ==> label_of(t) is None,
        text::lowered(t) == text::lowered("tproxy"@) ==> label_of(t) is None,
        text::lowered(t) == text::lowered("tun"@) ==> label_of(t) is None,
        text::lowered(t) == text::lowered("inner"@) ==> label_of(t) is None,
        t.len() == 0 ==> label_of(t) is None,
{
    reveal_with_fuel(skipped_from, 9);
}

/// Any other inbound has a label, which is its own name in small letters where it is one
/// with a name of its own.
pub proof fn law_other_inbounds_have_a_label(t: Seq<char>)
    ensures
        label_of(t) matches Some(l) ==> l == "clash"@ || text::lowered(t) == text::lowered(l),
        label_of(t) is None ==> t.len() == 0 || {
            ||| text::lowered(t) == text::lowered("http"@)
            ||| text::lowered(t) == text::lowered("https"@)
            ||| text::lowered(t) == text::lowered("redir"@)
            ||| text::lowered(t) == text::lowered("socks4"@)
            ||| text::lowered(t) == text::lowered("socks5"@)
            ||| text::lowered(t) == text::lowered("tproxy"@)
            ||| text::lowered(t) == text::lowered("tun"@)
            ||| text::lowered(t) == text::lowered("inner"@)
        },
        label_of(t) == Some("clash"@) ==> {
            &&& text::lowered(t) != text::lowered("anytls"@)
            &&& text::lowered(t) != text::lowered("hysteria2"@)
            &&& text::lowered(t) != text::lowered("mieru"@)
            &&& text::lowered(t) != text::lowered("shadowsocks"@)
            &&& text::lowered(t) != text::lowered("snell"@)
            &&& text::lowered(t) != text::lowered("sudoku"@)
            &&& text::lowered(t) != text::lowered("trojan"@)
            &&& text::lowered(t) != text::lowered("trusttunnel"@)
            &&& text::lowered(t) != text::lowered("tuic"@)
            &&& text::lowered(t) != text::lowered("tunnel"@)
            &&& text::lowered(t) != text::lowered("vless"@)
            &&& text::lowered(t) != text::lowered("vmess"@)
        },
{
    reveal_with_fuel(skipped_from, 9);
    reveal_with_fuel(known_from, 13);
    reveal_strlit("clash");
    reveal_strlit("anytls");
    reveal_strlit("hysteria2");
    reveal_strlit("mieru");
    reveal_strlit("shadowsocks");
    reveal_strlit("snell");
    reveal_strlit("sudoku");
    reveal_strlit("trojan");
    reveal_strlit("trusttunnel");
    reveal_strlit("tuic");
    reveal_strlit("tunnel");
    reveal_strlit("vless");
    reveal_strlit("vmess");
    assert("clash"@[0] == 'c');
    assert("mieru"@[0] == 'm');
    assert("snell"@[0] == 's');
    assert("vless"@[0] == 'v');
    assert("vmess"@[0] == 'v');
}

/// A connection is shown as one of a client where its inbound has a label and one of the
/// listeners serves it, and the client is not the machine itself. It is shown with its own
/// ends, each in its place.
pub proof fn law_what_is_mirrored(c: ConnView, active: Set<Seq<char>>)
    ensures
        mirrored(c, active) is Some <==> {
            &&& label_of(c.inbound_type) is Some
            &&& c.src_ip is Some
            &&& !runtime::is_loopback(c.src_ip->0)
            &&& active.contains(text::lowered(c.inbound_type))
        },
        mirrored(c, active) matches Some(r) ==> {
            &&& Some(r.label) == label_of(c.inbound_type)
            &&& r.src == (c.src_ip->0, c.src_port)
            &&& c.dst_ip matches Some(d) ==> r.dst == (d, c.dst_port)
            &&& c.dst_ip is None ==> r.dst == (IpAddr::V4(0), c.dst_port)
            &&& r.transport is Udp <==> text::lowered(c.network) == text::lowered("udp"@)
            &&& c.host.len() == 0 <==> r.domain is None
            &&& c.host.len() > 0 ==> r.domain == Some(c.host)
        },
{
}

/// A connection that is to be shown is opened when it comes up for the first time and kept
/// from then on. One that is not to be shown is passed over.
pub proof fn law_opened_once(
    conns: Seq<ConnView>,
    c: ConnView,
    active: Set<Seq<char>>,
    held: Set<Seq<char>>,
)
    ensures
        ({
            let n = conns.len() as int;
            let before = open_acts(conns, active, held, n);
            let all = open_acts(conns.push(c), active, held, n + 1);
            let known = held.contains(c.id) || exists|j: int|
                0 <= j < n && (#[trigger] conns[j]).id == c.id && mirrored(conns[j], active)
                    is Some;
            &&& mirrored(c, active) is None ==> all == before
            &&& mirrored(c, active) is Some && known ==> all == before.push(ActView::Keep(n))
            &&& mirrored(c, active) is Some && !known ==> all == before.push(
                ActView::Open(n, mirrored(c, active)->0),
            )
        }),
{
    let n = conns.len() as int;
    lemma_acts_before(conns, c, active, held, n);
    lemma_seen(conns, active, c.id, n);
    assert(conns.push(c)[n] == c);
}

/// What is done for the first connections does not depend on those behind them.
proof fn lemma_acts_before(
    conns: Seq<ConnView>,
    c: ConnView,
    active: Set<Seq<char>>,
    held: Set<Seq<char>>,
    n: int,
)
    requires
        0 <= n <= conns.len(),
    ensures
        open_acts(conns.push(c), active, held, n) == open_acts(conns, active, held, n),
        seen_ids(conns.push(c), active, n) == seen_ids(conns, active, n),
    decreases n,
{
    if n > 0 {
        lemma_acts_before(conns, c, active, held, n - 1);
        assert(conns.push(c)[n - 1] == conns[n - 1]);
    }
}

/// A name is among those shown when a connection of that name is.
proof fn lemma_seen(conns: Seq<ConnView>, active: Set<Seq<char>>, id: Seq<char>, n: int)
    requires
        0 <= n <= conns.len(),
    ensures
        seen_ids(conns, active, n).contains(id) <==> exists|j: int|
            0 <= j < n && (#[trigger] conns[j]).id == id && mirrored(conns[j], active) is Some,
    decreases n,
{
    if n > 0 {
        lemma_seen(conns, active, id, n - 1);
        if conns[n - 1].id == id && mirrored(conns[n - 1], active) is Some {
            assert(conns[n - 1].id == id);
        }
    }
}

/// The connections that were shown before and are gone are closed, each of them and no
/// other, and what is shown from then on is what was in the listing.
pub proof fn law_closed_when_gone(
    conns: Seq<ConnView>,
    active: Set<Seq<char>>,
    held: Seq<Seq<char>>,
    id: Seq<char>,
)
    ensures
        ({
            let seen = seen_ids(conns, active, conns.len() as int);
            let shut = close_acts(held, seen, held.len() as int);
            let listed = exists|j: int|
                0 <= j < conns.len() && (#[trigger] conns[j]).id == id && mirrored(
                    conns[j],
                    active,
                ) is Some;
            &&& shut.contains(ActView::Close(id)) <==> held.contains(id) && !listed
            &&& seen.contains(id) <==> listed
        }),
{
    let seen = seen_ids(conns, active, conns.len() as int);
    lemma_seen(conns, active, id, conns.len() as int);
    lemma_closed(held, seen, id, held.len() as int);
}

/// A name is closed when it was held and is not seen.
proof fn lemma_closed(held: Seq<Seq<char>>, seen: Set<Seq<char>>, id: Seq<char>, n: int)
    requires
        0 <= n <= held.len(),
    ensures
        close_acts(held, seen, n).contains(ActView::Close(id)) <==> !seen.contains(id) && exists|
            i: int,
        |
            0 <= i < n && #[trigger] held[i] == id,
    decreases n,
{
    if n > 0 {
        lemma_closed(held, seen, id, n - 1);
        let before = close_acts(held, seen, n - 1);
        let all = close_acts(held, seen, n);
        if !seen.contains(held[n - 1]) {
            let x = ActView::Close(held[n - 1]);
            assert(all == before.push(x));
            assert(all[all.len() - 1] == x);
            if before.contains(ActView::Close(id)) {
                let i = before.index_of(ActView::Close(id));
                assert(all[i] == ActView::Close(id));
            }
            if all.contains(ActView::Close(id)) && held[n - 1] != id {
                let i = all.index_of(ActView::Close(id));
                assert(before[i] == ActView::Close(id));
            }
        }
    }
}

/// A connection that the gateway made itself is shown with the client it was made for, and
/// left out where no client is known for its port.
pub proof fn law_own_connections_are_given_back(
    idx: Map<u16, SocksSrc>,
    es: Seq<(Seq<char>, Shape)>,
    m: Seq<(Seq<char>, Shape)>,
    ip: u32,
    port: u16,
)
    requires
        json::field(Shape::Object(es), "metadata"@) == Some(Shape::Object(m)),
        json::field(Shape::Object(m), "sourceIP"@) == Some(Shape::Text(addr::v4_text(ip))),
        json::field(Shape::Object(m), "sourcePort"@) == Some(
            Shape::Text(text::decimal(port as int)),
        ),
        0x7f00_0000 <= ip < 0x8000_0000,
    ensures
        ({
            let r = shown(idx, Shape::Object(es));
            &&& !idx.contains_key(port) ==> r is None
            &&& idx.contains_key(port) ==> r is Some && r->0 is Object && {
                let out = r->0->Object_0;
                let meta = json::value_at(out, "metadata"@);
                &&& meta is Object
                &&& json::value_at(meta->Object_0, "sourceIP"@) == Shape::Text(
                    addr::ip_text(idx[port].ip),
                )
                &&& json::value_at(meta->Object_0, "sourcePort"@) == Shape::Text(
                    text::decimal(idx[port].port as int),
                )
                &&& json::value_at(meta->Object_0, "type"@) == Shape::Text(
                    records::inbound_text(idx[port].inbound),
                )
                &&& forall|k: Seq<char>|
                    k != "sourceIP"@ && k != "sourcePort"@ && k != "type"@
                        ==> #[trigger] json::value_at(meta->Object_0, k) == json::value_at(m, k)
                &&& forall|k: Seq<char>|
                    k != "metadata"@ ==> #[trigger] json::value_at(out, k) == json::value_at(es, k)
            }
        }),
{
    addr::law_v4_round_trip(ip, port);
    text::law_number_round_trip(port as int, 65535);
    if idx.contains_key(port) {
        let src = idx[port];
        let a = Shape::Text(addr::ip_text(src.ip));
        let b = Shape::Text(text::decimal(src.port as int));
        let c = Shape::Text(records::inbound_text(src.inbound));
        let m1 = json::with_field(m, "sourceIP"@, a);
        let m2 = json::with_field(m1, "sourcePort"@, b);
        let m3 = json::with_field(m2, "type"@, c);
        reveal_strlit("sourceIP");
        reveal_strlit("sourcePort");
        reveal_strlit("type");
        assert("sourceIP"@.len() == 8 && "sourcePort"@.len() == 10 && "type"@.len() == 4);
        json::law_one_field_set(m, "sourceIP"@, a, "type"@);
        json::law_one_field_set(m1, "sourcePort"@, b, "sourceIP"@);
        json::law_one_field_set(m2, "type"@, c, "sourceIP"@);
        json::law_one_field_set(m2, "type"@, c, "sourcePort"@);
        assert forall|k: Seq<char>|
            k != "sourceIP"@ && k != "sourcePort"@ && k != "type"@ implies #[trigger] json::value_at(
            m3,
            k,
        ) == json::value_at(m, k) by {
            json::law_one_field_set(m, "sourceIP"@, a, k);
            json::law_one_field_set(m1, "sourcePort"@, b, k);
            json::law_one_field_set(m2, "type"@, c, k);
        }
        let out = json::with_field(es, "metadata"@, Shape::Object(m3));
        assert forall|k: Seq<char>| k != "metadata"@ implies #[trigger] json::value_at(out, k)
            == json::value_at(es, k) by {
            json::law_one_field_set(es, "metadata"@, Shape::Object(m3), k);
        }
        reveal_strlit("metadata");
        assert("metadata"@.len() == 8);
        json::law_one_field_set(es, "metadata"@, Shape::Object(m3), "type"@);
    }
}

/// A listing is given back with those of its connections that are to be shown, in their
/// order; the rest of it stays as it is.
pub proof fn law_listings_are_given_back(
    idx: Map<u16, SocksSrc>,
    a: Seq<Shape>,
    c: Shape,
    es: Seq<(Seq<char>, Shape)>,
)
    ensures
        ({
            let n = a.len() as int;
            let before = shown_run(idx, a, n);
            let all = shown_run(idx, a.push(c), n + 1);
            &&& shown(idx, c) is None ==> all == before
            &&& shown(idx, c) is Some ==> all == before.push(shown(idx, c)->0)
        }),
        json::field(Shape::Object(es), "connections"@) == Some(Shape::List(a)) ==> {
            let r = restored(idx, Shape::Object(es));
            &&& r is Object
            &&& json::value_at(r->Object_0, "connections"@) == Shape::List(
                shown_run(idx, a, a.len() as int),
            )
            &&& forall|k: Seq<char>|
                k != "connections"@ ==> #[trigger] json::value_at(r->Object_0, k)
                    == json::value_at(es, k)
        },
        json::field(Shape::Object(es), "connections"@) is None ==> restored(idx, Shape::Object(es))
            == Shape::Object(es),
{
    lemma_shown_before(idx, a, c, a.len() as int);
    let l = Shape::List(shown_run(idx, a, a.len() as int));
    let out = json::with_field(es, "connections"@, l);
    assert forall|k: Seq<char>| k != "connections"@ implies #[trigger] json::value_at(out, k)
        == json::value_at(es, k) by {
        json::law_one_field_set(es, "connections"@, l, k);
    }
    reveal_strlit("connections");
    json::law_one_field_set(es, "connections"@, l, Seq::empty());
}

/// What is shown of the first connections does not depend on those behind them.
proof fn lemma_shown_before(idx: Map<u16, SocksSrc>, a: Seq<Shape>, c: Shape, n: int)
    requires
        0 <= n <= a.len(),
    ensures
        shown_run(idx, a.push(c), n) == shown_run(idx, a, n),
    decreases n,
{
    if n > 0 {
        lemma_shown_before(idx, a, c, n - 1);
        assert(a.push(c)[n - 1] == a[n - 1]);
    }
}

/// A type is named by a word behind its mark, whatever blanks are between them and however
/// it is spelt.
pub proof fn law_types_are_named(blanks: Seq<char>, name: Seq<char>, rest: Seq<char>)
    requires
        name.len() > 0,
        forall|i: int|
            0 <= i < name.len() ==> ('a' <= #[trigger] name[i] <= 'z' || 'A' <= name[i] <= 'Z'
                || '0' <= name[i] <= '9'),
        forall|i: int| 0 <= i < blanks.len() ==> #[trigger] blanks[i] == ' ',
        rest.len() > 0 ==> rest[0] == ',' || rest[0] == ' ' || rest[0] == '}',
    ensures
        types_in("type:"@ + blanks + name + rest).contains(text::lowered(name)),
        types_in("- type:"@ + blanks + name + rest).contains(text::lowered(name)),
{
    reveal_strlit("type:");
    reveal_strlit("- type:");
    let k = "type:"@;
    let tail = blanks + name + rest;
    let s = k + blanks + name + rest;
    let t = "- type:"@ + blanks + name + rest;
    assert(s =~= k + tail);
    assert(s.subrange(0, s.len() as int) =~= k + tail);
    assert(t.subrange(2, t.len() as int) =~= k + tail);
    text::lemma_after(k, tail);
    assert(forall|i: int| 0 <= i < name.len() ==> !text::is_space(#[trigger] name[i]));
    assert(forall|i: int| 0 <= i < blanks.len() ==> text::spaces()(#[trigger] tail[i]));
    assert(tail[blanks.len() as int] == name[0]);
    text::lemma_lead(tail, text::spaces(), blanks.len() as int);
    let u = text::trim_start_of(tail, text::spaces());
    assert(u =~= name + rest);
    assert(forall|i: int| 0 <= i < name.len() ==> alnums()(#[trigger] u[i]));
    text::lemma_lead(u, alnums(), name.len() as int);
    assert(u.subrange(0, name.len() as int) =~= name);
    assert(names_type(s, 0, text::lowered(name)));
    assert(t[1] == ' ');
    assert(names_type(t, 2, text::lowered(name)));
}

/// The types of listeners are those named on the lines that belong to their section: on its
/// own line, or on the lines below it that are set in or empty, up to the next section.
pub proof fn law_lines_of_listeners(ls: Seq<Seq<char>>, line: Seq<char>, more: Seq<char>)
    ensures
        ({
            let n = ls.len() as int;
            let was = types_run(ls, n);
            let set_in = line.len() > 0 && (line[0] == ' ' || line[0] == '\t');
            let now = types_run(ls.push(line), n + 1);
            &&& set_in && was.open ==> now.open && now.types == was.types.union(types_in(line))
            &&& set_in && !was.open ==> now == was
            &&& line.len() > 0 && !text::is_space(line[0]) && !text::starts(line, "listeners:"@)
                ==> !now.open && now.types == was.types
            &&& line == "listeners:"@ ==> now.open && now.types == was.types
            &&& line == "listeners: "@ + more && more.len() > 0 && !text::is_space(more[0])
                && !text::is_space(more.last()) && !more.contains('#') ==> !now.open && now.types
                == was.types.union(types_in(more))
        }),
        types_run(ls, 0).types == Set::<Seq<char>>::empty() && !types_run(ls, 0).open,
{
    let n = ls.len() as int;
    lemma_types_before(ls, line, n);
    assert(ls.push(line)[n] == line);
    let e = Seq::<char>::empty();
    reveal_strlit("listeners:");
    reveal_strlit("listeners: ");
    if line.len() > 0 && !text::is_space(line[0]) {
        text::lemma_lead(line, text::spaces(), 0);
        let u = text::trim_start_of(line, text::spaces());
        assert(u =~= line);
        text::lemma_trail_bounds(u, text::spaces());
        if text::trail(u, text::spaces()) == u.len() {
            assert(text::spaces()(u[0]));
        }
        assert(text::trimmed(line).len() > 0);
    }
    if line == "listeners:"@ {
        text::lemma_after("listeners:"@, e);
        assert("listeners:"@ + e =~= line);
        text::law_trimming(e, e, e);
        text::lemma_no_cut(e, '#');
        assert(line[0] == 'l');
    }
    if line == "listeners: "@ + more && more.len() > 0 && !text::is_space(more[0])
        && !text::is_space(more.last()) && !more.contains('#') {
        let v = seq![' '] + more;
        assert(line =~= "listeners:"@ + v);
        text::lemma_after("listeners:"@, v);
        assert forall|i: int| 0 <= i < v.len() implies #[trigger] v[i] != '#' by {
            if i > 0 {
                assert(v[i] == more[i - 1]);
            }
        }
        text::lemma_no_cut(v, '#');
        text::law_trimming(seq![' '], more, e);
        assert(seq![' '] + more + e =~= v);
        assert(line[0] == 'l');
    }
}

/// What the first lines say does not depend on those behind them.
proof fn lemma_types_before(ls: Seq<Seq<char>>, line: Seq<char>, n: int)
    requires
        0 <= n <= ls.len(),
    ensures
        types_run(ls.push(line), n) == types_run(ls, n),
    decreases n,
{
    if n > 0 {
        lemma_types_before(ls, line, n - 1);
        assert(ls.push(line)[n - 1] == ls[n - 1]);
    }
}

} // verus!
