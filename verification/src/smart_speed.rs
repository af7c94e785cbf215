//! Groups of nodes whose fastest node is looked for again and again.

use crate::bytes;
use crate::json;
use crate::json::{Json, Shape};
use crate::names;
use crate::table::Table;
use crate::text;
use vstd::prelude::*;

verus! {

/// How many samples of a node are kept.
pub const HIST_CAP: usize = 8;

/// For how long an answer of a node is waited for, in milliseconds.
pub const REGULAR_TIMEOUT_MS: u64 = 5000;

/// For how long answers are waited for while nothing is known of any node, in
/// milliseconds, one round after the other.
pub const LADDER_MS: [u64; 10] = [500, 1000, 1500, 2000, 2500, 3000, 3500, 4000, 4500, 5000];

/// How many nodes are tested at once.
pub const MAX_CONCURRENT: usize = 16;

/// The pause between two rounds, in seconds.
pub const CYCLE_GAP_SEC: u64 = 30;

/// The pause between two looks at the settings, in seconds.
pub const SUPERVISOR_TICK_SEC: u64 = 30;

/// The pause after clash did not answer, in seconds.
pub const ERR_BACKOFF_SEC: u64 = 15;

/// A node that only marks its group as one of these.
pub const SMART_HIDE_NODE: &'static str = "smartspeedtest@hide";

/// A group whose fastest node is looked for.
pub struct SmartGroup {
    pub name: String,
    /// What its nodes fetch; empty for what is fetched by default.
    pub url: String,
}

/// Such a group, as values.
#[verifier::ext_equal]
pub struct GroupView {
    pub name: Seq<char>,
    pub url: Seq<char>,
}

impl View for SmartGroup {
    type V = GroupView;

    open spec fn view(&self) -> GroupView {
        GroupView { name: self.name@, url: self.url@ }
    }
}

/// Groups, as values.
pub open spec fn group_views(v: Seq<SmartGroup>) -> Seq<GroupView> {
    Seq::new(v.len(), |i: int| v[i]@)
}

/// The last samples of a node: how long it took, or `None` where it did not
/// answer.
pub struct NodeHist {
    samples: Vec<Option<u32>>,
}

impl View for NodeHist {
    type V = Seq<Option<u32>>;

    closed spec fn view(&self) -> Seq<Option<u32>> {
        self.samples@
    }
}

/// Samples with one more, of which the last ones are kept.
pub open spec fn with_sample(s: Seq<Option<u32>>, x: Option<u32>) -> Seq<Option<u32>> {
    let all = s.push(x);
    if all.len() > HIST_CAP {
        all.subrange(all.len() - HIST_CAP, all.len() as int)
    } else {
        all
    }
}

impl NodeHist {
    /// No more samples than are kept.
    #[verifier::type_invariant]
    closed spec fn inv(&self) -> bool {
        self.samples@.len() <= HIST_CAP
    }

    /// Adds a sample; the oldest one leaves where there are too many.
    pub fn push(&mut self, sample: Option<u32>)
        ensures
            final(self)@ == with_sample(old(self)@, sample),
    {
        proof {
            use_type_invariant(&*self);
        }
        let ghost before = self.samples@;
        let mut next: Vec<Option<u32>> = Vec::new();
        let from: usize = if self.samples.len() == HIST_CAP {
            1
        } else {
            0
        };
        let mut i: usize = from;
        while i < self.samples.len()
            invariant
                from <= i <= self.samples@.len(),
                self.samples@ == before,
                next@ == before.subrange(from as int, i as int),
            decreases self.samples@.len() - i,
        {
            next.push(self.samples[i]);
            assert(next@ =~= before.subrange(from as int, i + 1));
            i = i + 1;
        }
        next.push(sample);
        assert(next@ =~= with_sample(before, sample));
        self.samples = next;
    }

    /// Whether there is no sample.
    pub fn is_empty(&self) -> (r: bool)
        ensures
            r == (self@.len() == 0),
    {
        self.samples.len() == 0
    }

    /// The samples, the oldest first.
    pub fn samples(&self) -> (r: &Vec<Option<u32>>)
        ensures
            r@ == self@,
    {
        &self.samples
    }
}

impl Default for NodeHist {
    fn default() -> (r: Self)
        ensures
            r@ == Seq::<Option<u32>>::empty(),
    {
        NodeHist { samples: Vec::new() }
    }
}

impl Clone for NodeHist {
    fn clone(&self) -> (r: Self)
        ensures
            r@ == self@,
    {
        proof {
            use_type_invariant(self);
        }
        let mut samples: Vec<Option<u32>> = Vec::new();
        let mut i: usize = 0;
        while i < self.samples.len()
            invariant
                i <= self.samples@.len(),
                samples@ == self.samples@.subrange(0, i as int),
                self.samples@.len() <= HIST_CAP,
            decreases self.samples@.len() - i,
        {
            samples.push(self.samples[i]);
            assert(samples@ =~= self.samples@.subrange(0, i + 1));
            i = i + 1;
        }
        assert(samples@ =~= self.samples@);
        NodeHist { samples }
    }
}

/// Samples after more were added one by one.
pub open spec fn with_samples(s: Seq<Option<u32>>, xs: Seq<Option<u32>>) -> Seq<Option<u32>>
    decreases xs.len(),
{
    if xs.len() == 0 {
        s
    } else {
        with_sample(with_samples(s, xs.drop_last()), xs.last())
    }
}

/// Whatever was added, the last samples are kept and no others.
pub proof fn law_last_samples_kept(xs: Seq<Option<u32>>)
    ensures
        with_samples(Seq::empty(), xs) == if xs.len() > HIST_CAP {
            xs.subrange(xs.len() - HIST_CAP, xs.len() as int)
        } else {
            xs
        },
    decreases xs.len(),
{
    if xs.len() > 0 {
        law_last_samples_kept(xs.drop_last());
        let kept = if xs.len() > HIST_CAP {
            xs.subrange(xs.len() - HIST_CAP, xs.len() as int)
        } else {
            xs
        };
        assert(with_samples(Seq::empty(), xs) =~= kept);
    } else {
        assert(with_samples(Seq::empty(), xs) =~= xs);
    }
}

/// What is known of the nodes of a group.
pub struct GroupState {
    hist: Table<NodeHist>,
}

impl View for GroupState {
    type V = Map<Seq<char>, Seq<Option<u32>>>;

    closed spec fn view(&self) -> Map<Seq<char>, Seq<Option<u32>>> {
        Map::new(|k: Seq<char>| self.hist@.contains_key(k), |k: Seq<char>| self.hist@[k]@)
    }
}

/// The samples of a node; none where nothing is known of it.
pub open spec fn samples_of(h: Map<Seq<char>, Seq<Option<u32>>>, node: Seq<char>) -> Seq<Option<u32>> {
    if h.contains_key(node) {
        h[node]
    } else {
        Seq::empty()
    }
}

/// What is known once a node has one more sample.
pub open spec fn sampled(
    h: Map<Seq<char>, Seq<Option<u32>>>,
    node: Seq<char>,
    x: Option<u32>,
) -> Map<Seq<char>, Seq<Option<u32>>> {
    h.insert(node, with_sample(samples_of(h, node), x))
}

impl GroupState {
    /// The table is well formed.
    pub closed spec fn wf(&self) -> bool {
        self.hist.wf()
    }

    /// Nothing is known.
    pub fn new() -> (r: GroupState)
        ensures
            r.wf(),
            r@ == Map::<Seq<char>, Seq<Option<u32>>>::empty(),
    {
        let r = GroupState { hist: Table::new() };
        assert(r@ =~= Map::<Seq<char>, Seq<Option<u32>>>::empty());
        r
    }

    /// The samples of a node.
    pub fn get(&self, node: &str) -> (r: Option<&NodeHist>)
        requires
            self.wf(),
        ensures
            match r {
                Some(h) => self@.contains_key(node@) && h@ == self@[node@],
                None => !self@.contains_key(node@),
            },
    {
        self.hist.get(node)
    }

    /// Whether nothing is known of a node.
    pub fn untested(&self, node: &str) -> (r: bool)
        requires
            self.wf(),
        ensures
            r == (samples_of(self@, node@).len() == 0),
    {
        match self.get(node) {
            Some(h) => h.is_empty(),
            None => true,
        }
    }

    /// Adds a sample of a node.
    pub fn push(&mut self, node: &str, sample: Option<u32>)
        requires
            old(self).wf(),
        ensures
            final(self).wf(),
            final(self)@ == sampled(old(self)@, node@, sample),
    {
        let ghost before = self@;
        let mut h = match self.hist.get(node) {
            Some(h) => h.clone(),
            None => NodeHist::default(),
        };
        h.push(sample);
        self.hist.insert(node.to_owned(), h);
        assert(self@ =~= sampled(before, node@, sample));
    }

    /// Forgets the nodes that are not among the members.
    pub fn retain(&mut self, members: &[Member])
        requires
            old(self).wf(),
        ensures
            final(self).wf(),
            final(self)@ == old(self)@.restrict(
                Set::new(|k: Seq<char>| has_member(member_views(members@), k)),
            ),
    {
        let ghost before = self@;
        let mut next: Table<NodeHist> = Table::new();
        let mut i: usize = 0;
        proof {
            self.hist.lemma_keys();
        }
        while i < self.hist.len()
            invariant
                i <= self.hist.keys().len(),
                self.hist.wf(),
                next.wf(),
                before == self@,
                self.hist.keys().no_duplicates(),
                forall|k: Seq<char>| self.hist@.contains_key(k) <==> self.hist.keys().contains(k),
                forall|k: Seq<char>|
                    #[trigger] next@.contains_key(k) <==> (has_member(member_views(members@), k)
                        && exists|j: int| 0 <= j < i && #[trigger] self.hist.keys()[j] == k),
                forall|k: Seq<char>|
                    #[trigger] next@.contains_key(k) ==> next@[k]@ == self.hist@[k]@,
            decreases self.hist.keys().len() - i,
        {
            let (k, h) = self.hist.entry(i);
            let ghost held = next@;
            if is_member(members, k.as_str()) {
                next.insert(k.clone(), h.clone());
            }
            proof {
                let key = self.hist.keys()[i as int];
                assert forall|x: Seq<char>| #[trigger] next@.contains_key(x) <==> (has_member(
                    member_views(members@),
                    x,
                ) && exists|j: int| 0 <= j < i + 1 && #[trigger] self.hist.keys()[j] == x) by {
                    if next@.contains_key(x) && x != key {
                        assert(held.contains_key(x));
                    }
                    if exists|j: int| 0 <= j < i + 1 && #[trigger] self.hist.keys()[j] == x {
                        let j = choose|j: int| 0 <= j < i + 1 && #[trigger] self.hist.keys()[j] == x;
                        if j < i {
                            assert(has_member(member_views(members@), x) ==> held.contains_key(x));
                        }
                    }
                }
            }
            i = i + 1;
        }
        proof {
            assert forall|k: Seq<char>| #[trigger] next@.contains_key(k) <==> (has_member(
                member_views(members@),
                k,
            ) && self.hist@.contains_key(k)) by {
                if self.hist@.contains_key(k) {
                    assert(self.hist.keys().contains(k));
                    let j = choose|j: int|
                        0 <= j < self.hist.keys().len() && self.hist.keys()[j] == k;
                    assert(self.hist.keys()[j] == k);
                }
                if next@.contains_key(k) {
                    let j = choose|j: int|
                        0 <= j < self.hist.keys().len() && #[trigger] self.hist.keys()[j] == k;
                    assert(self.hist.keys().contains(k));
                }
            }
        }
        self.hist = next;
        assert(self@ =~= before.restrict(
            Set::new(|k: Seq<char>| has_member(member_views(members@), k)),
        ));
    }
}

/// The truth value in a field that may be missing; false where it is.
pub open spec fn switched_on(g: Shape, k: Seq<char>) -> bool {
    json::truth_at(g, k) == Some(true)
}

/// The group that an item of the settings describes; `None` for one that is not
/// switched on or has no name.
pub open spec fn group_of(g: Shape) -> Option<GroupView> {
    if switched_on(g, "smart"@) {
        match json::words_at(g, "name"@) {
            Some(n) => if text::trimmed(n).len() > 0 {
                Some(
                    GroupView {
                        name: text::trimmed(n),
                        url: match json::words_at(g, "speedtest_url"@) {
                            Some(u) => text::trimmed(u),
                            None => Seq::empty(),
                        },
                    },
                )
            } else {
                None
            },
            None => None,
        }
    } else {
        None
    }
}

/// The groups among the first `n` items.
pub open spec fn groups_among(a: Seq<Shape>, n: int) -> Seq<GroupView>
    decreases n,
{
    if n <= 0 {
        Seq::empty()
    } else {
        match group_of(a[n - 1]) {
            Some(g) => groups_among(a, n - 1).push(g),
            None => groups_among(a, n - 1),
        }
    }
}

/// The groups that settings describe.
pub open spec fn groups_of(v: Shape) -> Seq<GroupView> {
    match json::items_at(v, "node-groups"@) {
        Some(a) => groups_among(a, a.len() as int),
        None => Seq::empty(),
    }
}

/// The groups that a text describes.
pub open spec fn groups_in(s: Seq<char>) -> Seq<GroupView> {
    match json::json_value(s) {
        Some(v) => groups_of(v),
        None => Seq::empty(),
    }
}

/// A text without the spaces around it.
fn trimmed_text(s: &str) -> (r: String)
    ensures
        r@ == text::trimmed(s@),
{
    let cs = text::chars_of(s);
    text::str_of(text::trim(cs.as_slice()))
}

/// The group that an item of the settings describes.
fn read_group(g: &Json) -> (r: Option<SmartGroup>)
    ensures
        match r {
            Some(x) => group_of(g@) == Some(x@),
            None => group_of(g@) is None,
        },
{
    match g.bool_at("smart") {
        Some(true) => {},
        _ => return None,
    }
    match g.str_at("name") {
        Some(n) => {
            let cs = text::chars_of(n);
            let name = text::trim(cs.as_slice());
            if name.len() == 0 {
                return None;
            }
            let url = match g.str_at("speedtest_url") {
                Some(u) => trimmed_text(u),
                None => String::new(),
            };
            Some(SmartGroup { name: text::str_of(name), url })
        },
        None => None,
    }
}

/// The groups that settings describe.
pub fn smart_groups(v: &Json) -> (r: Vec<SmartGroup>)
    ensures
        group_views(r@) == groups_of(v@),
{
    let mut out: Vec<SmartGroup> = Vec::new();
    assert(group_views(out@) =~= Seq::<GroupView>::empty());
    match v.list_at("node-groups") {
        Some(a) => {
            let ghost all = json::shapes(a@);
            proof {
                json::lemma_shapes(a@);
            }
            let mut i: usize = 0;
            while i < a.len()
                invariant
                    i <= a@.len(),
                    all.len() == a@.len(),
                    forall|j: int| 0 <= j < a@.len() ==> #[trigger] all[j] == json::shape(a@[j]),
                    all == json::shapes(a@),
                    group_views(out@) == groups_among(all, i as int),
                decreases a@.len() - i,
            {
                let ghost before = group_views(out@);
                assert(all[i as int] == json::shape(a@[i as int]));
                match read_group(&a[i]) {
                    Some(g) => {
                        out.push(g);
                        assert(group_views(out@) =~= before.push(g@));
                    },
                    None => {},
                }
                i = i + 1;
            }
        },
        None => {},
    }
    out
}

/// The groups that a text describes; none where it cannot be read.
pub fn parse_smart_groups(json: &str) -> (r: Vec<SmartGroup>)
    ensures
        group_views(r@) == groups_in(json@),
{
    match json::parse(json) {
        Some(v) => smart_groups(&v),
        None => {
            let out: Vec<SmartGroup> = Vec::new();
            assert(group_views(out@) =~= Seq::<GroupView>::empty());
            out
        },
    }
}

/// A node of a group, and the provider that it comes from where it is not one of
/// clash itself.
pub struct Member {
    pub name: String,
    pub provider: Option<String>,
}

/// Such a node, as values.
#[verifier::ext_equal]
pub struct MemberView {
    pub name: Seq<char>,
    pub provider: Option<Seq<char>>,
}

impl View for Member {
    type V = MemberView;

    open spec fn view(&self) -> MemberView {
        MemberView { name: self.name@, provider: text::opt_string(self.provider) }
    }
}

/// Nodes, as values.
pub open spec fn member_views(v: Seq<Member>) -> Seq<MemberView> {
    Seq::new(v.len(), |i: int| v[i]@)
}

/// Whether a node is among the members.
pub open spec fn has_member(ms: Seq<MemberView>, name: Seq<char>) -> bool {
    exists|i: int| 0 <= i < ms.len() && (#[trigger] ms[i]).name == name
}

/// Whether a node is among the members.
pub fn is_member(members: &[Member], name: &str) -> (r: bool)
    ensures
        r == has_member(member_views(members@), name@),
{
    let mut i: usize = 0;
    while i < members.len()
        invariant
            i <= members@.len(),
            forall|j: int| 0 <= j < i ==> (#[trigger] members@[j]).name@ != name@,
        decreases members@.len() - i,
    {
        if text::same_str(members[i].name.as_str(), name) {
            assert(member_views(members@)[i as int].name == name@);
            return true;
        }
        i = i + 1;
    }
    proof {
        if has_member(member_views(members@), name@) {
            let j = choose|j: int|
                0 <= j < member_views(members@).len() && (#[trigger] member_views(
                    members@,
                )[j]).name == name@;
            assert(members@[j].name@ == name@);
        }
    }
    false
}

/// A node as clash describes it.
pub struct RawNode {
    pub name: Option<String>,
    pub typ: Option<String>,
    /// The node that a group uses now.
    pub now: Option<String>,
    /// The nodes of a group.
    pub all: Option<Vec<String>>,
    /// How long its last answers took; zero where there was none.
    pub history: Vec<Option<u64>>,
    /// The same, for each address that was fetched.
    pub extra: Table<Vec<Option<u64>>>,
}

/// The nodes of clash.
pub struct RawProxies {
    pub proxies: Table<RawNode>,
}

/// A provider and its nodes.
pub struct RawProvider {
    pub name: String,
    pub proxies: Vec<RawNode>,
}

/// The providers of clash.
pub struct RawProviders {
    pub providers: Vec<RawProvider>,
}

/// The first node of a name among the nodes from a place on.
pub open spec fn node_from(ns: Seq<RawNode>, name: Seq<char>, j: int) -> Option<int>
    decreases ns.len() - j,
{
    if j < 0 || j >= ns.len() {
        None
    } else if text::opt_string(ns[j].name) == Some(name) {
        Some(j)
    } else {
        node_from(ns, name, j + 1)
    }
}

/// The first provider with a node of a name, from a place on, and that node.
pub open spec fn provider_from(ps: Seq<RawProvider>, name: Seq<char>, i: int) -> Option<(int, int)>
    decreases ps.len() - i,
{
    if i < 0 || i >= ps.len() {
        None
    } else {
        match node_from(ps[i].proxies@, name, 0) {
            Some(j) => Some((i, j)),
            None => provider_from(ps, name, i + 1),
        }
    }
}

/// What is found lies within the list and has the name.
proof fn lemma_node_from(ns: Seq<RawNode>, name: Seq<char>, j: int)
    ensures
        node_from(ns, name, j) matches Some(k) ==> 0 <= k < ns.len() && text::opt_string(ns[k].name)
            == Some(name),
    decreases ns.len() - j,
{
    if 0 <= j < ns.len() && text::opt_string(ns[j].name) != Some(name) {
        lemma_node_from(ns, name, j + 1);
    }
}

/// The first node of a name.
fn find_node(ns: &Vec<RawNode>, name: &str) -> (r: Option<usize>)
    ensures
        match r {
            Some(j) => node_from(ns@, name@, 0) == Some(j as int) && j < ns@.len(),
            None => node_from(ns@, name@, 0) is None,
        },
{
    let mut j: usize = 0;
    while j < ns.len()
        invariant
            j <= ns@.len(),
            node_from(ns@, name@, 0) == node_from(ns@, name@, j as int),
        decreases ns@.len() - j,
    {
        match &ns[j].name {
            Some(n) => if text::same_str(n.as_str(), name) {
                return Some(j);
            },
            None => {},
        }
        j = j + 1;
    }
    None
}

/// The first provider with a node of a name, and that node.
fn find_provided(ps: &Vec<RawProvider>, name: &str) -> (r: Option<(usize, usize)>)
    ensures
        match r {
            Some(p) => provider_from(ps@, name@, 0) == Some((p.0 as int, p.1 as int)) && p.0
                < ps@.len() && p.1 < ps@[p.0 as int].proxies@.len(),
            None => provider_from(ps@, name@, 0) is None,
        },
{
    let mut i: usize = 0;
    while i < ps.len()
        invariant
            i <= ps@.len(),
            provider_from(ps@, name@, 0) == provider_from(ps@, name@, i as int),
        decreases ps@.len() - i,
    {
        match find_node(&ps[i].proxies, name) {
            Some(j) => return Some((i, j)),
            None => {},
        }
        i = i + 1;
    }
    None
}

/// A text that may be missing; the empty one where it is.
pub open spec fn or_empty(s: Option<String>) -> Seq<char> {
    match s {
        Some(t) => t@,
        None => Seq::empty(),
    }
}

/// The type of a node and the provider that it comes from; `None` where nobody
/// has such a node.
pub open spec fn located(
    proxies: Map<Seq<char>, RawNode>,
    providers: Seq<RawProvider>,
    name: Seq<char>,
) -> Option<(Seq<char>, Option<Seq<char>>)> {
    if proxies.contains_key(name) {
        Some((or_empty(proxies[name].typ), None))
    } else {
        match provider_from(providers, name, 0) {
            Some((i, j)) => Some(
                (or_empty(providers[i].proxies@[j].typ), Some(providers[i].name@)),
            ),
            None => None,
        }
    }
}

/// Whether a node carries no traffic.
pub open spec fn carries_nothing(typ: Seq<char>) -> bool {
    typ == "Reject"@ || typ == "RejectDrop"@ || typ == "Pass"@
}

/// The node of a group that is tested under a name; `None` for a mark, for a node
/// that only tells the traffic, for one that nobody has and for one that carries
/// nothing.
pub open spec fn testable(
    proxies: Map<Seq<char>, RawNode>,
    providers: Seq<RawProvider>,
    name: Seq<char>,
) -> Option<MemberView> {
    if name == SMART_HIDE_NODE@ || text::holds(name, "@@"@) {
        None
    } else {
        match located(proxies, providers, name) {
            Some((typ, provider)) => if carries_nothing(typ) {
                None
            } else {
                Some(MemberView { name, provider })
            },
            None => None,
        }
    }
}

/// The nodes among the first `n` names that are tested.
pub open spec fn testable_among(
    proxies: Map<Seq<char>, RawNode>,
    providers: Seq<RawProvider>,
    all: Seq<Seq<char>>,
    n: int,
) -> Seq<MemberView>
    decreases n,
{
    if n <= 0 {
        Seq::empty()
    } else {
        match testable(proxies, providers, all[n - 1]) {
            Some(m) => testable_among(proxies, providers, all, n - 1).push(m),
            None => testable_among(proxies, providers, all, n - 1),
        }
    }
}

/// The providers, none where they were not asked for.
pub open spec fn provided(providers: Option<&RawProviders>) -> Seq<RawProvider> {
    match providers {
        Some(p) => p.providers@,
        None => Seq::empty(),
    }
}

/// The nodes of a group that are tested and the one that it uses now; `None` where
/// clash has no such group.
pub open spec fn eligible(
    proxies: Map<Seq<char>, RawNode>,
    providers: Seq<RawProvider>,
    group: Seq<char>,
) -> Option<(Seq<MemberView>, Seq<char>)> {
    if proxies.contains_key(group) {
        match proxies[group].all {
            Some(all) => {
                let names = text::strings(all@);
                Some(
                    (
                        testable_among(proxies, providers, names, names.len() as int),
                        or_empty(proxies[group].now),
                    ),
                )
            },
            None => None,
        }
    } else {
        None
    }
}

/// A copy of a text that may be missing; the empty one where it is.
fn text_or_empty(s: &Option<String>) -> (r: String)
    ensures
        r@ == or_empty(*s),
{
    match s {
        Some(t) => t.clone(),
        None => String::new(),
    }
}

/// The node of a group that is tested under a name.
fn test_target(proxies: &RawProxies, providers: Option<&RawProviders>, name: &String) -> (r: Option<
    Member,
>)
    requires
        proxies.proxies.wf(),
    ensures
        match r {
            Some(m) => testable(
                proxies.proxies@,
                provided(providers),
                name@,
            ) == Some(m@),
            None => testable(
                proxies.proxies@,
                provided(providers),
                name@,
            ) is None,
        },
{
    let cs = text::chars_of(name.as_str());
    if text::same(cs.as_slice(), SMART_HIDE_NODE) || text::contains(cs.as_slice(), "@@") {
        return None;
    }
    let (typ, provider) = match proxies.proxies.get(name.as_str()) {
        Some(p) => (text_or_empty(&p.typ), None),
        None => match providers {
            Some(pv) => match find_provided(&pv.providers, name.as_str()) {
                Some((i, j)) => (
                    text_or_empty(&pv.providers[i].proxies[j].typ),
                    Some(pv.providers[i].name.clone()),
                ),
                None => return None,
            },
            None => return None,
        },
    };
    let t = text::chars_of(typ.as_str());
    if text::same(t.as_slice(), "Reject") || text::same(t.as_slice(), "RejectDrop") || text::same(
        t.as_slice(),
        "Pass",
    ) {
        return None;
    }
    Some(Member { name: name.clone(), provider })
}

/// The nodes of a group that are tested and the one that it uses now; `None` where
/// clash has no such group.
pub fn eligible_members(proxies: &RawProxies, providers: Option<&RawProviders>, group: &str) -> (r:
    Option<(Vec<Member>, String)>)
    requires
        proxies.proxies.wf(),
    ensures
        match r {
            Some((ms, now)) => eligible(
                proxies.proxies@,
                provided(providers),
                group@,
            ) == Some((member_views(ms@), now@)),
            None => eligible(
                proxies.proxies@,
                provided(providers),
                group@,
            ) is None,
        },
{
    let ghost ps = provided(providers);
    let g = match proxies.proxies.get(group) {
        Some(g) => g,
        None => return None,
    };
    let now = text_or_empty(&g.now);
    let all = match &g.all {
        Some(all) => all,
        None => return None,
    };
    let ghost names = text::strings(all@);
    let mut out: Vec<Member> = Vec::new();
    let mut i: usize = 0;
    assert(member_views(out@) =~= Seq::<MemberView>::empty());
    while i < all.len()
        invariant
            i <= all@.len(),
            proxies.proxies.wf(),
            names == text::strings(all@),
            ps == provided(providers),
            member_views(out@) == testable_among(proxies.proxies@, ps, names, i as int),
        decreases all@.len() - i,
    {
        let ghost before = member_views(out@);
        assert(names[i as int] == all@[i as int]@);
        match test_target(proxies, providers, &all[i]) {
            Some(m) => {
                out.push(m);
                assert(member_views(out@) =~= before.push(m@));
            },
            None => {},
        }
        i = i + 1;
    }
    Some((out, now))
}

/// Whether a group has a node, other than a mark, that clash itself has not.
pub open spec fn lacks_nodes(proxies: Map<Seq<char>, RawNode>, group: Seq<char>) -> bool {
    &&& proxies.contains_key(group)
    &&& proxies[group].all matches Some(all) && exists|i: int|
        0 <= i < all@.len() && (#[trigger] all@[i])@ != SMART_HIDE_NODE@ && !proxies.contains_key(
            all@[i]@,
        )
}

/// Whether the providers must be asked for the nodes of a group.
pub fn needs_providers(proxies: &RawProxies, group: &str) -> (r: bool)
    requires
        proxies.proxies.wf(),
    ensures
        r == lacks_nodes(proxies.proxies@, group@),
{
    let all = match proxies.proxies.get(group) {
        Some(g) => match &g.all {
            Some(all) => all,
            None => return false,
        },
        None => return false,
    };
    let mut i: usize = 0;
    while i < all.len()
        invariant
            i <= all@.len(),
            proxies.proxies.wf(),
            forall|j: int|
                0 <= j < i ==> (#[trigger] all@[j])@ == SMART_HIDE_NODE@
                    || proxies.proxies@.contains_key(all@[j]@),
            proxies.proxies@.contains_key(group@),
            proxies.proxies@[group@].all == Some(*all),
        decreases all@.len() - i,
    {
        if !text::same_str(all[i].as_str(), SMART_HIDE_NODE) {
            match proxies.proxies.get(all[i].as_str()) {
                Some(_) => {},
                None => {
                    let ghost list = proxies.proxies@[group@].all->0;
                    assert(list@[i as int]@ != SMART_HIDE_NODE@);
                    assert(!proxies.proxies@.contains_key(list@[i as int]@));
                    return true;
                },
            }
        }
        i = i + 1;
    }
    false
}

/// The groups whose nodes fetch one address.
pub struct Bucket {
    pub url: String,
    pub groups: Vec<SmartGroup>,
}

/// Such groups, as values.
#[verifier::ext_equal]
pub struct BucketView {
    pub url: Seq<char>,
    pub groups: Seq<GroupView>,
}

impl View for Bucket {
    type V = BucketView;

    open spec fn view(&self) -> BucketView {
        BucketView { url: self.url@, groups: group_views(self.groups@) }
    }
}

/// Groups by address, as values.
pub open spec fn bucket_views(v: Seq<Bucket>) -> Seq<BucketView> {
    Seq::new(v.len(), |i: int| v[i]@)
}

/// What the nodes of a group fetch.
pub open spec fn effective_url(g: GroupView, default_url: Seq<char>) -> Seq<char> {
    if g.url.len() == 0 {
        default_url
    } else {
        g.url
    }
}

/// The place of an address among the buckets, from a place on, or their number.
pub open spec fn bucket_from(bs: Seq<BucketView>, url: Seq<char>, i: int) -> int
    decreases bs.len() - i,
{
    if i < 0 || i >= bs.len() {
        bs.len() as int
    } else if bs[i].url == url {
        i
    } else {
        bucket_from(bs, url, i + 1)
    }
}

/// Where a new address goes from place `i` on: behind those that come before it.
pub open spec fn bucket_place(bs: Seq<BucketView>, url: Seq<char>, i: int) -> int
    decreases bs.len() - i,
{
    if i < 0 || i >= bs.len() {
        bs.len() as int
    } else if names::before(bs[i].url, url) {
        bucket_place(bs, url, i + 1)
    } else {
        i
    }
}

/// Each address stands once, and they stand in their order.
pub open spec fn in_url_order(bs: Seq<BucketView>) -> bool {
    forall|i: int, j: int|
        0 <= i < j < bs.len() ==> names::before((#[trigger] bs[i]).url, (#[trigger] bs[j]).url)
}

/// The buckets with one more group; a new address goes to its place in the order.
pub open spec fn with_group(bs: Seq<BucketView>, url: Seq<char>, g: GroupView) -> Seq<BucketView> {
    let i = bucket_from(bs, url, 0);
    if i < bs.len() {
        bs.update(i, BucketView { url, groups: bs[i].groups.push(g) })
    } else {
        bs.insert(bucket_place(bs, url, 0), BucketView { url, groups: seq![g] })
    }
}

/// Whether a name occurs among the first `n` groups.
pub open spec fn named_before(gs: Seq<GroupView>, name: Seq<char>, n: int) -> bool {
    exists|i: int| 0 <= i < n && (#[trigger] gs[i]).name == name
}

/// The first `n` groups by address; of groups with one name the first counts.
pub open spec fn buckets_of(gs: Seq<GroupView>, default_url: Seq<char>, n: int) -> Seq<BucketView>
    decreases n,
{
    if n <= 0 {
        Seq::empty()
    } else {
        let before = buckets_of(gs, default_url, n - 1);
        let g = gs[n - 1];
        if named_before(gs, g.name, n - 1) {
            before
        } else {
            with_group(before, effective_url(g, default_url), g)
        }
    }
}

/// A copy of a group.
fn copy_group(g: &SmartGroup) -> (r: SmartGroup)
    ensures
        r@ == g@,
{
    SmartGroup { name: g.name.clone(), url: g.url.clone() }
}

/// The place of an address among the buckets.
fn find_bucket(bs: &Vec<Bucket>, url: &str) -> (r: Option<usize>)
    ensures
        match r {
            Some(i) => i < bs@.len() && bucket_from(bucket_views(bs@), url@, 0) == i,
            None => bucket_from(bucket_views(bs@), url@, 0) == bs@.len(),
        },
{
    let ghost v = bucket_views(bs@);
    let mut i: usize = 0;
    while i < bs.len()
        invariant
            i <= bs@.len(),
            v == bucket_views(bs@),
            bucket_from(v, url@, 0) == bucket_from(v, url@, i as int),
        decreases bs@.len() - i,
    {
        assert(v[i as int].url == bs@[i as int].url@);
        if text::same_str(bs[i].url.as_str(), url) {
            return Some(i);
        }
        i = i + 1;
    }
    None
}

/// Where a new address goes among the buckets.
fn find_place(bs: &Vec<Bucket>, url: &str) -> (r: usize)
    ensures
        r <= bs@.len(),
        bucket_place(bucket_views(bs@), url@, 0) == r,
{
    let ghost v = bucket_views(bs@);
    let cs = text::chars_of(url);
    let mut i: usize = 0;
    while i < bs.len()
        invariant
            i <= bs@.len(),
            v == bucket_views(bs@),
            cs@ == url@,
            bucket_place(v, url@, 0) == bucket_place(v, url@, i as int),
        decreases bs@.len() - i,
    {
        assert(v[i as int].url == bs@[i as int].url@);
        let at = text::chars_of(bs[i].url.as_str());
        if !names::comes_before(at.as_slice(), cs.as_slice()) {
            return i;
        }
        i = i + 1;
    }
    i
}

/// The groups by the address that their nodes fetch, in the order of the addresses;
/// of groups with one name the first counts.
pub fn bucket_by_url(groups: &[SmartGroup], default_url: &str) -> (r: Vec<Bucket>)
    ensures
        bucket_views(r@) == buckets_of(group_views(groups@), default_url@, groups@.len() as int),
        in_url_order(bucket_views(r@)),
{
    let ghost gs = group_views(groups@);
    let mut out: Vec<Bucket> = Vec::new();
    let mut i: usize = 0;
    assert(bucket_views(out@) =~= Seq::<BucketView>::empty());
    while i < groups.len()
        invariant
            i <= groups@.len(),
            gs == group_views(groups@),
            bucket_views(out@) == buckets_of(gs, default_url@, i as int),
        decreases groups@.len() - i,
    {
        let g = &groups[i];
        assert(gs[i as int] == g@);
        if !occurs_before(groups, i) {
            let cs = text::chars_of(g.url.as_str());
            let url = if cs.len() == 0 {
                default_url.to_owned()
            } else {
                g.url.clone()
            };
            let ghost before = bucket_views(out@);
            match find_bucket(&out, url.as_str()) {
                Some(k) => {
                    let mut b = out.remove(k);
                    let ghost held = group_views(b.groups@);
                    assert(b@ == before[k as int]);
                    b.groups.push(copy_group(g));
                    assert(group_views(b.groups@) =~= held.push(g@));
                    proof {
                        lemma_bucket_from(before, url@, 0);
                    }
                    out.insert(k, b);
                    assert(bucket_views(out@) =~= with_group(before, url@, g@));
                },
                None => {
                    let mut list: Vec<SmartGroup> = Vec::new();
                    list.push(copy_group(g));
                    assert(group_views(list@) =~= seq![g@]);
                    let at: usize = find_place(&out, url.as_str());
                    let ghost u = url@;
                    out.insert(at, Bucket { url, groups: list });
                    assert(bucket_views(out@) =~= with_group(before, u, g@));
                },
            }
        }
        i = i + 1;
    }
    proof {
        law_buckets_are_in_order(gs, default_url@, groups@.len() as int);
    }
    out
}

/// The buckets stand in the order of their addresses, and no address stands twice.
pub proof fn law_buckets_are_in_order(gs: Seq<GroupView>, default_url: Seq<char>, n: int)
    ensures
        in_url_order(buckets_of(gs, default_url, n)),
    decreases n,
{
    if n > 0 {
        law_buckets_are_in_order(gs, default_url, n - 1);
        let bs = buckets_of(gs, default_url, n - 1);
        let url = effective_url(gs[n - 1], default_url);
        lemma_bucket_from(bs, url, 0);
        if bucket_from(bs, url, 0) >= bs.len() {
            lemma_bucket_missing(bs, url, 0);
            lemma_bucket_place(bs, url, 0);
            let p = bucket_place(bs, url, 0);
            let rs = with_group(bs, url, gs[n - 1]);
            assert forall|i: int, j: int| 0 <= i < j < rs.len() implies names::before(
                (#[trigger] rs[i]).url,
                (#[trigger] rs[j]).url,
            ) by {
                if p < bs.len() {
                    names::lemma_total(bs[p].url, url);
                }
                if i < p && j == p {
                    assert(names::before(bs[i].url, url));
                } else if i == p {
                    if p < j - 1 {
                        names::lemma_order(url, bs[p].url, bs[j - 1].url);
                    }
                } else if i > p {
                    assert(rs[i] == bs[i - 1]);
                    assert(rs[j] == bs[j - 1]);
                } else if j > p {
                    assert(rs[i] == bs[i]);
                    assert(rs[j] == bs[j - 1]);
                }
            }
        }
    }
}

/// An address that is not found has no bucket.
proof fn lemma_bucket_missing(bs: Seq<BucketView>, url: Seq<char>, i: int)
    requires
        0 <= i,
        bucket_from(bs, url, i) >= bs.len(),
    ensures
        forall|j: int| i <= j < bs.len() ==> (#[trigger] bs[j]).url != url,
    decreases bs.len() - i,
{
    if i < bs.len() {
        lemma_bucket_missing(bs, url, i + 1);
    }
}

/// What stands before the place of an address comes before it, and what stands at
/// the place does not.
proof fn lemma_bucket_place(bs: Seq<BucketView>, url: Seq<char>, i: int)
    requires
        0 <= i <= bs.len(),
    ensures
        i <= bucket_place(bs, url, i) <= bs.len(),
        forall|j: int|
            i <= j < bucket_place(bs, url, i) ==> names::before((#[trigger] bs[j]).url, url),
        bucket_place(bs, url, i) < bs.len() ==> !names::before(
            bs[bucket_place(bs, url, i)].url,
            url,
        ),
    decreases bs.len() - i,
{
    if i < bs.len() && names::before(bs[i].url, url) {
        lemma_bucket_place(bs, url, i + 1);
    }
}

/// What is found has the address.
proof fn lemma_bucket_from(bs: Seq<BucketView>, url: Seq<char>, i: int)
    ensures
        bucket_from(bs, url, i) < bs.len() ==> 0 <= bucket_from(bs, url, i) && bs[bucket_from(
            bs,
            url,
            i,
        )].url == url,
    decreases bs.len() - i,
{
    if 0 <= i < bs.len() && bs[i].url != url {
        lemma_bucket_from(bs, url, i + 1);
    }
}

/// Whether the name of a group occurs before it.
fn occurs_before(groups: &[SmartGroup], n: usize) -> (r: bool)
    requires
        n < groups@.len(),
    ensures
        r == named_before(group_views(groups@), groups@[n as int].name@, n as int),
{
    let ghost gs = group_views(groups@);
    let mut i: usize = 0;
    while i < n
        invariant
            i <= n,
            n < groups@.len(),
            gs == group_views(groups@),
            forall|j: int| 0 <= j < i ==> (#[trigger] gs[j]).name != groups@[n as int].name@,
        decreases n - i,
    {
        assert(gs[i as int].name == groups@[i as int].name@);
        if text::same_str(groups[i].name.as_str(), groups[n].name.as_str()) {
            return true;
        }
        i = i + 1;
    }
    false
}

/// The names of groups.
pub fn group_names(gs: &[SmartGroup]) -> (r: Vec<String>)
    ensures
        text::strings(r@) == names_of(group_views(gs@)),
{
    let mut out: Vec<String> = Vec::new();
    let mut i: usize = 0;
    while i < gs.len()
        invariant
            i <= gs@.len(),
            out@.len() == i,
            forall|j: int| 0 <= j < i ==> (#[trigger] out@[j])@ == gs@[j].name@,
        decreases gs@.len() - i,
    {
        out.push(gs[i].name.clone());
        i = i + 1;
    }
    assert(text::strings(out@) =~= names_of(group_views(gs@)));
    out
}

/// The names of groups.
pub open spec fn names_of(gs: Seq<GroupView>) -> Seq<Seq<char>> {
    Seq::new(gs.len(), |i: int| gs[i].name)
}

/// A task that tests the groups of one address: the address and their names.
pub struct Runner {
    pub url: String,
    pub names: Vec<String>,
}

/// Whether a task does what a bucket asks for.
pub open spec fn serves(r: Runner, b: BucketView) -> bool {
    r.url@ == b.url && text::strings(r.names@) == names_of(b.groups)
}

/// Whether two lists hold the same texts in the same order.
fn same_lists(a: &Vec<String>, b: &Vec<String>) -> (r: bool)
    ensures
        r == (text::strings(a@) == text::strings(b@)),
{
    if a.len() != b.len() {
        assert(text::strings(a@).len() != text::strings(b@).len());
        return false;
    }
    let mut i: usize = 0;
    while i < a.len()
        invariant
            i <= a@.len(),
            a@.len() == b@.len(),
            forall|j: int| 0 <= j < i ==> (#[trigger] a@[j])@ == b@[j]@,
        decreases a@.len() - i,
    {
        if !text::same_str(a[i].as_str(), b[i].as_str()) {
            assert(text::strings(a@)[i as int] != text::strings(b@)[i as int]);
            return false;
        }
        i = i + 1;
    }
    assert(text::strings(a@) =~= text::strings(b@));
    true
}

/// Whether a task goes on: its address is still fetched, by the same groups.
pub open spec fn stays(r: Runner, bs: Seq<BucketView>) -> bool {
    let i = bucket_from(bs, r.url@, 0);
    i < bs.len() && serves(r, bs[i])
}

/// Whether a task goes on.
pub fn keeps_running(r: &Runner, buckets: &Vec<Bucket>) -> (ok: bool)
    ensures
        ok == stays(*r, bucket_views(buckets@)),
{
    match find_bucket(buckets, r.url.as_str()) {
        Some(i) => {
            proof {
                lemma_bucket_from(bucket_views(buckets@), r.url@, 0);
            }
            let names = group_names(buckets[i].groups.as_slice());
            same_lists(&names, &r.names)
        },
        None => false,
    }
}

/// What is done with the tasks when the groups are looked at.
pub struct RunnerPlan {
    /// The places of the tasks that end.
    pub stop: Vec<usize>,
    /// The places of the buckets that get a task.
    pub start: Vec<usize>,
}

/// The places of those among the first `n` tasks that end.
pub open spec fn ending(rs: Seq<Runner>, bs: Seq<BucketView>, n: int) -> Seq<int>
    decreases n,
{
    if n <= 0 {
        Seq::empty()
    } else if stays(rs[n - 1], bs) {
        ending(rs, bs, n - 1)
    } else {
        ending(rs, bs, n - 1).push(n - 1)
    }
}

/// Whether one of the tasks goes on and fetches an address.
pub open spec fn served(rs: Seq<Runner>, bs: Seq<BucketView>, url: Seq<char>) -> bool {
    exists|i: int| 0 <= i < rs.len() && (#[trigger] rs[i]).url@ == url && stays(rs[i], bs)
}

/// The places of those among the first `n` buckets that no task serves.
pub open spec fn unserved(rs: Seq<Runner>, bs: Seq<BucketView>, n: int) -> Seq<int>
    decreases n,
{
    if n <= 0 {
        Seq::empty()
    } else if served(rs, bs, bs[n - 1].url) {
        unserved(rs, bs, n - 1)
    } else {
        unserved(rs, bs, n - 1).push(n - 1)
    }
}

/// Whether one of the tasks goes on and fetches an address.
fn is_served(rs: &[Runner], buckets: &Vec<Bucket>, url: &str) -> (r: bool)
    ensures
        r == served(rs@, bucket_views(buckets@), url@),
{
    let mut i: usize = 0;
    while i < rs.len()
        invariant
            i <= rs@.len(),
            forall|j: int|
                0 <= j < i ==> !((#[trigger] rs@[j]).url@ == url@ && stays(
                    rs@[j],
                    bucket_views(buckets@),
                )),
        decreases rs@.len() - i,
    {
        if text::same_str(rs[i].url.as_str(), url) && keeps_running(&rs[i], buckets) {
            assert(rs@[i as int].url@ == url@);
            return true;
        }
        i = i + 1;
    }
    false
}

/// What is done with the tasks when the groups are looked at: one that does not do what
/// its bucket asks for ends, and a bucket without a task gets one.
pub fn plan_runners(rs: &[Runner], buckets: &Vec<Bucket>) -> (r: RunnerPlan)
    ensures
        places(r.stop@) == ending(rs@, bucket_views(buckets@), rs@.len() as int),
        places(r.start@) == unserved(rs@, bucket_views(buckets@), buckets@.len() as int),
{
    let ghost bs = bucket_views(buckets@);
    let mut stop: Vec<usize> = Vec::new();
    let mut i: usize = 0;
    assert(places(stop@) =~= Seq::<int>::empty());
    while i < rs.len()
        invariant
            i <= rs@.len(),
            bs == bucket_views(buckets@),
            places(stop@) == ending(rs@, bs, i as int),
        decreases rs@.len() - i,
    {
        if !keeps_running(&rs[i], buckets) {
            let ghost before = places(stop@);
            stop.push(i);
            assert(places(stop@) =~= before.push(i as int));
        }
        i = i + 1;
    }
    let mut start: Vec<usize> = Vec::new();
    let mut k: usize = 0;
    assert(places(start@) =~= Seq::<int>::empty());
    while k < buckets.len()
        invariant
            k <= buckets@.len(),
            bs == bucket_views(buckets@),
            places(start@) == unserved(rs@, bs, k as int),
        decreases buckets@.len() - k,
    {
        assert(bs[k as int].url == buckets@[k as int].url@);
        if !is_served(rs, buckets, buckets[k].url.as_str()) {
            let ghost before = places(start@);
            start.push(k);
            assert(places(start@) =~= before.push(k as int));
        }
        k = k + 1;
    }
    RunnerPlan { stop, start }
}

/// Where every task does what its bucket asks for and every bucket has a task, nothing is
/// done.
pub proof fn law_runners_settle(rs: Seq<Runner>, bs: Seq<BucketView>, n: int, m: int)
    requires
        0 <= n <= rs.len(),
        0 <= m <= bs.len(),
        forall|i: int| 0 <= i < rs.len() ==> stays(#[trigger] rs[i], bs),
        forall|i: int| 0 <= i < bs.len() ==> served(rs, bs, (#[trigger] bs[i]).url),
    ensures
        ending(rs, bs, n) == Seq::<int>::empty(),
        unserved(rs, bs, m) == Seq::<int>::empty(),
    decreases n + m,
{
    if n > 0 {
        law_runners_settle(rs, bs, n - 1, m);
        assert(stays(rs[n - 1], bs));
    }
    if m > 0 {
        law_runners_settle(rs, bs, n, m - 1);
        assert(served(rs, bs, bs[m - 1].url));
    }
}

/// What is known of a node: for the address that is fetched where there is
/// anything, else in general.
pub open spec fn known_delays(node: RawNode, url: Seq<char>) -> Seq<Option<u64>> {
    if node.extra@.contains_key(url) && node.extra@[url]@.len() > 0 {
        node.extra@[url]@
    } else {
        node.history@
    }
}

/// A time as a sample: zero stands for no answer.
pub open spec fn as_sample(d: u64) -> Option<u32> {
    if d == 0 {
        None
    } else {
        Some((d % 0x1_0000_0000) as u32)
    }
}

/// What is known of a node once the times from a place on were added.
pub open spec fn seeded_from(
    h: Map<Seq<char>, Seq<Option<u32>>>,
    name: Seq<char>,
    ds: Seq<Option<u64>>,
    from: int,
    n: int,
) -> Map<Seq<char>, Seq<Option<u32>>>
    decreases n - from,
{
    if n <= from {
        h
    } else {
        let before = seeded_from(h, name, ds, from, n - 1);
        match ds[n - 1] {
            Some(d) => sampled(before, name, as_sample(d)),
            None => before,
        }
    }
}

/// Whether there is a time from a place on.
pub open spec fn any_from(ds: Seq<Option<u64>>, from: int, n: int) -> bool {
    exists|i: int| from <= i < n && (#[trigger] ds[i]) is Some
}

/// The provider of a name, from a place on.
pub open spec fn named_provider(ps: Seq<RawProvider>, name: Seq<char>, i: int) -> Option<int>
    decreases ps.len() - i,
{
    if i < 0 || i >= ps.len() {
        None
    } else if ps[i].name@ == name {
        Some(i)
    } else {
        named_provider(ps, name, i + 1)
    }
}

/// What clash or the provider of a member knows of it.
pub open spec fn node_of(
    proxies: Map<Seq<char>, RawNode>,
    providers: Seq<RawProvider>,
    m: MemberView,
) -> Option<RawNode> {
    if proxies.contains_key(m.name) {
        Some(proxies[m.name])
    } else {
        match m.provider {
            Some(p) => match named_provider(providers, p, 0) {
                Some(i) => match node_from(providers[i].proxies@, m.name, 0) {
                    Some(j) => Some(providers[i].proxies@[j]),
                    None => None,
                },
                None => None,
            },
            None => None,
        }
    }
}

/// Where the times that are taken over start: the last ones are.
pub open spec fn seed_start(len: int) -> int {
    if len > HIST_CAP {
        len - HIST_CAP
    } else {
        0
    }
}

/// What is known after the first `n` members, and for how many of them something
/// was taken over.
pub open spec fn seeded(
    h: Map<Seq<char>, Seq<Option<u32>>>,
    ms: Seq<MemberView>,
    proxies: Map<Seq<char>, RawNode>,
    providers: Seq<RawProvider>,
    url: Seq<char>,
    n: int,
) -> (Map<Seq<char>, Seq<Option<u32>>>, int)
    decreases n,
{
    if n <= 0 {
        (h, 0)
    } else {
        let (before, count) = seeded(h, ms, proxies, providers, url, n - 1);
        let m = ms[n - 1];
        match node_of(proxies, providers, m) {
            Some(node) => if samples_of(before, m.name).len() == 0 {
                let ds = known_delays(node, url);
                let from = seed_start(ds.len() as int);
                (
                    seeded_from(before, m.name, ds, from, ds.len() as int),
                    if any_from(ds, from, ds.len() as int) {
                        count + 1
                    } else {
                        count
                    },
                )
            } else {
                (before, count)
            },
            None => (before, count),
        }
    }
}

/// The provider of a name.
fn find_named_provider(ps: &Vec<RawProvider>, name: &str) -> (r: Option<usize>)
    ensures
        match r {
            Some(i) => i < ps@.len() && named_provider(ps@, name@, 0) == Some(i as int),
            None => named_provider(ps@, name@, 0) is None,
        },
{
    let mut i: usize = 0;
    while i < ps.len()
        invariant
            i <= ps@.len(),
            named_provider(ps@, name@, 0) == named_provider(ps@, name@, i as int),
        decreases ps@.len() - i,
    {
        if text::same_str(ps[i].name.as_str(), name) {
            return Some(i);
        }
        i = i + 1;
    }
    None
}

/// What clash or the provider of a member knows of it.
fn find_node_of<'a>(px: &'a RawProxies, providers: Option<&'a RawProviders>, m: &Member) -> (r:
    Option<&'a RawNode>)
    requires
        px.proxies.wf(),
    ensures
        match r {
            Some(n) => node_of(
                px.proxies@,
                provided(providers),
                m@,
            ) == Some(*n),
            None => node_of(
                px.proxies@,
                provided(providers),
                m@,
            ) is None,
        },
{
    match px.proxies.get(m.name.as_str()) {
        Some(n) => return Some(n),
        None => {},
    }
    match (&m.provider, providers) {
        (Some(p), Some(pv)) => match find_named_provider(&pv.providers, p.as_str()) {
            Some(i) => match find_node(&pv.providers[i].proxies, m.name.as_str()) {
                Some(j) => Some(&pv.providers[i].proxies[j]),
                None => None,
            },
            None => None,
        },
        _ => None,
    }
}

/// Adds the last times of a list as samples of a node. Tells whether there was
/// any.
fn seed_node(st: &mut GroupState, name: &str, ds: &Vec<Option<u64>>) -> (r: bool)
    requires
        old(st).wf(),
    ensures
        final(st).wf(),
        final(st)@ == seeded_from(
            old(st)@,
            name@,
            ds@,
            seed_start(ds@.len() as int),
            ds@.len() as int,
        ),
        r == any_from(ds@, seed_start(ds@.len() as int), ds@.len() as int),
{
    let ghost h = st@;
    let n: usize = ds.len();
    let from: usize = if n > HIST_CAP {
        n - HIST_CAP
    } else {
        0
    };
    let mut any = false;
    let mut i: usize = from;
    while i < n
        invariant
            from <= i <= n,
            n == ds@.len(),
            st.wf(),
            st@ == seeded_from(h, name@, ds@, from as int, i as int),
            any == any_from(ds@, from as int, i as int),
        decreases n - i,
    {
        match ds[i] {
            Some(d) => {
                st.push(
                    name,
                    if d == 0 {
                        None
                    } else {
                        Some((d % 0x1_0000_0000) as u32)
                    },
                );
                assert(ds@[i as int] is Some);
                any = true;
            },
            None => {
                proof {
                    if any_from(ds@, from as int, i + 1) {
                        let j = choose|j: int| from <= j < i + 1 && (#[trigger] ds@[j]) is Some;
                        assert(j < i);
                    }
                    if any {
                        let j = choose|j: int| from <= j < i && (#[trigger] ds@[j]) is Some;
                        assert(ds@[j] is Some);
                    }
                }
            },
        }
        i = i + 1;
    }
    any
}

/// Takes over what clash knows of the members of which nothing is known. Tells for
/// how many it did.
pub fn seed_from_clash(
    st: &mut GroupState,
    members: &[Member],
    px: &RawProxies,
    providers: Option<&RawProviders>,
    url: &str,
) -> (r: usize)
    requires
        old(st).wf(),
        px.proxies.wf(),
        forall|k: Seq<char>|
            px.proxies@.contains_key(k) ==> (#[trigger] px.proxies@[k]).extra.wf(),
        forall|i: int, j: int|
            0 <= i < provided(providers).len() && 0 <= j < provided(providers)[i].proxies@.len() ==> (#[trigger] provided(providers)[i].proxies@[j]).extra.wf(),
    ensures
        final(st).wf(),
        (final(st)@, r as int) == seeded(
            old(st)@,
            member_views(members@),
            px.proxies@,
            provided(providers),
            url@,
            members@.len() as int,
        ),
{
    let ghost h = st@;
    let ghost ms = member_views(members@);
    let ghost ps = provided(providers);
    let mut count: usize = 0;
    let mut i: usize = 0;
    while i < members.len()
        invariant
            i <= members@.len(),
            count <= i,
            st.wf(),
            px.proxies.wf(),
            forall|k: Seq<char>|
                px.proxies@.contains_key(k) ==> (#[trigger] px.proxies@[k]).extra.wf(),
            forall|i: int, j: int|
                0 <= i < ps.len() && 0 <= j < ps[i].proxies@.len() ==> (#[trigger] ps[i].proxies@[j]).extra.wf(),
            ms == member_views(members@),
            ps == provided(providers),
            (st@, count as int) == seeded(h, ms, px.proxies@, ps, url@, i as int),
        decreases members@.len() - i,
    {
        let m = &members[i];
        assert(ms[i as int] == m@);
        if st.untested(m.name.as_str()) {
            match find_node_of(px, providers, m) {
                Some(node) => {
                    proof {
                        if !px.proxies@.contains_key(m.name@) {
                            let p = named_provider(ps, m@.provider->0, 0)->0;
                            lemma_named_provider(ps, m@.provider->0, 0);
                            lemma_node_from(ps[p].proxies@, m.name@, 0);
                        }
                        assert(node.extra.wf());
                    }
                    let ds = match node.extra.get(url) {
                        Some(b) => if b.len() > 0 {
                            b
                        } else {
                            &node.history
                        },
                        None => &node.history,
                    };
                    assert(ds@ == known_delays(*node, url@));
                    if seed_node(st, m.name.as_str(), ds) {
                        count = count + 1;
                    }
                },
                None => {},
            }
        }
        i = i + 1;
    }
    count
}

/// What is found lies within the list.
proof fn lemma_named_provider(ps: Seq<RawProvider>, name: Seq<char>, i: int)
    ensures
        named_provider(ps, name, i) matches Some(k) ==> 0 <= k < ps.len(),
    decreases ps.len() - i,
{
    if 0 <= i < ps.len() && ps[i].name@ != name {
        lemma_named_provider(ps, name, i + 1);
    }
}

/// What is done with a group in a round.
pub enum Pass {
    /// Nothing: no node of it can be tested.
    Skip,
    /// Nothing is known of any node: all are tested, with more and more patience.
    Ladder,
    /// The members at these places are tested at once, and then all one by one.
    Sweep(Vec<usize>),
}

/// Whether nothing is known of a member.
pub open spec fn blank(h: Map<Seq<char>, Seq<Option<u32>>>, ms: Seq<MemberView>, i: int) -> bool {
    samples_of(h, ms[i].name).len() == 0
}

/// The places among the first `n` members of which nothing is known.
pub open spec fn blanks(h: Map<Seq<char>, Seq<Option<u32>>>, ms: Seq<MemberView>, n: int) -> Seq<int>
    decreases n,
{
    if n <= 0 {
        Seq::empty()
    } else if blank(h, ms, n - 1) {
        blanks(h, ms, n - 1).push(n - 1)
    } else {
        blanks(h, ms, n - 1)
    }
}

/// Places, as numbers.
pub open spec fn places(v: Seq<usize>) -> Seq<int> {
    Seq::new(v.len(), |i: int| v[i] as int)
}

/// What is done with a group in a round.
pub fn plan_pass(st: &GroupState, members: &[Member]) -> (r: Pass)
    requires
        st.wf(),
    ensures
        ({
            let ms = member_views(members@);
            let b = blanks(st@, ms, ms.len() as int);
            match r {
                Pass::Skip => ms.len() == 0,
                Pass::Ladder => ms.len() > 0 && b.len() == ms.len(),
                Pass::Sweep(at) => ms.len() > 0 && b.len() != ms.len() && places(at@) == b,
            }
        }),
{
    let ghost ms = member_views(members@);
    if members.len() == 0 {
        return Pass::Skip;
    }
    let mut at: Vec<usize> = Vec::new();
    let mut i: usize = 0;
    assert(places(at@) =~= Seq::<int>::empty());
    while i < members.len()
        invariant
            i <= members@.len(),
            st.wf(),
            ms == member_views(members@),
            places(at@) == blanks(st@, ms, i as int),
            at@.len() <= i,
        decreases members@.len() - i,
    {
        let ghost before = places(at@);
        assert(ms[i as int] == members@[i as int]@);
        if st.untested(members[i].name.as_str()) {
            at.push(i);
            assert(places(at@) =~= before.push(i as int));
        }
        i = i + 1;
    }
    assert(places(at@).len() == at@.len());
    if at.len() == members.len() {
        Pass::Ladder
    } else {
        Pass::Sweep(at)
    }
}

/// The place of the lowest score; the first where it is shared.
pub open spec fn is_best(scores: Seq<u64>, b: int) -> bool {
    &&& 0 <= b < scores.len()
    &&& forall|i: int| 0 <= i < scores.len() ==> scores[b] <= #[trigger] scores[i]
    &&& forall|i: int| 0 <= i < b ==> scores[b] < #[trigger] scores[i]
}

/// The place of the lowest score; the first where it is shared.
pub fn best_of(scores: &[u64]) -> (r: Option<usize>)
    ensures
        match r {
            Some(b) => is_best(scores@, b as int),
            None => scores@.len() == 0,
        },
{
    if scores.len() == 0 {
        return None;
    }
    let mut b: usize = 0;
    let mut i: usize = 1;
    while i < scores.len()
        invariant
            1 <= i <= scores@.len(),
            b < i,
            forall|j: int| 0 <= j < i ==> scores@[b as int] <= #[trigger] scores@[j],
            forall|j: int| 0 <= j < b ==> scores@[b as int] < #[trigger] scores@[j],
        decreases scores@.len() - i,
    {
        if scores[i] < scores[b] {
            b = i;
        }
        i = i + 1;
    }
    Some(b)
}

/// Whether a place comes before another when members are ordered by score: those
/// with one score keep their order.
pub open spec fn sooner(scores: Seq<u64>, a: int, b: int) -> bool {
    scores[a] < scores[b] || (scores[a] == scores[b] && a < b)
}

/// Whether places are in the order of their scores, each once.
pub open spec fn by_score(scores: Seq<u64>, at: Seq<int>) -> bool {
    forall|i: int, j: int|
        0 <= i < j < at.len() ==> sooner(scores, #[trigger] at[i], #[trigger] at[j])
}

/// The places of the members other than the current node, in the order in which
/// they are tested: the lowest score first, and those with one score in the order
/// of the members.
pub fn sweep_order(members: &[Member], current: &str, scores: &[u64]) -> (r: Vec<usize>)
    requires
        scores@.len() == members@.len(),
    ensures
        by_score(scores@, places(r@)),
        forall|i: int|
            #[trigger] places(r@).contains(i) <==> (0 <= i < members@.len()
                && members@[i].name@ != current@),
{
    let mut at: Vec<usize> = Vec::new();
    let mut n: usize = 0;
    assert(places(at@) =~= Seq::<int>::empty());
    while n < members.len()
        invariant
            n <= members@.len(),
            scores@.len() == members@.len(),
            by_score(scores@, places(at@)),
            forall|i: int|
                #[trigger] places(at@).contains(i) <==> (0 <= i < n && members@[i].name@
                    != current@),
        decreases members@.len() - n,
    {
        if !text::same_str(members[n].name.as_str(), current) {
            let ghost before = places(at@);
            let len: usize = at.len();
            let mut k: usize = 0;
            proof {
                assert forall|i: int| 0 <= i < before.len() implies 0 <= #[trigger] before[i] < n by {
                    assert(before.contains(before[i]));
                }
            }
            assert forall|i: int| 0 <= i < at@.len() implies (#[trigger] at@[i]) < n by {
                assert(before[i] == at@[i]);
            }
            while k < len && scores[at[k]] <= scores[n]
                invariant
                    k <= len,
                    len == at@.len(),
                    n < members@.len(),
                    scores@.len() == members@.len(),
                    before == places(at@),
                    forall|i: int| 0 <= i < before.len() ==> 0 <= #[trigger] before[i] < n,
                    forall|i: int| 0 <= i < at@.len() ==> (#[trigger] at@[i]) < n,
                    forall|i: int| 0 <= i < k ==> scores@[#[trigger] before[i]] <= scores@[n as int],
                decreases len - k,
            {
                assert(before[k as int] == at@[k as int]);
                k = k + 1;
            }
            at.insert(k, n);
            proof {
                let p = places(at@);
                assert(p =~= before.insert(k as int, n as int));
                assert forall|i: int, j: int| 0 <= i < j < p.len() implies sooner(
                    scores@,
                    #[trigger] p[i],
                    #[trigger] p[j],
                ) by {
                    if i < k && j < k {
                        assert(sooner(scores@, before[i], before[j]));
                    } else if i < k && j == k {
                        assert(scores@[before[i]] <= scores@[n as int]);
                    } else if i < k {
                        assert(sooner(scores@, before[i], before[j - 1]));
                    } else if i == k {
                        assert(before[k as int] == at@[k + 1]);
                        if j - 1 > k {
                            assert(sooner(scores@, before[k as int], before[j - 1]));
                        }
                    } else {
                        assert(sooner(scores@, before[i - 1], before[j - 1]));
                    }
                }
                assert forall|i: int| #[trigger] p.contains(i) <==> (0 <= i < n + 1
                    && members@[i].name@ != current@) by {
                    if p.contains(i) {
                        let j = choose|j: int| 0 <= j < p.len() && p[j] == i;
                        if j < k {
                            assert(before[j] == i);
                            assert(before.contains(i));
                        } else if j > k {
                            assert(before[j - 1] == i);
                            assert(before.contains(i));
                        }
                    }
                    if 0 <= i < n && members@[i].name@ != current@ {
                        assert(before.contains(i));
                        let j = choose|j: int| 0 <= j < before.len() && before[j] == i;
                        if j < k {
                            assert(p[j] == i);
                        } else {
                            assert(p[j + 1] == i);
                        }
                    }
                    if i == n {
                        assert(p[k as int] == i);
                    }
                }
            }
        }
        n = n + 1;
    }
    at
}

/// The place of the fastest answer of a round; the first where it is shared.
pub open spec fn is_fastest(ds: Seq<Option<u32>>, b: int) -> bool {
    &&& 0 <= b < ds.len()
    &&& ds[b] matches Some(x) && {
        &&& forall|i: int| 0 <= i < ds.len() ==> ((#[trigger] ds[i]) matches Some(y) ==> x <= y)
        &&& forall|i: int| 0 <= i < b ==> ((#[trigger] ds[i]) matches Some(y) ==> x < y)
    }
}

/// The place of the fastest answer of a round; `None` where there was no answer.
pub fn fastest(ds: &[Option<u32>]) -> (r: Option<usize>)
    ensures
        match r {
            Some(b) => is_fastest(ds@, b as int),
            None => forall|i: int| 0 <= i < ds@.len() ==> (#[trigger] ds@[i]) is None,
        },
{
    let mut best: Option<usize> = None;
    let mut i: usize = 0;
    while i < ds.len()
        invariant
            i <= ds@.len(),
            match best {
                Some(b) => b < i && is_fastest(ds@.subrange(0, i as int), b as int),
                None => forall|j: int| 0 <= j < i ==> (#[trigger] ds@[j]) is None,
            },
        decreases ds@.len() - i,
    {
        let ghost before = ds@.subrange(0, i as int);
        let ghost now = ds@.subrange(0, i + 1);
        assert(now =~= before.push(ds@[i as int]));
        match (ds[i], best) {
            (Some(d), Some(b)) => {
                assert(before[b as int] == ds@[b as int]);
                if let Some(x) = ds[b] {
                    if d < x {
                        best = Some(i);
                    }
                }
            },
            (Some(_), None) => {
                best = Some(i);
                assert forall|j: int| 0 <= j < i implies (#[trigger] now[j]) is None by {
                    assert(now[j] == ds@[j]);
                }
            },
            (None, _) => {},
        }
        i = i + 1;
    }
    assert(ds@.subrange(0, ds@.len() as int) =~= ds@);
    best
}

/// Whether a character stands for itself in an address.
pub open spec fn stands_for_itself(b: u8) -> bool {
    ||| 48 <= b <= 57
    ||| 65 <= b <= 90
    ||| 97 <= b <= 122
    ||| b == 45
    ||| b == 46
    ||| b == 95
    ||| b == 126
}

/// A byte in an address: itself, or its number in hexadecimal after a percent
/// sign.
pub open spec fn escaped(b: u8) -> Seq<char> {
    if stands_for_itself(b) {
        seq![b as char]
    } else {
        seq!['%', hex_digit(b as int / 16), hex_digit(b as int % 16)]
    }
}

/// A hexadecimal digit with capital letters.
pub open spec fn hex_digit(d: int) -> char {
    if d < 10 {
        (48 + d) as char
    } else {
        (55 + d) as char
    }
}

/// Bytes in an address.
pub open spec fn escaped_all(b: Seq<u8>) -> Seq<char>
    decreases b.len(),
{
    if b.len() == 0 {
        Seq::empty()
    } else {
        escaped_all(b.drop_last()) + escaped(b.last())
    }
}

/// A hexadecimal digit with capital letters.
fn hex_digit_of(d: u8) -> (r: char)
    requires
        d < 16,
    ensures
        r == hex_digit(d as int),
{
    if d < 10 {
        (48 + d) as char
    } else {
        (55 + d) as char
    }
}

/// A text as a part of an address.
pub fn pct_encode_segment(s: &str) -> (r: String)
    ensures
        r@ == escaped_all(bytes::utf8(s@)),
{
    let b = s.as_bytes();
    let mut out = String::new();
    let mut i: usize = 0;
    assert(b@.subrange(0, 0) =~= Seq::<u8>::empty());
    while i < b.len()
        invariant
            i <= b@.len(),
            out@ == escaped_all(b@.subrange(0, i as int)),
        decreases b@.len() - i,
    {
        let x: u8 = b[i];
        let ghost before = out@;
        if (48 <= x && x <= 57) || (65 <= x && x <= 90) || (97 <= x && x <= 122) || x == 45 || x
            == 46 || x == 95 || x == 126 {
            out.push(x as char);
        } else {
            out.push('%');
            out.push(hex_digit_of(x / 16));
            out.push(hex_digit_of(x % 16));
        }
        assert(out@ =~= before + escaped(x));
        assert(b@.subrange(0, i + 1).drop_last() =~= b@.subrange(0, i as int));
        i = i + 1;
    }
    assert(b@.subrange(0, b@.len() as int) =~= b@);
    out
}

/// The address under which clash tests a node.
pub open spec fn test_address(m: MemberView, url: Seq<char>, timeout_ms: int) -> Seq<char> {
    let name = escaped_all(bytes::utf8(m.name));
    let query = "?timeout="@ + text::decimal(timeout_ms) + "&url="@ + escaped_all(bytes::utf8(url));
    match m.provider {
        Some(p) => "/providers/proxies/"@ + escaped_all(bytes::utf8(p)) + "/"@ + name
            + "/healthcheck"@ + query,
        None => "/proxies/"@ + name + "/delay"@ + query,
    }
}

/// The address under which clash tests a node.
pub fn test_path(m: &Member, url: &str, timeout_ms: u64) -> (r: String)
    ensures
        r@ == test_address(m@, url@, timeout_ms as int),
{
    let name = pct_encode_segment(m.name.as_str());
    let mut query = "?timeout=".to_owned();
    text::push_decimal(&mut query, timeout_ms);
    query.append("&url=");
    query.append(pct_encode_segment(url).as_str());
    match &m.provider {
        Some(p) => {
            let mut out = "/providers/proxies/".to_owned();
            out.append(pct_encode_segment(p.as_str()).as_str());
            out.append("/");
            out.append(name.as_str());
            out.append("/healthcheck");
            out.append(query.as_str());
            assert(out@ =~= test_address(m@, url@, timeout_ms as int));
            out
        },
        None => {
            let mut out = "/proxies/".to_owned();
            out.append(name.as_str());
            out.append("/delay");
            out.append(query.as_str());
            assert(out@ =~= test_address(m@, url@, timeout_ms as int));
            out
        },
    }
}

/// The time that an answer to a test tells.
pub open spec fn delay_of(v: Shape) -> Option<u32> {
    match json::whole_at(v, "delay"@) {
        Some(d) => Some((d % 0x1_0000_0000) as u32),
        None => None,
    }
}

/// The time that an answer to a test tells; `None` where clash refused the test or
/// its answer cannot be read.
pub open spec fn tested(status: u16, body: Seq<u8>) -> Option<u32> {
    if status == 200 && vstd::utf8::valid_utf8(body) {
        match json::json_value(vstd::utf8::decode_utf8(body)) {
            Some(v) => delay_of(v),
            None => None,
        }
    } else {
        None
    }
}

/// The time that an answer to a test tells.
pub fn delay_in(v: &Json) -> (r: Option<u32>)
    ensures
        r == delay_of(v@),
{
    match v.u64_at("delay") {
        Some(d) => Some((d % 0x1_0000_0000) as u32),
        None => None,
    }
}

/// The time that an answer to a test tells; `None` where clash refused the test or
/// its answer cannot be read.
pub fn test_result(status: u16, body: &[u8]) -> (r: Option<u32>)
    ensures
        r == tested(status, body@),
{
    if status != 200 {
        return None;
    }
    match bytes::text_of(body) {
        Some(s) => match json::parse(s.as_str()) {
            Some(v) => delay_in(&v),
            None => None,
        },
        None => None,
    }
}

/// A request to the controller of clash.
pub open spec fn request(method: Seq<char>, path: Seq<char>, body: Option<Seq<char>>) -> Seq<char> {
    let head = method + " "@ + path + " HTTP/1.1\r\nHost: localhost\r\nConnection: close\r\n"@;
    match body {
        Some(b) => head + "Content-Type: application/json\r\nContent-Length: "@ + text::decimal(
            bytes::utf8(b).len() as int,
        ) + "\r\n\r\n"@ + b,
        None => head + "\r\n"@,
    }
}

/// A request to the controller of clash.
pub fn request_text(method: &str, path: &str, body: Option<&str>) -> (r: String)
    ensures
        r@ == request(method@, path@, text::opt_str(body)),
{
    let mut out = method.to_owned();
    out.append(" ");
    out.append(path);
    out.append(" HTTP/1.1\r\nHost: localhost\r\nConnection: close\r\n");
    match body {
        Some(b) => {
            out.append("Content-Type: application/json\r\nContent-Length: ");
            text::push_decimal(&mut out, b.as_bytes().len() as u64);
            out.append("\r\n\r\n");
            out.append(b);
        },
        None => {
            out.append("\r\n");
        },
    }
    assert(out@ =~= request(method@, path@, text::opt_str(body)));
    out
}

/// The address under which clash takes the node of a group.
pub fn select_path(group: &str) -> (r: String)
    ensures
        r@ == "/proxies/"@ + escaped_all(bytes::utf8(group@)),
{
    let mut out = "/proxies/".to_owned();
    out.append(pct_encode_segment(group).as_str());
    out
}

/// Whether a status says that clash did what it was asked to.
pub fn accepted(status: u16) -> (r: bool)
    ensures
        r == (200 <= status < 300),
{
    200 <= status && status < 300
}

/// Whether the group changes to a node: its score is lower than that of the
/// current one.
pub fn switches(candidate: u64, current: u64) -> (r: bool)
    ensures
        r == (candidate < current),
{
    candidate < current
}

/// Where a name first stands among members, or their number.
pub open spec fn member_at(ms: Seq<MemberView>, name: Seq<char>, i: int) -> int
    decreases ms.len() - i,
{
    if i < 0 || i >= ms.len() {
        ms.len() as int
    } else if ms[i].name == name {
        i
    } else {
        member_at(ms, name, i + 1)
    }
}

/// The member that a round starts from, and whether it has to be selected first: the one
/// that is selected, or the one with the lowest score where that is no member any more.
pub fn sweep_start(members: &[Member], now: &str, scores: &[u64]) -> (r: (usize, bool))
    requires
        members@.len() > 0,
        scores@.len() == members@.len(),
    ensures
        r.0 < members@.len(),
        ({
            let at = member_at(member_views(members@), now@, 0);
            if at < members@.len() {
                r.0 == at && !r.1
            } else {
                is_best(scores@, r.0 as int) && r.1
            }
        }),
{
    let ghost ms = member_views(members@);
    let mut i: usize = 0;
    while i < members.len()
        invariant
            i <= members@.len(),
            ms == member_views(members@),
            member_at(ms, now@, 0) == member_at(ms, now@, i as int),
        decreases members@.len() - i,
    {
        assert(ms[i as int] == members@[i as int]@);
        if text::same_str(members[i].name.as_str(), now) {
            return (i, false);
        }
        i = i + 1;
    }
    match best_of(scores) {
        Some(b) => (b, true),
        None => (0, true),
    }
}

/// A round over the members of a group, one by one.
pub struct Sweep {
    order: Vec<usize>,
    at: usize,
    current: usize,
}

impl Sweep {
    /// The places of the members that are tested, in their order.
    pub closed spec fn order(&self) -> Seq<int> {
        places(self.order@)
    }

    /// How many were tested.
    pub closed spec fn done(&self) -> int {
        self.at as int
    }

    /// The place of the member that is selected.
    pub closed spec fn selected(&self) -> int {
        self.current as int
    }

    /// No more were tested than there are.
    pub open spec fn wf(&self) -> bool {
        0 <= self.done() <= self.order().len()
    }

    /// A round starts, once the member that is selected was tested: all others follow, the
    /// lowest score first.
    pub fn new(members: &[Member], current: usize, scores: &[u64]) -> (r: Sweep)
        requires
            current < members@.len(),
            scores@.len() == members@.len(),
        ensures
            r.wf(),
            r.done() == 0,
            r.selected() == current,
            by_score(scores@, r.order()),
            forall|i: int|
                #[trigger] r.order().contains(i) <==> (0 <= i < members@.len() && members@[i].name@
                    != members@[current as int].name@),
    {
        let order = sweep_order(members, members[current].name.as_str(), scores);
        Sweep { order, at: 0, current }
    }

    /// The place of the member that is tested next.
    pub fn next(&self) -> (r: Option<usize>)
        requires
            self.wf(),
        ensures
            match r {
                Some(i) => self.done() < self.order().len() && i == self.order()[self.done()],
                None => self.done() == self.order().len(),
            },
    {
        if self.at < self.order.len() {
            Some(self.order[self.at])
        } else {
            None
        }
    }

    /// A member was tested: it is selected where its score is lower than that of the
    /// selected one.
    pub fn tested(&mut self, candidate: u64, current: u64) -> (r: bool)
        requires
            old(self).wf(),
            old(self).done() < old(self).order().len(),
        ensures
            final(self).wf(),
            final(self).order() == old(self).order(),
            final(self).done() == old(self).done() + 1,
            r == (candidate < current),
            final(self).selected() == if r {
                old(self).order()[old(self).done()]
            } else {
                old(self).selected()
            },
    {
        let n: usize = self.order.len();
        assert(self.at < n);
        let i = self.order[self.at];
        self.at = self.at + 1;
        if switches(candidate, current) {
            self.current = i;
            true
        } else {
            false
        }
    }

    /// The place of the member that is selected.
    pub fn current(&self) -> (r: usize)
        ensures
            r == self.selected(),
    {
        self.current
    }
}

/// What follows a test of all members at once.
#[derive(Debug, Clone, Copy, PartialEq, Eq, Structural)]
pub enum Rise {
    /// None answered: all are tested again, with more patience.
    Again,
    /// The member at this place answered first; it is selected where this says so.
    Pick(usize, bool),
    /// None answered, and there is no more patience.
    GiveUp,
}

/// How long answers took.
pub open spec fn delays(v: Seq<(usize, Option<u32>)>) -> Seq<Option<u32>> {
    v.map_values(|r: (usize, Option<u32>)| r.1)
}

/// What is known once the first `n` answers were taken in; a member that did not answer
/// gets no sample.
pub open spec fn answered(
    h: Map<Seq<char>, Seq<Option<u32>>>,
    ms: Seq<MemberView>,
    v: Seq<(usize, Option<u32>)>,
    n: int,
) -> Map<Seq<char>, Seq<Option<u32>>>
    decreases n,
{
    if n <= 0 {
        h
    } else {
        let before = answered(h, ms, v, n - 1);
        match v[n - 1].1 {
            Some(d) => sampled(before, ms[v[n - 1].0 as int].name, Some(d)),
            None => before,
        }
    }
}

/// The tests of a group of which nothing is known: all members at once, with more and more
/// patience until one answers.
pub struct Ladder {
    at: usize,
}

impl Ladder {
    /// How often all were tested before.
    pub closed spec fn rung(&self) -> int {
        self.at as int
    }

    /// There is patience left.
    pub open spec fn wf(&self) -> bool {
        0 <= self.rung() < LADDER_MS@.len()
    }

    /// The first test is made.
    pub fn new() -> (r: Ladder)
        ensures
            r.wf(),
            r.rung() == 0,
    {
        Ladder { at: 0 }
    }

    /// How long answers are waited for, in milliseconds.
    pub fn timeout_ms(&self) -> (r: u64)
        requires
            self.wf(),
        ensures
            r == LADDER_MS@[self.rung()],
    {
        LADDER_MS[self.at]
    }

    /// All members were tested: takes in how long those at the given places took, and says
    /// what follows. `now` is the member that is selected.
    pub fn tested(
        &mut self,
        st: &mut GroupState,
        members: &[Member],
        results: &[(usize, Option<u32>)],
        now: &str,
    ) -> (r: Rise)
        requires
            old(self).wf(),
            old(st).wf(),
            forall|i: int| 0 <= i < results@.len() ==> (#[trigger] results@[i]).0 < members@.len(),
        ensures
            final(self).wf(),
            final(st).wf(),
            final(st)@ == answered(
                old(st)@,
                member_views(members@),
                results@,
                results@.len() as int,
            ),
            final(self).rung() == old(self).rung() + if r is Again {
                1int
            } else {
                0
            },
            match r {
                Rise::Again => no_answer(results@) && old(self).rung() < LADDER_MS@.len() - 1,
                Rise::GiveUp => no_answer(results@) && old(self).rung() == LADDER_MS@.len() - 1,
                Rise::Pick(m, select) => exists|b: int|
                    #[trigger] is_fastest(delays(results@), b) && m == results@[b].0 && select == (
                    members@[m as int].name@ != now@),
            },
    {
        let ghost start = st@;
        let ghost ms = member_views(members@);
        let mut ds: Vec<Option<u32>> = Vec::new();
        let mut i: usize = 0;
        while i < results.len()
            invariant
                i <= results@.len(),
                st.wf(),
                ms == member_views(members@),
                st@ == answered(start, ms, results@, i as int),
                ds@ =~= delays(results@).take(i as int),
                forall|j: int|
                    0 <= j < results@.len() ==> (#[trigger] results@[j]).0 < members@.len(),
            decreases results@.len() - i,
        {
            let (m, d) = results[i];
            assert(results@[i as int].0 < members@.len());
            assert(ms[m as int] == members@[m as int]@);
            if d.is_some() {
                st.push(members[m].name.as_str(), d);
            }
            ds.push(d);
            i = i + 1;
        }
        assert(ds@ =~= delays(results@));
        match fastest(ds.as_slice()) {
            Some(b) => {
                let m = results[b].0;
                assert(is_fastest(delays(results@), b as int));
                Rise::Pick(m, !text::same_str(members[m].name.as_str(), now))
            },
            None => {
                assert(no_answer(results@)) by {
                    assert forall|j: int| 0 <= j < results@.len() implies (#[trigger] results@[j]).1 is None by {
                        assert(ds@[j] == results@[j].1);
                    }
                }
                if self.at + 1 < LADDER_MS.len() {
                    self.at = self.at + 1;
                    Rise::Again
                } else {
                    Rise::GiveUp
                }
            },
        }
    }
}

/// No member answered.
pub open spec fn no_answer(v: Seq<(usize, Option<u32>)>) -> bool {
    forall|i: int| 0 <= i < v.len() ==> (#[trigger] v[i]).1 is None
}

/// The pause before the next round, in seconds.
pub fn pause_sec(failed: bool) -> (r: u64)
    ensures
        r == if failed {
            ERR_BACKOFF_SEC
        } else {
            CYCLE_GAP_SEC
        },
{
    if failed {
        ERR_BACKOFF_SEC
    } else {
        CYCLE_GAP_SEC
    }
}

/// The contents of a body that was sent in chunks.
pub fn dechunk(data: &[u8]) -> (r: Vec<u8>)
    ensures
        r@ == bytes::dechunked(data@, 0),
{
    bytes::dechunk(data)
}

/// The bytes that a part of an address stands for: two hexadecimal digits behind a percent
/// sign are a byte, and any other ASCII character is itself.
pub open spec fn unescaped(s: Seq<char>) -> Option<Seq<u8>>
    decreases s.len(),
{
    if s.len() == 0 {
        Some(Seq::empty())
    } else if s[0] == '%' {
        if s.len() >= 3 && text::is_digit(s[1], 16) && text::is_digit(s[2], 16) {
            match unescaped(s.skip(3)) {
                Some(r) => Some(
                    seq![(text::digit(s[1]) * 16 + text::digit(s[2])) as u8] + r,
                ),
                None => None,
            }
        } else {
            None
        }
    } else if s[0] as int <= 127 {
        match unescaped(s.skip(1)) {
            Some(r) => Some(seq![s[0] as u8] + r),
            None => None,
        }
    } else {
        None
    }
}

/// A byte in an address is read back, and so is what stands behind it.
proof fn lemma_unescaped(b: u8, s: Seq<char>)
    ensures
        unescaped(s) matches Some(r) ==> unescaped(escaped(b) + s) == Some(seq![b] + r),
{
    let t = escaped(b) + s;
    if stands_for_itself(b) {
        assert(t[0] == b as char);
        assert(t.skip(1) =~= s);
    } else {
        assert(t[0] == '%');
        assert(t[1] == hex_digit(b as int / 16));
        assert(t[2] == hex_digit(b as int % 16));
        assert(text::digit(hex_digit(b as int / 16)) == b as int / 16);
        assert(text::digit(hex_digit(b as int % 16)) == b as int % 16);
        assert(t.skip(3) =~= s);
    }
}

/// Bytes in an address are read back, and so is what stands behind them.
proof fn lemma_unescaped_all(b: Seq<u8>, s: Seq<char>)
    ensures
        unescaped(s) matches Some(r) ==> unescaped(escaped_all(b) + s) == Some(b + r),
    decreases b.len(),
{
    if b.len() == 0 {
        assert(escaped_all(b) + s =~= s);
        if let Some(r) = unescaped(s) {
            assert(b + r =~= r);
        }
    } else {
        let t = escaped(b.last()) + s;
        lemma_unescaped(b.last(), s);
        lemma_unescaped_all(b.drop_last(), t);
        assert(escaped_all(b) + s =~= escaped_all(b.drop_last()) + t);
        if let Some(r) = unescaped(s) {
            assert(b.drop_last() + (seq![b.last()] + r) =~= b + r);
        }
    }
}

/// None of the characters that divide an address stands in a part of it.
proof fn lemma_escaped_plain(b: Seq<u8>, i: int)
    requires
        0 <= i < escaped_all(b).len(),
    ensures
        escaped_all(b)[i] != '/',
        escaped_all(b)[i] != '?',
        escaped_all(b)[i] != '&',
        escaped_all(b)[i] != '=',
        escaped_all(b)[i] != '#',
        escaped_all(b)[i] != ' ',
    decreases b.len(),
{
    let less = escaped_all(b.drop_last());
    if i < less.len() {
        lemma_escaped_plain(b.drop_last(), i);
    }
}

/// A part of an address means the text that it was made from, and holds none of the
/// characters that divide an address.
pub proof fn law_a_part_is_read_back(s: Seq<char>)
    ensures
        unescaped(escaped_all(bytes::utf8(s))) == Some(bytes::utf8(s)),
        forall|i: int|
            0 <= i < escaped_all(bytes::utf8(s)).len() ==> {
                let c = #[trigger] escaped_all(bytes::utf8(s))[i];
                c != '/' && c != '?' && c != '&' && c != '=' && c != '#' && c != ' '
            },
{
    let b = bytes::utf8(s);
    let e = escaped_all(b);
    lemma_unescaped_all(b, Seq::empty());
    assert(e + Seq::<char>::empty() =~= e);
    assert(b + Seq::<u8>::empty() =~= b);
    assert forall|i: int| 0 <= i < e.len() implies {
        let c = #[trigger] e[i];
        c != '/' && c != '?' && c != '&' && c != '=' && c != '#' && c != ' '
    } by {
        lemma_escaped_plain(b, i);
    }
}

/// The test of a node is asked for under its own name. A node of a provider is looked for
/// at that provider: the path has the provider's name before the node's, and each means
/// exactly that name. The question holds the time that is allowed and the address that is
/// fetched.
pub proof fn law_a_test_names_its_node(m: MemberView, url: Seq<char>, timeout_ms: int)
    requires
        timeout_ms >= 0,
    ensures
        ({
            let cut = text::cut(test_address(m, url, timeout_ms), '?');
            let (front, question) = cut->0;
            let path = text::split(front, '/');
            let query = text::split(question, '&');
            &&& cut is Some
            &&& m.provider matches Some(p) ==> {
                &&& path.len() == 6
                &&& path[0] == ""@
                &&& path[1] == "providers"@
                &&& path[2] == "proxies"@
                &&& unescaped(path[3]) == Some(bytes::utf8(p))
                &&& unescaped(path[4]) == Some(bytes::utf8(m.name))
                &&& path[5] == "healthcheck"@
            }
            &&& m.provider is None ==> {
                &&& path.len() == 4
                &&& path[0] == ""@
                &&& path[1] == "proxies"@
                &&& unescaped(path[2]) == Some(bytes::utf8(m.name))
                &&& path[3] == "delay"@
            }
            &&& query.len() == 2
            &&& text::after(query[0], "timeout="@) == Some(text::decimal(timeout_ms))
            &&& text::after(query[1], "url="@) is Some
            &&& unescaped(text::after(query[1], "url="@)->0) == Some(bytes::utf8(url))
        }),
{
    let n = escaped_all(bytes::utf8(m.name));
    law_a_part_is_read_back(m.name);
    lemma_question(url, timeout_ms);
    let query = "timeout="@ + text::decimal(timeout_ms) + "&url="@ + escaped_all(bytes::utf8(url));
    reveal_strlit("?timeout=");
    reveal_strlit("timeout=");
    match m.provider {
        Some(p) => {
            law_a_part_is_read_back(p);
            let w = escaped_all(bytes::utf8(p));
            let before = "/providers/proxies/"@ + w + "/"@ + n + "/healthcheck"@;
            lemma_provider_path(w, n);
            assert(test_address(m, url, timeout_ms) =~= before + seq!['?'] + query);
            text::lemma_cut_first(before, query, '?');
        },
        None => {
            let before = "/proxies/"@ + n + "/delay"@;
            lemma_node_path(n);
            assert(test_address(m, url, timeout_ms) =~= before + seq!['?'] + query);
            text::lemma_cut_first(before, query, '?');
        },
    }
}

/// The parts of a question for a test.
proof fn lemma_question(url: Seq<char>, timeout_ms: int)
    requires
        timeout_ms >= 0,
    ensures
        ({
            let u = escaped_all(bytes::utf8(url));
            let query = text::split("timeout="@ + text::decimal(timeout_ms) + "&url="@ + u, '&');
            &&& query.len() == 2
            &&& text::after(query[0], "timeout="@) == Some(text::decimal(timeout_ms))
            &&& text::after(query[1], "url="@) == Some(u)
            &&& unescaped(u) == Some(bytes::utf8(url))
        }),
{
    let u = escaped_all(bytes::utf8(url));
    let d = text::decimal(timeout_ms);
    law_a_part_is_read_back(url);
    text::lemma_written(timeout_ms, 10);
    reveal_strlit("&url=");
    reveal_strlit("timeout=");
    reveal_strlit("url=");
    let q0 = "timeout="@ + d;
    let q1 = "url="@ + u;
    assert("timeout="@ + d + "&url="@ + u =~= q0 + seq!['&'] + q1);
    assert forall|i: int| 0 <= i < q0.len() implies #[trigger] q0[i] != '&' by {
        if i >= 8 {
            assert(text::is_digit(d[i - 8], 10));
        }
    }
    assert forall|i: int| 0 <= i < q1.len() implies #[trigger] q1[i] != '&' by {
        if i >= 4 {
            assert(q1[i] == u[i - 4]);
        }
    }
    text::lemma_split_first(q0, q1, '&');
    text::lemma_split_last(q1, '&');
    text::lemma_after("timeout="@, d);
    text::lemma_after("url="@, u);
}

/// The parts of the path to a node of a provider.
proof fn lemma_provider_path(w: Seq<char>, n: Seq<char>)
    requires
        forall|i: int| 0 <= i < w.len() ==> #[trigger] w[i] != '/' && w[i] != '?',
        forall|i: int| 0 <= i < n.len() ==> #[trigger] n[i] != '/' && n[i] != '?',
    ensures
        ({
            let s = "/providers/proxies/"@ + w + "/"@ + n + "/healthcheck"@;
            &&& text::split(s, '/') == seq![""@, "providers"@, "proxies"@, w, n, "healthcheck"@]
            &&& forall|i: int| 0 <= i < s.len() ==> #[trigger] s[i] != '?'
        }),
{
    reveal_strlit("");
    reveal_strlit("/");
    reveal_strlit("providers");
    reveal_strlit("proxies");
    reveal_strlit("healthcheck");
    reveal_strlit("/providers/proxies/");
    reveal_strlit("/healthcheck");
    let s = "/providers/proxies/"@ + w + "/"@ + n + "/healthcheck"@;
    let h = "healthcheck"@;
    let s4 = n + seq!['/'] + h;
    let s3 = w + seq!['/'] + s4;
    let s2 = "proxies"@ + seq!['/'] + s3;
    let s1 = "providers"@ + seq!['/'] + s2;
    assert(s =~= ""@ + seq!['/'] + s1);
    assert forall|i: int| 0 <= i < s.len() implies #[trigger] s[i] != '?' by {
        let j = i - 19;
        if 0 <= j < w.len() {
            assert(s[i] == w[j]);
        } else if w.len() < j <= w.len() + n.len() {
            assert(s[i] == n[j - w.len() - 1]);
        }
    }
    text::lemma_split_last(h, '/');
    text::lemma_split_first(n, h, '/');
    text::lemma_split_first(w, s4, '/');
    text::lemma_split_first("proxies"@, s3, '/');
    text::lemma_split_first("providers"@, s2, '/');
    text::lemma_split_first(""@, s1, '/');
    assert(text::split(s, '/') =~= seq![""@, "providers"@, "proxies"@, w, n, h]);
}

/// The parts of the path to a node without a provider.
proof fn lemma_node_path(n: Seq<char>)
    requires
        forall|i: int| 0 <= i < n.len() ==> #[trigger] n[i] != '/' && n[i] != '?',
    ensures
        ({
            let s = "/proxies/"@ + n + "/delay"@;
            &&& text::split(s, '/') == seq![""@, "proxies"@, n, "delay"@]
            &&& forall|i: int| 0 <= i < s.len() ==> #[trigger] s[i] != '?'
        }),
{
    reveal_strlit("");
    reveal_strlit("proxies");
    reveal_strlit("delay");
    reveal_strlit("/proxies/");
    reveal_strlit("/delay");
    let s = "/proxies/"@ + n + "/delay"@;
    let h = "delay"@;
    let s2 = n + seq!['/'] + h;
    let s1 = "proxies"@ + seq!['/'] + s2;
    assert(s =~= ""@ + seq!['/'] + s1);
    assert forall|i: int| 0 <= i < s.len() implies #[trigger] s[i] != '?' by {
        if 0 <= i - 9 < n.len() {
            assert(s[i] == n[i - 9]);
        }
    }
    text::lemma_split_last(h, '/');
    text::lemma_split_first(n, h, '/');
    text::lemma_split_first("proxies"@, s2, '/');
    text::lemma_split_first(""@, s1, '/');
    assert(text::split(s, '/') =~= seq![""@, "proxies"@, n, h]);
}

/// The node of a group is set under the group's own name.
pub proof fn law_a_group_is_set_by_its_name(group: Seq<char>)
    ensures
        ({
            let path = text::split("/proxies/"@ + escaped_all(bytes::utf8(group)), '/');
            &&& path.len() == 3
            &&& path[0] == ""@
            &&& path[1] == "proxies"@
            &&& unescaped(path[2]) == Some(bytes::utf8(group))
        }),
{
    law_a_part_is_read_back(group);
    let g = escaped_all(bytes::utf8(group));
    reveal_strlit("");
    reveal_strlit("proxies");
    reveal_strlit("/proxies/");
    let s1 = "proxies"@ + seq!['/'] + g;
    assert("/proxies/"@ + g =~= ""@ + seq!['/'] + s1);
    text::lemma_split_last(g, '/');
    text::lemma_split_first("proxies"@, g, '/');
    text::lemma_split_first(""@, s1, '/');
}

/// A node of a group is tested where its name is not one of the made-up ones, clash or one
/// of its providers knows it, and it carries traffic. It is looked for with clash itself
/// first, and then with the first provider that has it.
pub proof fn law_who_is_tested(
    proxies: Map<Seq<char>, RawNode>,
    providers: Seq<RawProvider>,
    name: Seq<char>,
)
    ensures
        name == "smartspeedtest@hide"@ || text::holds(name, "@@"@) ==> testable(
            proxies,
            providers,
            name,
        ) is None,
        testable(proxies, providers, name) matches Some(m) ==> m.name == name,
        name != "smartspeedtest@hide"@ && !text::holds(name, "@@"@) && proxies.contains_key(name)
            ==> match proxies[name].typ {
            Some(t) => if t@ == "Reject"@ || t@ == "RejectDrop"@ || t@ == "Pass"@ {
                testable(proxies, providers, name) is None
            } else {
                testable(proxies, providers, name) == Some(MemberView { name, provider: None })
            },
            None => testable(proxies, providers, name) == Some(
                MemberView { name, provider: None },
            ),
        },
        !proxies.contains_key(name) ==> (testable(proxies, providers, name) matches Some(m) ==> {
            exists|i: int, j: int|
                0 <= i < providers.len() && 0 <= j < providers[i].proxies@.len()
                    && text::opt_string((#[trigger] providers[i].proxies@[j]).name) == Some(name)
                    && m.provider == Some(providers[i].name@) && forall|k: int, l: int|
                    0 <= k < i && 0 <= l < providers[k].proxies@.len() ==> text::opt_string(
                        (#[trigger] providers[k].proxies@[l]).name,
                    ) != Some(name)
        }),
        !proxies.contains_key(name) && testable(proxies, providers, name) is None && name
            != "smartspeedtest@hide"@ && !text::holds(name, "@@"@) ==> forall|i: int, j: int|
            0 <= i < providers.len() && 0 <= j < providers[i].proxies@.len()
                && text::opt_string((#[trigger] providers[i].proxies@[j]).name) == Some(name)
                && !carries_nothing(or_empty(providers[i].proxies@[j].typ)) ==> exists|k: int, l: int|
                0 <= k <= i && 0 <= l < providers[k].proxies@.len() && text::opt_string(
                    (#[trigger] providers[k].proxies@[l]).name,
                ) == Some(name) && carries_nothing(or_empty(providers[k].proxies@[l].typ)),
        forall|t: Seq<char>| #[trigger]
            carries_nothing(t) <==> t == "Reject"@ || t == "RejectDrop"@ || t == "Pass"@,
{
    lemma_provider_from(providers, name, 0);
    reveal_strlit("Reject");
    reveal_strlit("RejectDrop");
    reveal_strlit("Pass");
    assert("Reject"@.len() == 6 && "RejectDrop"@.len() == 10 && "Pass"@.len() == 4);
}

/// The first node of a name.
proof fn lemma_first_node(ns: Seq<RawNode>, name: Seq<char>, j: int)
    requires
        0 <= j,
    ensures
        node_from(ns, name, j) matches Some(k) ==> j <= k < ns.len() && text::opt_string(ns[k].name)
            == Some(name),
        node_from(ns, name, j) is None ==> forall|l: int|
            j <= l < ns.len() ==> text::opt_string((#[trigger] ns[l]).name) != Some(name),
    decreases ns.len() - j,
{
    if j < ns.len() {
        lemma_first_node(ns, name, j + 1);
    }
}

/// The first provider that has a node of a name.
proof fn lemma_provider_from(ps: Seq<RawProvider>, name: Seq<char>, i: int)
    requires
        0 <= i,
    ensures
        provider_from(ps, name, i) matches Some((a, b)) ==> i <= a < ps.len() && 0 <= b
            < ps[a].proxies@.len() && text::opt_string(ps[a].proxies@[b].name) == Some(name)
            && forall|k: int, l: int|
            i <= k < a && 0 <= l < ps[k].proxies@.len() ==> text::opt_string(
                (#[trigger] ps[k].proxies@[l]).name,
            ) != Some(name),
        provider_from(ps, name, i) is None ==> forall|k: int, l: int|
            i <= k < ps.len() && 0 <= l < ps[k].proxies@.len() ==> text::opt_string(
                (#[trigger] ps[k].proxies@[l]).name,
            ) != Some(name),
    decreases ps.len() - i,
{
    if i < ps.len() {
        lemma_first_node(ps[i].proxies@, name, 0);
        lemma_provider_from(ps, name, i + 1);
    }
}

/// The nodes of a group that are tested are those of its list that can be, in their order,
/// and the node that it has now is the one that clash names.
pub proof fn law_tested_in_their_order(
    proxies: Map<Seq<char>, RawNode>,
    providers: Seq<RawProvider>,
    group: Seq<char>,
    f: spec_fn(Seq<char>) -> Option<MemberView>,
)
    requires
        forall|n: Seq<char>| #[trigger] f(n) == testable(proxies, providers, n),
    ensures
        !proxies.contains_key(group) ==> eligible(proxies, providers, group) is None,
        proxies.contains_key(group) && proxies[group].all is None ==> eligible(
            proxies,
            providers,
            group,
        ) is None,
        proxies.contains_key(group) && proxies[group].all is Some ==> eligible(
            proxies,
            providers,
            group,
        ) == Some(
            (
                text::strings(proxies[group].all->0@).filter_map(f),
                match proxies[group].now {
                    Some(n) => n@,
                    None => Seq::empty(),
                },
            ),
        ),
{
    if proxies.contains_key(group) && proxies[group].all is Some {
        let names = text::strings(proxies[group].all->0@);
        lemma_testable_among(proxies, providers, names, names.len() as int, f);
        assert(names.take(names.len() as int) =~= names);
    }
}

/// The nodes of a list that can be tested.
proof fn lemma_testable_among(
    proxies: Map<Seq<char>, RawNode>,
    providers: Seq<RawProvider>,
    all: Seq<Seq<char>>,
    n: int,
    f: spec_fn(Seq<char>) -> Option<MemberView>,
)
    requires
        0 <= n <= all.len(),
        forall|s: Seq<char>| #[trigger] f(s) == testable(proxies, providers, s),
    ensures
        testable_among(proxies, providers, all, n) == all.take(n).filter_map(f),
    decreases n,
{
    reveal(Seq::filter_map);
    if n > 0 {
        lemma_testable_among(proxies, providers, all, n - 1, f);
        assert(all.take(n).drop_last() =~= all.take(n - 1));
        let r = all.take(n - 1).filter_map(f);
        if let Some(m) = f(all[n - 1]) {
            assert(r + seq![m] =~= r.push(m));
        }
    }
}

/// Whether a group is the first of its name in a list.
pub open spec fn first_of_name(gs: Seq<GroupView>, i: int) -> bool {
    forall|j: int| 0 <= j < i ==> (#[trigger] gs[j]).name != gs[i].name
}

/// Whether a bucket of an address holds a group.
pub open spec fn in_bucket(bs: Seq<BucketView>, url: Seq<char>, g: GroupView) -> bool {
    exists|b: int| 0 <= b < bs.len() && (#[trigger] bs[b]).url == url && bs[b].groups.contains(g)
}

/// Every group has its nodes tested with its own address, and with the usual one where it
/// has none: it stands in the bucket of that address and of no other. Of groups with one
/// name the first counts, and no bucket holds anything else.
pub proof fn law_groups_are_tested_with_their_address(
    gs: Seq<GroupView>,
    default_url: Seq<char>,
    n: int,
    url: Seq<char>,
    g: GroupView,
)
    requires
        0 <= n <= gs.len(),
    ensures
        in_bucket(buckets_of(gs, default_url, n), url, g) <==> (url == if g.url.len() == 0 {
            default_url
        } else {
            g.url
        }) && exists|i: int| 0 <= i < n && #[trigger] gs[i] == g && first_of_name(gs, i),
    decreases n,
{
    if n > 0 {
        law_groups_are_tested_with_their_address(gs, default_url, n - 1, url, g);
        let bs = buckets_of(gs, default_url, n - 1);
        let x = gs[n - 1];
        assert(named_before(gs, x.name, n - 1) == !first_of_name(gs, n - 1));
        if first_of_name(gs, n - 1) {
            lemma_with_group(bs, effective_url(x, default_url), x, url, g);
        }
        if exists|i: int| 0 <= i < n && #[trigger] gs[i] == g && first_of_name(gs, i) {
            let i = choose|i: int| 0 <= i < n && #[trigger] gs[i] == g && first_of_name(gs, i);
            assert(gs[i] == g);
        }
    }
}

/// What the buckets hold with one more group.
proof fn lemma_with_group(
    bs: Seq<BucketView>,
    own: Seq<char>,
    x: GroupView,
    url: Seq<char>,
    g: GroupView,
)
    ensures
        in_bucket(with_group(bs, own, x), url, g) <==> in_bucket(bs, url, g) || (url == own && g
            == x),
{
    lemma_bucket_from(bs, own, 0);
    lemma_bucket_from_bounds(bs, own, 0);
    lemma_bucket_place(bs, own, 0);
    let rs = with_group(bs, own, x);
    let p = bucket_from(bs, own, 0);
    let q = bucket_place(bs, own, 0);
    if p < bs.len() {
        assert(rs[p].groups == bs[p].groups.push(x));
        lemma_pushed_group(bs[p].groups, x, g);
        if in_bucket(bs, url, g) {
            let b = choose|b: int|
                0 <= b < bs.len() && (#[trigger] bs[b]).url == url && bs[b].groups.contains(g);
            assert(rs[b].url == url && rs[b].groups.contains(g));
        }
        if url == own && g == x {
            assert(rs[p].groups.contains(g));
        }
        if in_bucket(rs, url, g) {
            let b = choose|b: int|
                0 <= b < rs.len() && (#[trigger] rs[b]).url == url && rs[b].groups.contains(g);
            assert(bs[b].url == url);
        }
    } else {
        assert(rs[q].groups == seq![x]);
        assert(seq![x].contains(g) <==> g == x) by {
            assert(seq![x][0] == x);
        }
        if in_bucket(bs, url, g) {
            let b = choose|b: int|
                0 <= b < bs.len() && (#[trigger] bs[b]).url == url && bs[b].groups.contains(g);
            let c = if b < q {
                b
            } else {
                b + 1
            };
            assert(rs[c] == bs[b]);
        }
        if url == own && g == x {
            assert(rs[q].url == url);
        }
        if in_bucket(rs, url, g) {
            let b = choose|b: int|
                0 <= b < rs.len() && (#[trigger] rs[b]).url == url && rs[b].groups.contains(g);
            if b < q {
                assert(rs[b] == bs[b]);
            } else if b > q {
                assert(rs[b] == bs[b - 1]);
            }
        }
    }
}

/// What a list with one more group holds.
proof fn lemma_pushed_group(v: Seq<GroupView>, x: GroupView, g: GroupView)
    ensures
        v.push(x).contains(g) <==> v.contains(g) || g == x,
{
    if v.contains(g) {
        let k = choose|k: int| 0 <= k < v.len() && v[k] == g;
        assert(v.push(x)[k] == g);
    }
    if g == x {
        assert(v.push(x)[v.len() as int] == g);
    }
    if v.push(x).contains(g) {
        let k = choose|k: int| 0 <= k < v.push(x).len() && v.push(x)[k] == g;
        if k < v.len() {
            assert(v[k] == g);
        }
    }
}

/// The place of an address lies within the buckets or behind them.
proof fn lemma_bucket_from_bounds(bs: Seq<BucketView>, url: Seq<char>, i: int)
    requires
        0 <= i <= bs.len(),
    ensures
        i <= bucket_from(bs, url, i) <= bs.len(),
    decreases bs.len() - i,
{
    if i < bs.len() && bs[i].url != url {
        lemma_bucket_from_bounds(bs, url, i + 1);
    }
}

/// What is known of a node stays when clash is asked for what it knows; only nodes of which
/// nothing is known take something over, and only nodes of the group do.
pub proof fn law_seeding_keeps_what_is_known(
    h: Map<Seq<char>, Seq<Option<u32>>>,
    ms: Seq<MemberView>,
    proxies: Map<Seq<char>, RawNode>,
    providers: Seq<RawProvider>,
    url: Seq<char>,
    n: int,
    node: Seq<char>,
)
    requires
        0 <= n <= ms.len(),
        samples_of(h, node).len() > 0 || forall|i: int|
            0 <= i < ms.len() ==> (#[trigger] ms[i]).name != node,
    ensures
        samples_of(seeded(h, ms, proxies, providers, url, n).0, node) == samples_of(h, node),
        0 <= seeded(h, ms, proxies, providers, url, n).1 <= n,
    decreases n,
{
    if n > 0 {
        law_seeding_keeps_what_is_known(h, ms, proxies, providers, url, n - 1, node);
        let (before, _) = seeded(h, ms, proxies, providers, url, n - 1);
        let m = ms[n - 1];
        if let Some(x) = node_of(proxies, providers, m) {
            let ds = known_delays(x, url);
            if m.name != node {
                lemma_seeded_other(before, m.name, ds, seed_start(ds.len() as int), ds.len() as int, node);
            }
        }
    }
}

/// What one node takes over changes nothing for another.
proof fn lemma_seeded_other(
    h: Map<Seq<char>, Seq<Option<u32>>>,
    name: Seq<char>,
    ds: Seq<Option<u64>>,
    from: int,
    n: int,
    node: Seq<char>,
)
    requires
        name != node,
    ensures
        samples_of(seeded_from(h, name, ds, from, n), node) == samples_of(h, node),
    decreases n - from,
{
    if n > from {
        lemma_seeded_other(h, name, ds, from, n - 1, node);
    }
}

/// A node of which nothing is known takes over the latest of the delays that clash knows
/// for the address, a delay of zero as a test that failed, and those for any address where
/// there are none for this one.
pub proof fn law_seeding_takes_the_latest(
    h: Map<Seq<char>, Seq<Option<u32>>>,
    node: RawNode,
    name: Seq<char>,
    url: Seq<char>,
)
    requires
        samples_of(h, name).len() == 0,
        forall|i: int|
            0 <= i < known_delays(node, url).len() ==> ((#[trigger] known_delays(node, url)[i])
                matches Some(d) && d < 0x1_0000_0000),
    ensures
        ({
            let ds = known_delays(node, url);
            let k = if ds.len() > 8 {
                ds.len() - 8
            } else {
                0
            };
            let after = samples_of(
                seeded_from(h, name, ds, seed_start(ds.len() as int), ds.len() as int),
                name,
            );
            &&& after.len() == ds.len() - k
            &&& forall|i: int|
                0 <= i < after.len() ==> (#[trigger] after[i]) == if ds[k + i] == Some(0u64) {
                    None::<u32>
                } else {
                    Some(ds[k + i]->0 as u32)
                }
        }),
        node.extra@.contains_key(url) && node.extra@[url]@.len() > 0 ==> known_delays(node, url)
            == node.extra@[url]@,
        !node.extra@.contains_key(url) || node.extra@[url]@.len() == 0 ==> known_delays(node, url)
            == node.history@,
{
    let ds = known_delays(node, url);
    let k = seed_start(ds.len() as int);
    lemma_seeded_own(h, name, ds, k, ds.len() as int);
}

/// The delays that a node takes over.
proof fn lemma_seeded_own(
    h: Map<Seq<char>, Seq<Option<u32>>>,
    name: Seq<char>,
    ds: Seq<Option<u64>>,
    from: int,
    n: int,
)
    requires
        samples_of(h, name).len() == 0,
        0 <= from <= n <= ds.len(),
        n - from <= 8,
        forall|i: int|
            0 <= i < ds.len() ==> ((#[trigger] ds[i]) matches Some(d) && d < 0x1_0000_0000),
    ensures
        ({
            let after = samples_of(seeded_from(h, name, ds, from, n), name);
            &&& after.len() == n - from
            &&& forall|i: int|
                0 <= i < n - from ==> (#[trigger] after[i]) == if ds[from + i] == Some(0u64) {
                    None::<u32>
                } else {
                    Some(ds[from + i]->0 as u32)
                }
        }),
    decreases n - from,
{
    if n > from {
        lemma_seeded_own(h, name, ds, from, n - 1);
        assert(ds[n - 1] is Some);
    }
}

/// A test that was answered adds the delay to what is known of its node, and one that was
/// not adds nothing: a node without an answer is known as well as before.
pub proof fn law_answers_are_noted(
    h: Map<Seq<char>, Seq<Option<u32>>>,
    ms: Seq<MemberView>,
    v: Seq<(usize, Option<u32>)>,
    n: int,
    node: Seq<char>,
)
    requires
        0 <= n <= v.len(),
        forall|i: int| 0 <= i < v.len() ==> (#[trigger] v[i]).0 < ms.len(),
    ensures
        (forall|i: int|
            0 <= i < n && (#[trigger] v[i]).1 is Some ==> ms[v[i].0 as int].name != node)
            ==> samples_of(answered(h, ms, v, n), node) == samples_of(h, node),
        n > 0 && v[n - 1].1 is Some && ms[v[n - 1].0 as int].name == node ==> samples_of(
            answered(h, ms, v, n),
            node,
        ).last() == v[n - 1].1,
    decreases n,
{
    if n > 0 {
        law_answers_are_noted(h, ms, v, n - 1, node);
    }
}

/// A task is ended where no bucket has its address and its groups, and no bucket is left
/// without a task.
pub proof fn law_tasks_follow_the_buckets(rs: Seq<Runner>, bs: Seq<BucketView>, n: int, m: int)
    requires
        in_url_order(bs),
        0 <= n <= rs.len(),
        0 <= m <= bs.len(),
    ensures
        forall|i: int| #[trigger]
            ending(rs, bs, n).contains(i) <==> 0 <= i < n && !(exists|b: int|
                0 <= b < bs.len() && (#[trigger] bs[b]).url == rs[i].url@ && names_of(bs[b].groups)
                    == text::strings(rs[i].names@)),
        forall|b: int| #[trigger]
            unserved(rs, bs, m).contains(b) <==> 0 <= b < m && !(exists|i: int|
                0 <= i < rs.len() && (#[trigger] rs[i]).url@ == bs[b].url && text::strings(
                    rs[i].names@,
                ) == names_of(bs[b].groups)),
    decreases n + m,
{
    if n > 0 {
        law_tasks_follow_the_buckets(rs, bs, n - 1, m);
        let less = ending(rs, bs, n - 1);
        let now = ending(rs, bs, n);
        lemma_stays(rs[n - 1], bs);
        assert forall|i: int| #[trigger] now.contains(i) <==> less.contains(i) || (i == n - 1
            && !stays(rs[n - 1], bs)) by {
            if !stays(rs[n - 1], bs) {
                lemma_push_holds(less, n - 1, i);
            }
        }
    }
    if m > 0 {
        law_tasks_follow_the_buckets(rs, bs, n, m - 1);
        let less = unserved(rs, bs, m - 1);
        let now = unserved(rs, bs, m);
        assert(served(rs, bs, bs[m - 1].url) <==> exists|i: int|
            0 <= i < rs.len() && (#[trigger] rs[i]).url@ == bs[m - 1].url && text::strings(
                rs[i].names@,
            ) == names_of(bs[m - 1].groups)) by {
            assert forall|i: int| 0 <= i < rs.len() implies ((#[trigger] rs[i]).url@ == bs[m - 1].url
                && stays(rs[i], bs)) == (rs[i].url@ == bs[m - 1].url && text::strings(rs[i].names@)
                == names_of(bs[m - 1].groups)) by {
                lemma_stays(rs[i], bs);
                if rs[i].url@ == bs[m - 1].url {
                    assert forall|b: int| 0 <= b < bs.len() && (#[trigger] bs[b]).url
                        == rs[i].url@ implies b == m - 1 by {
                        if b < m - 1 {
                            assert(names::before(bs[b].url, bs[m - 1].url));
                            names::lemma_total(bs[b].url, bs[m - 1].url);
                        } else if b > m - 1 {
                            assert(names::before(bs[m - 1].url, bs[b].url));
                            names::lemma_total(bs[m - 1].url, bs[b].url);
                        }
                    }
                }
            }
        }
        assert forall|b: int| #[trigger] now.contains(b) <==> less.contains(b) || (b == m - 1
            && !served(rs, bs, bs[m - 1].url)) by {
            if !served(rs, bs, bs[m - 1].url) {
                lemma_push_holds(less, m - 1, b);
            }
        }
    }
    if n == 0 {
        assert(ending(rs, bs, n).len() == 0);
    }
    if m == 0 {
        assert(unserved(rs, bs, m).len() == 0);
    }
}

/// What a list with one more number holds.
proof fn lemma_push_holds(v: Seq<int>, x: int, i: int)
    ensures
        v.push(x).contains(i) <==> v.contains(i) || i == x,
{
    if v.contains(i) {
        let k = choose|k: int| 0 <= k < v.len() && v[k] == i;
        assert(v.push(x)[k] == i);
    }
    if i == x {
        assert(v.push(x)[v.len() as int] == i);
    }
    if v.push(x).contains(i) {
        let k = choose|k: int| 0 <= k < v.push(x).len() && v.push(x)[k] == i;
        if k < v.len() {
            assert(v[k] == i);
        }
    }
}

/// A task goes on where a bucket has its address and its groups.
proof fn lemma_stays(r: Runner, bs: Seq<BucketView>)
    requires
        in_url_order(bs),
    ensures
        stays(r, bs) <==> exists|b: int|
            0 <= b < bs.len() && (#[trigger] bs[b]).url == r.url@ && names_of(bs[b].groups)
                == text::strings(r.names@),
{
    let i = bucket_from(bs, r.url@, 0);
    lemma_bucket_from(bs, r.url@, 0);
    lemma_bucket_from_bounds(bs, r.url@, 0);
    if i >= bs.len() {
        lemma_bucket_missing(bs, r.url@, 0);
    } else {
        assert forall|b: int| 0 <= b < bs.len() && (#[trigger] bs[b]).url == r.url@ implies b == i by {
            if b < i {
                assert(names::before(bs[b].url, bs[i].url));
                names::lemma_total(bs[b].url, bs[i].url);
            } else if b > i {
                assert(names::before(bs[i].url, bs[b].url));
                names::lemma_total(bs[i].url, bs[b].url);
            }
        }
    }
}

/// A test counts where clash answered it well and told a delay, and tells that delay.
pub proof fn law_only_a_good_answer_counts(status: u16, v: Shape, s: Seq<char>)
    requires
        json::json_value(s) == Some(v),
    ensures
        status != 200 ==> tested(status, bytes::utf8(s)) is None,
        status == 200 ==> (tested(status, bytes::utf8(s)) is Some <==> json::whole_at(v, "delay"@)
            is Some),
        status == 200 ==> (json::whole_at(v, "delay"@) matches Some(d) ==> (0 <= d < 0x1_0000_0000
            ==> tested(status, bytes::utf8(s)) == Some(d as u32))),
{
    vstd::utf8::encode_utf8_valid_utf8(s);
    vstd::utf8::encode_utf8_decode_utf8(s);
}

/// A request to clash starts with what is asked for, and ends with its body behind the
/// length of that in bytes and an empty line.
pub proof fn law_a_request_is_framed(method: Seq<char>, path: Seq<char>, body: Seq<char>)
    ensures
        text::starts(
            request(method, path, None),
            method + " "@ + path + " HTTP/1.1\r\nHost: "@,
        ),
        text::starts(
            request(method, path, Some(body)),
            method + " "@ + path + " HTTP/1.1\r\nHost: "@,
        ),
        text::ends(request(method, path, None), "\r\n\r\n"@),
        text::ends(
            request(method, path, Some(body)),
            "\r\nContent-Length: "@ + text::decimal(bytes::utf8(body).len() as int) + "\r\n\r\n"@
                + body,
        ),
{
    reveal_strlit(" HTTP/1.1\r\nHost: ");
    reveal_strlit(" HTTP/1.1\r\nHost: localhost\r\nConnection: close\r\n");
    reveal_strlit("\r\n");
    reveal_strlit("\r\n\r\n");
    reveal_strlit("\r\nContent-Length: ");
    reveal_strlit("Content-Type: application/json\r\nContent-Length: ");
    let a = request(method, path, None);
    let b = request(method, path, Some(body));
    let p = method + " "@ + path + " HTTP/1.1\r\nHost: "@;
    assert(a.take(p.len() as int) =~= p);
    assert(b.take(p.len() as int) =~= p);
    assert(a.skip(a.len() - 4) =~= "\r\n\r\n"@);
    let e = "\r\nContent-Length: "@ + text::decimal(bytes::utf8(body).len() as int) + "\r\n\r\n"@
        + body;
    assert(b.skip(b.len() - e.len()) =~= e);
}

/// A group is tested where it is marked for it and has a name, which counts without the
/// blanks around it, with the address it gives.
pub proof fn law_which_groups_are_tested(g: Shape, name: Seq<char>, url: Seq<char>)
    requires
        name.len() > 0,
        !text::is_space(name[0]) && !text::is_space(name.last()),
        url.len() > 0,
        !text::is_space(url[0]) && !text::is_space(url.last()),
        json::field(g, "name"@) == Some(Shape::Text(name)),
    ensures
        json::field(g, "smart"@) != Some(Shape::Bool(true)) ==> group_of(g) is None,
        json::field(g, "smart"@) == Some(Shape::Bool(true)) && json::field(g, "speedtest_url"@)
            == Some(Shape::Text(url)) ==> group_of(g) == Some(GroupView { name, url }),
        json::field(g, "smart"@) == Some(Shape::Bool(true)) && json::field(g, "speedtest_url"@)
            is None ==> group_of(g) == Some(GroupView { name, url: Seq::empty() }),
{
    let e = Seq::<char>::empty();
    text::law_trimming(e, name, e);
    text::law_trimming(e, url, e);
}

/// The groups are those of the list that are tested, in their order.
pub proof fn law_groups_in_their_order(v: Shape, a: Seq<Shape>, n: int)
    ensures
        json::field(v, "node-groups"@) == Some(Shape::List(a)) ==> groups_of(v) == groups_among(
            a,
            a.len() as int,
        ),
        json::field(v, "node-groups"@) is None ==> groups_of(v) == Seq::<GroupView>::empty(),
        0 <= n < a.len() && group_of(a[n]) is Some ==> groups_among(a, n + 1) == groups_among(
            a,
            n,
        ).push(group_of(a[n])->0),
        0 <= n < a.len() && group_of(a[n]) is None ==> groups_among(a, n + 1) == groups_among(a, n),
        groups_among(a, 0) == Seq::<GroupView>::empty(),
{
}

/// The lists of providers are needed where a group names a node that is not known without
/// them.
pub proof fn law_when_providers_are_needed(
    proxies: Map<Seq<char>, RawNode>,
    group: Seq<char>,
    all: Vec<String>,
)
    requires
        proxies.contains_key(group),
        proxies[group].all == Some(all),
    ensures
        (forall|i: int| 0 <= i < all@.len() ==> proxies.contains_key((#[trigger] all@[i])@))
            ==> !lacks_nodes(proxies, group),
        lacks_nodes(proxies, group) <==> exists|i: int|
            0 <= i < all@.len() && (#[trigger] all@[i])@ != SMART_HIDE_NODE@
                && !proxies.contains_key(all@[i]@),
        !lacks_nodes(proxies.remove(group), group),
{
    if lacks_nodes(proxies, group) {
        let i = choose|i: int|
            0 <= i < all@.len() && (#[trigger] all@[i])@ != SMART_HIDE_NODE@
                && !proxies.contains_key(all@[i]@);
        assert(all@[i]@ != SMART_HIDE_NODE@);
    }
    if exists|i: int|
        0 <= i < all@.len() && (#[trigger] all@[i])@ != SMART_HIDE_NODE@ && !proxies.contains_key(
            all@[i]@,
        ) {
        let i = choose|i: int|
            0 <= i < all@.len() && (#[trigger] all@[i])@ != SMART_HIDE_NODE@
                && !proxies.contains_key(all@[i]@);
        assert(proxies[group].all->0@[i]@ != SMART_HIDE_NODE@);
        assert(lacks_nodes(proxies, group));
    }
}

/// A test goes on where its address is still wanted for the same groups.
pub proof fn law_which_tests_go_on(r: Runner, bs: Seq<BucketView>, k: int)
    requires
        0 <= k < bs.len(),
        in_url_order(bs),
        r.url@ == bs[k].url,
    ensures
        stays(r, bs) <==> r.names@.len() == bs[k].groups.len() && forall|i: int|
            0 <= i < r.names@.len() ==> (#[trigger] r.names@[i])@ == bs[k].groups[i].name,
{
    lemma_bucket_from(bs, r.url@, 0);
    lemma_bucket_from_bounds(bs, r.url@, 0);
    let i = bucket_from(bs, r.url@, 0);
    if i >= bs.len() {
        lemma_bucket_missing(bs, r.url@, 0);
    }
    names::lemma_total(r.url@, r.url@);
    if i != k {
        assert(names::before(bs[i].url, bs[k].url) || names::before(bs[k].url, bs[i].url));
    }
    let a = text::strings(r.names@);
    let b = names_of(bs[k].groups);
    if forall|i: int|
        0 <= i < r.names@.len() ==> (#[trigger] r.names@[i])@ == bs[k].groups[i].name {
        if a.len() == b.len() {
            assert forall|i: int| 0 <= i < a.len() implies a[i] == b[i] by {
                assert(r.names@[i]@ == bs[k].groups[i].name);
            }
            assert(a =~= b);
        }
    }
    if a == b {
        assert forall|i: int| 0 <= i < r.names@.len() implies (#[trigger] r.names@[i])@
            == bs[k].groups[i].name by {
            assert(a[i] == b[i]);
        }
    }
}

/// A delay is what stands under its name.
pub proof fn law_delays_by_name(v: Shape, d: u64)
    requires
        json::field(v, "delay"@) == Some(Shape::Number(text::decimal(d as int), Some(d))),
        d <= u32::MAX,
    ensures
        delay_of(v) == Some(d as u32),
{
}

} // verus!
