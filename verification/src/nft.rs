//! What the packet filter of the gateway lets through, read from its listing.

use crate::text;
use vstd::prelude::*;

verus! {

/// The table of the gateway.
pub const TABLE: &'static str = "ppgw";

/// What the packet filter lets through; `None` where its listing does not say.
#[derive(Debug, Clone, Copy, PartialEq, Eq, Structural)]
pub struct NftFacts {
    pub openport_open: Option<bool>,
    pub udp_open: Option<bool>,
}

/// Nothing is known.
pub open spec fn unknown() -> NftFacts {
    NftFacts { openport_open: None, udp_open: None }
}

impl Default for NftFacts {
    fn default() -> (r: Self)
        ensures
            r == unknown(),
    {
        NftFacts { openport_open: None, udp_open: None }
    }
}

/// The chains that tell something.
#[derive(Debug, Clone, Copy, PartialEq, Eq, Structural)]
pub enum Chain {
    Input,
    Tproxy,
    Other,
}

/// The name in a line that opens a chain.
pub open spec fn header_name(line: Seq<char>) -> Option<Seq<char>> {
    match text::after(line, "chain "@) {
        Some(rest) => match text::cut(rest, ' ') {
            Some((name, tail)) => if text::starts(text::trimmed(tail), "{"@) {
                Some(name)
            } else {
                None
            },
            None => None,
        },
        None => None,
    }
}

/// Whether a rule drops packets.
pub open spec fn drops(line: Seq<char>) -> bool {
    text::words(line).contains("drop"@)
}

/// Whether a rule speaks of UDP: the word for the protocol and then `udp`.
pub open spec fn speaks_of_udp(line: Seq<char>) -> bool {
    let w = text::words(line);
    exists|i: int|
        0 <= i < w.len() - 1 && (#[trigger] w[i] == "l4proto"@ || w[i] == "protocol"@) && w[i + 1]
            == "udp"@
}

/// What is known after some lines, and the chain that is open.
pub struct FactState {
    pub facts: NftFacts,
    pub chain: Chain,
}

/// What a line adds. A chain that is opened is taken to let everything through
/// until a rule in it drops.
pub open spec fn fact_step(st: FactState, raw: Seq<char>) -> FactState {
    let line = text::trimmed(raw);
    if line == "}"@ {
        FactState { facts: st.facts, chain: Chain::Other }
    } else {
        match header_name(line) {
            Some(name) => if name == "ppgw_input"@ {
                FactState {
                    facts: NftFacts { openport_open: Some(true), ..st.facts },
                    chain: Chain::Input,
                }
            } else if name == "ppgw_tproxy"@ {
                FactState {
                    facts: NftFacts { udp_open: Some(true), ..st.facts },
                    chain: Chain::Tproxy,
                }
            } else {
                FactState { facts: st.facts, chain: Chain::Other }
            },
            None => if st.chain is Input && drops(line) && text::holds(line, "dport 1080"@) {
                FactState {
                    facts: NftFacts { openport_open: Some(false), ..st.facts },
                    chain: st.chain,
                }
            } else if st.chain is Tproxy && drops(line) && speaks_of_udp(line) {
                FactState {
                    facts: NftFacts { udp_open: Some(false), ..st.facts },
                    chain: st.chain,
                }
            } else {
                st
            },
        }
    }
}

/// What is known after the first `n` lines.
pub open spec fn fact_run(ls: Seq<Seq<char>>, n: int) -> FactState
    decreases n,
{
    if n <= 0 {
        FactState { facts: unknown(), chain: Chain::Other }
    } else {
        fact_step(fact_run(ls, n - 1), ls[n - 1])
    }
}

/// What a listing tells.
pub open spec fn facts_of(s: Seq<char>) -> NftFacts {
    let ls = text::lines(s);
    fact_run(ls, ls.len() as int).facts
}

/// The name in a line that opens a chain.
fn chain_header(line: &[char]) -> (r: Option<&[char]>)
    ensures
        text::opt(r) == header_name(line@),
{
    let rest = match text::strip_prefix(line, "chain ") {
        Some(t) => t,
        None => return None,
    };
    match text::split_once(rest, ' ') {
        Some((name, tail)) => {
            assert(text::cut(rest@, ' ') == Some((name@, tail@)));
            if text::starts_with(text::trim(tail), "{") {
                Some(name)
            } else {
                None
            }
        },
        None => None,
    }
}

/// Whether a rule drops packets.
pub fn is_drop(line: &[char]) -> (r: bool)
    ensures
        r == drops(line@),
{
    let w = text::words_of(line);
    let ghost all = text::words(line@);
    let mut i: usize = 0;
    while i < w.len()
        invariant
            i <= w@.len(),
            all == text::texts(w@),
            all == text::words(line@),
            forall|j: int| 0 <= j < i ==> #[trigger] all[j] != "drop"@,
        decreases w@.len() - i,
    {
        if text::same(w[i], "drop") {
            assert(all[i as int] == "drop"@);
            return true;
        }
        i = i + 1;
    }
    false
}

/// Whether a rule speaks of UDP.
fn udp_words(line: &[char]) -> (r: bool)
    ensures
        r == speaks_of_udp(line@),
{
    let w = text::words_of(line);
    let ghost all = text::words(line@);
    if w.len() < 2 {
        return false;
    }
    let mut i: usize = 0;
    while i < w.len() - 1
        invariant
            2 <= w@.len(),
            i <= w@.len() - 1,
            all == text::texts(w@),
            all == text::words(line@),
            forall|j: int|
                0 <= j < i ==> !((#[trigger] all[j] == "l4proto"@ || all[j] == "protocol"@)
                    && all[j + 1] == "udp"@),
        decreases w@.len() - i,
    {
        if (text::same(w[i], "l4proto") || text::same(w[i], "protocol")) && text::same(
            w[i + 1],
            "udp",
        ) {
            assert(all[i as int] == w@[i as int]@);
            assert(all[i + 1] == w@[i + 1]@);
            return true;
        }
        i = i + 1;
    }
    false
}

/// Whether a rule speaks of UDP.
pub fn is_udp_rule(line: &str) -> (r: bool)
    ensures
        r == speaks_of_udp(line@),
{
    let cs = text::chars_of(line);
    udp_words(&cs)
}

/// Reads the listing of the table.
pub fn parse_facts(s: &str) -> (r: NftFacts)
    ensures
        r == facts_of(s@),
{
    let cs = text::chars_of(s);
    let ls = text::lines_of(&cs);
    let ghost all = text::lines(s@);
    let mut facts = NftFacts::default();
    let mut chain = Chain::Other;
    let mut i: usize = 0;
    while i < ls.len()
        invariant
            i <= ls@.len(),
            all == text::texts(ls@),
            fact_run(all, i as int) == (FactState { facts, chain }),
        decreases ls@.len() - i,
    {
        assert(all[i as int] == ls@[i as int]@);
        let line = text::trim(ls[i]);
        i = i + 1;
        if text::same(line, "}") {
            chain = Chain::Other;
            continue ;
        }
        if let Some(name) = chain_header(line) {
            if text::same(name, "ppgw_input") {
                facts.openport_open = Some(true);
                chain = Chain::Input;
            } else if text::same(name, "ppgw_tproxy") {
                facts.udp_open = Some(true);
                chain = Chain::Tproxy;
            } else {
                chain = Chain::Other;
            }
            continue ;
        }
        match chain {
            Chain::Input => {
                if is_drop(line) && text::contains(line, "dport 1080") {
                    facts.openport_open = Some(false);
                }
            },
            Chain::Tproxy => {
                if is_drop(line) && udp_words(line) {
                    facts.udp_open = Some(false);
                }
            },
            Chain::Other => {},
        }
    }
    facts
}

/// What the packet filter lets through, from the listing of its table where there
/// is one.
pub fn read_facts(listing: Option<&str>) -> (r: NftFacts)
    ensures
        r == match listing {
            Some(s) => facts_of(s@),
            None => unknown(),
        },
{
    match listing {
        Some(s) => parse_facts(s),
        None => NftFacts::default(),
    }
}

/// Of a chain that no line opens nothing is known: an unknown fact stays unknown
/// until a line opens its chain.
pub proof fn law_unknown_without_chain(ls: Seq<Seq<char>>, n: int)
    requires
        0 <= n <= ls.len(),
    ensures
        (forall|i: int|
            0 <= i < n ==> header_name(text::trimmed(#[trigger] ls[i])) != Some("ppgw_input"@)) ==> {
            &&& fact_run(ls, n).facts.openport_open is None
            &&& !(fact_run(ls, n).chain is Input)
        },
        (forall|i: int|
            0 <= i < n ==> header_name(text::trimmed(#[trigger] ls[i])) != Some("ppgw_tproxy"@)) ==> {
            &&& fact_run(ls, n).facts.udp_open is None
            &&& !(fact_run(ls, n).chain is Tproxy)
        },
    decreases n,
{
    if n > 0 {
        law_unknown_without_chain(ls, n - 1);
        assert(ls[n - 1] == ls[n - 1]);
    }
}

/// The chain for what comes in, while nothing in it drops the port, leaves the port open;
/// a line in it that drops the port closes it, and nothing outside of it does.
pub proof fn law_what_closes_the_port(st: FactState, raw: Seq<char>)
    ensures
        ({
            let line = text::trimmed(raw);
            let next = fact_step(st, raw);
            let rule = line != "}"@ && header_name(line) is None;
            let closes = st.chain is Input && text::words(line).contains("drop"@) && text::holds(
                line,
                "dport 1080"@,
            );
            &&& header_name(line) == Some("ppgw_input"@) && line != "}"@
                ==> next.facts.openport_open == Some(true) && next.chain is Input
                && next.facts.udp_open == st.facts.udp_open
            &&& rule && closes ==> next.facts.openport_open == Some(false)
            &&& rule && !closes ==> next.facts.openport_open == st.facts.openport_open
            &&& rule ==> next.chain == st.chain
            &&& line == "}"@ ==> next.facts == st.facts && next.chain is Other
        }),
{
}

/// The same of UDP in the chain for what is passed on.
pub proof fn law_what_closes_udp(st: FactState, raw: Seq<char>)
    ensures
        ({
            let line = text::trimmed(raw);
            let w = text::words(line);
            let next = fact_step(st, raw);
            let rule = line != "}"@ && header_name(line) is None;
            let about = exists|i: int|
                0 <= i < w.len() - 1 && (#[trigger] w[i] == "l4proto"@ || w[i] == "protocol"@)
                    && w[i + 1] == "udp"@;
            let closes = st.chain is Tproxy && w.contains("drop"@) && about;
            &&& header_name(line) == Some("ppgw_tproxy"@) && line != "}"@ ==> next.facts.udp_open
                == Some(true) && next.chain is Tproxy && next.facts.openport_open
                == st.facts.openport_open
            &&& rule && closes ==> next.facts.udp_open == Some(false)
            &&& rule && !closes ==> next.facts.udp_open == st.facts.udp_open
        }),
{
    reveal_strlit("ppgw_input");
    reveal_strlit("ppgw_tproxy");
    assert("ppgw_input"@.len() == 10 && "ppgw_tproxy"@.len() == 11);
}

/// A chain begins with its name before an opening brace.
pub proof fn law_how_a_chain_begins(name: Seq<char>, rest: Seq<char>)
    requires
        forall|i: int| 0 <= i < name.len() ==> #[trigger] name[i] != ' ',
        rest.len() > 0 ==> !text::is_space(rest.last()),
    ensures
        header_name("chain "@ + (name + seq![' '] + ("{"@ + rest))) == Some(name),
        header_name("chain "@ + name) is None,
{
    let e = Seq::<char>::empty();
    reveal_strlit("{");
    let t = "{"@ + rest;
    text::lemma_after("chain "@, name + seq![' '] + t);
    text::lemma_after("chain "@, name);
    text::lemma_cut_first(name, t, ' ');
    text::lemma_no_cut(name, ' ');
    assert(t[0] == '{');
    text::law_trimming(e, t, e);
    text::lemma_after("{"@, rest);
}

} // verus!
