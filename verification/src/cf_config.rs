//! The settings of the tunnel.

use crate::text;
use vstd::prelude::*;

verus! {

/// What carries the tunnel.
#[derive(Debug, Clone, Copy, PartialEq, Eq, Structural)]
pub enum Protocol {
    Quic,
    Http2,
}

/// The name of what carries the tunnel.
pub open spec fn protocol_text(p: Protocol) -> Seq<char> {
    match p {
        Protocol::Quic => "quic"@,
        Protocol::Http2 => "http2"@,
    }
}

/// What carries the tunnel, by its name.
pub open spec fn protocol_of(s: Seq<char>) -> Option<Protocol> {
    if s == "quic"@ {
        Some(Protocol::Quic)
    } else if s == "http2"@ {
        Some(Protocol::Http2)
    } else {
        None
    }
}

impl Protocol {
    /// The name of what carries the tunnel.
    pub fn as_str(self) -> (r: &'static str)
        ensures
            r@ == protocol_text(self),
    {
        match self {
            Protocol::Quic => "quic",
            Protocol::Http2 => "http2",
        }
    }

    /// What carries the tunnel, by its name.
    pub fn parse(s: &str) -> (r: Option<Protocol>)
        ensures
            r == protocol_of(s@),
    {
        if text::same_str(s, "quic") {
            Some(Protocol::Quic)
        } else if text::same_str(s, "http2") {
            Some(Protocol::Http2)
        } else {
            None
        }
    }

    /// The other one.
    pub fn other(self) -> (r: Protocol)
        ensures
            r != self,
    {
        match self {
            Protocol::Quic => Protocol::Http2,
            Protocol::Http2 => Protocol::Quic,
        }
    }
}

/// A name is read back as what it names, and the names differ.
pub proof fn law_protocol_names(p: Protocol)
    ensures
        protocol_of(protocol_text(p)) == Some(p),
        protocol_text(p).len() > 0,
        forall|i: int| 0 <= i < protocol_text(p).len() ==> !text::is_space(#[trigger] protocol_text(p)[i]),
        protocol_text(Protocol::Quic) != protocol_text(Protocol::Http2),
{
    reveal_strlit("quic");
    reveal_strlit("http2");
    assert("quic"@.len() == 4);
    assert("http2"@.len() == 5);
}

/// Which protocol the tunnel uses: one that is fixed, or the better one.
#[derive(Debug, Clone, Copy, PartialEq, Eq, Structural)]
pub enum CfProtocol {
    Auto,
    Fixed(Protocol),
}

impl CfProtocol {
    /// The protocol to start with.
    pub open spec fn start(self) -> Protocol {
        match self {
            CfProtocol::Auto => Protocol::Quic,
            CfProtocol::Fixed(p) => p,
        }
    }

    /// The protocol to start with.
    pub fn initial(self) -> (r: Protocol)
        ensures
            r == self.start(),
    {
        match self {
            CfProtocol::Auto => Protocol::Quic,
            CfProtocol::Fixed(p) => p,
        }
    }

    /// Whether the better protocol is looked for.
    pub fn adaptive(self) -> (r: bool)
        ensures
            r == (self is Auto),
    {
        match self {
            CfProtocol::Auto => true,
            CfProtocol::Fixed(_) => false,
        }
    }
}

impl Default for CfProtocol {
    fn default() -> (r: Self)
        ensures
            r == CfProtocol::Auto,
    {
        CfProtocol::Auto
    }
}

/// Which way the tunnel goes out.
#[derive(Debug, Clone, Copy, PartialEq, Eq, Structural)]
pub enum CfProxyMode {
    /// Through the proxy.
    Yes,
    /// Directly.
    No,
    /// Both ways at once.
    Both,
}

/// Which way the tunnel goes out, as a text names it in letters of either case
/// and with spaces around it.
pub open spec fn proxy_mode_of(s: Seq<char>) -> Option<CfProxyMode> {
    let l = text::lowered(text::trimmed(s));
    if l == "yes"@ || l == "true"@ || l == "1"@ || l == "proxy"@ || l == "only"@ {
        Some(CfProxyMode::Yes)
    } else if l == "no"@ || l == "false"@ || l == "0"@ || l == "direct"@ {
        Some(CfProxyMode::No)
    } else if l == "both"@ || l == "dual"@ {
        Some(CfProxyMode::Both)
    } else {
        None
    }
}

impl CfProxyMode {
    /// Which way the tunnel goes out, as a text names it.
    pub fn parse(s: &str) -> (r: Option<CfProxyMode>)
        ensures
            r == proxy_mode_of(s@),
    {
        let cs = text::chars_of(s);
        let low = text::to_lower(text::trim(cs.as_slice()));
        let l = low.as_slice();
        if text::same(l, "yes") || text::same(l, "true") || text::same(l, "1") || text::same(l, "proxy")
            || text::same(l, "only") {
            Some(CfProxyMode::Yes)
        } else if text::same(l, "no") || text::same(l, "false") || text::same(l, "0") || text::same(
            l,
            "direct",
        ) {
            Some(CfProxyMode::No)
        } else if text::same(l, "both") || text::same(l, "dual") {
            Some(CfProxyMode::Both)
        } else {
            None
        }
    }

    /// The name of the way.
    pub fn as_str(self) -> (r: &'static str)
        ensures
            r@ == match self {
                CfProxyMode::Yes => "yes"@,
                CfProxyMode::No => "no"@,
                CfProxyMode::Both => "both"@,
            },
    {
        match self {
            CfProxyMode::Yes => "yes",
            CfProxyMode::No => "no",
            CfProxyMode::Both => "both",
        }
    }
}

impl Default for CfProxyMode {
    fn default() -> (r: Self)
        ensures
            r == CfProxyMode::Yes,
    {
        CfProxyMode::Yes
    }
}

/// The settings of the tunnel.
pub struct CloudflaredCfg {
    /// The key to the tunnel; without it there is no tunnel.
    pub token: Option<String>,
    pub proxy: CfProxyMode,
    pub protocol: CfProtocol,
}

impl CloudflaredCfg {
    /// The key, where it is not empty.
    pub open spec fn key(&self) -> Option<Seq<char>> {
        match self.token {
            Some(t) => if t@.len() > 0 {
                Some(t@)
            } else {
                None
            },
            None => None,
        }
    }

    /// The key, where it is not empty.
    pub fn token(&self) -> (r: Option<&str>)
        ensures
            text::opt_str(r) == self.key(),
    {
        match &self.token {
            Some(t) => {
                let cs = text::chars_of(t.as_str());
                if cs.len() > 0 {
                    Some(t.as_str())
                } else {
                    None
                }
            },
            None => None,
        }
    }
}

impl Default for CloudflaredCfg {
    fn default() -> (r: Self)
        ensures
            r.token is None,
            r.proxy == CfProxyMode::Yes,
            r.protocol == CfProtocol::Auto,
    {
        CloudflaredCfg { token: None, proxy: CfProxyMode::default(), protocol: CfProtocol::default() }
    }
}

/// The words for each way the tunnel may go out, in any spelling and with blanks around.
pub proof fn law_words_for_the_proxy(a: Seq<char>, s: Seq<char>, b: Seq<char>)
    requires
        s.len() > 0 ==> !text::is_space(s[0]) && !text::is_space(s.last()),
        forall|i: int| 0 <= i < a.len() ==> text::is_space(#[trigger] a[i]),
        forall|i: int| 0 <= i < b.len() ==> text::is_space(#[trigger] b[i]),
    ensures
        proxy_mode_of(a + s + b) == proxy_mode_of(s),
        ({
            let l = text::lowered(s);
            &&& l == "yes"@ || l == "true"@ || l == "1"@ || l == "proxy"@ || l == "only"@
                ==> proxy_mode_of(s) == Some(CfProxyMode::Yes)
            &&& l == "no"@ || l == "false"@ || l == "0"@ || l == "direct"@ ==> proxy_mode_of(s)
                == Some(CfProxyMode::No)
            &&& l == "both"@ || l == "dual"@ ==> proxy_mode_of(s) == Some(CfProxyMode::Both)
            &&& proxy_mode_of(s) matches Some(CfProxyMode::Yes) ==> l == "yes"@ || l == "true"@ || l
                == "1"@ || l == "proxy"@ || l == "only"@
            &&& proxy_mode_of(s) matches Some(CfProxyMode::No) ==> l == "no"@ || l == "false"@ || l
                == "0"@ || l == "direct"@
            &&& proxy_mode_of(s) matches Some(CfProxyMode::Both) ==> l == "both"@ || l == "dual"@
        }),
{
    text::law_trimming(a, s, b);
    reveal_strlit("yes");
    reveal_strlit("true");
    reveal_strlit("1");
    reveal_strlit("proxy");
    reveal_strlit("only");
    reveal_strlit("no");
    reveal_strlit("false");
    reveal_strlit("0");
    reveal_strlit("direct");
    reveal_strlit("both");
    reveal_strlit("dual");
    assert("yes"@.len() == 3 && "no"@.len() == 2 && "1"@[0] == '1' && "0"@[0] == '0');
    assert("true"@[0] == 't' && "only"@[0] == 'o' && "both"@[0] == 'b' && "dual"@[0] == 'd');
    assert("proxy"@[0] == 'p' && "false"@[0] == 'f' && "direct"@.len() == 6);
}

/// The transports by their names, and the one to start with.
pub proof fn law_transports_by_name(p: Protocol, s: Seq<char>)
    ensures
        protocol_text(Protocol::Quic) == "quic"@,
        protocol_text(Protocol::Http2) == "http2"@,
        protocol_of(s) matches Some(q) ==> s == protocol_text(q),
        CfProtocol::Auto.start() == Protocol::Quic,
        CfProtocol::Fixed(p).start() == p,
{
}

/// The key of a tunnel is its token, and an empty token is none.
pub proof fn law_key_is_the_token(c: CloudflaredCfg)
    ensures
        c.token is None ==> c.key() is None,
        c.token matches Some(t) ==> c.key() == if t@.len() == 0 {
            None
        } else {
            Some(t@)
        },
{
}

} // verus!
