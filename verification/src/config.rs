//! The configuration file: its grammar, its sections and what they allow.

use crate::addr;
use crate::addr::{IpAddr, SocketAddr};
use crate::cidr;
use crate::cidr::Ipv4Net;
use crate::table::Table;
use crate::text;
use vstd::prelude::*;
use vstd::slice::slice_subrange;

verus! {

// ---------------------------------------------------------------------------
// Errors
// ---------------------------------------------------------------------------

/// Why a configuration was refused.
#[derive(Debug)]
pub enum ConfigErr {
    Io(String),
    Parse { line: usize, msg: String },
    Field { section: String, key: String, value: String, msg: String },
    Validation(String),
}

/// The texts of an error.
pub enum ErrView {
    Io(Seq<char>),
    Parse { line: int, msg: Seq<char> },
    Field { section: Seq<char>, key: Seq<char>, value: Seq<char>, msg: Seq<char> },
    Validation(Seq<char>),
}

impl View for ConfigErr {
    type V = ErrView;

    open spec fn view(&self) -> ErrView {
        match *self {
            ConfigErr::Io(m) => ErrView::Io(m@),
            ConfigErr::Parse { line, msg } => ErrView::Parse { line: line as int, msg: msg@ },
            ConfigErr::Field { section, key, value, msg } => ErrView::Field {
                section: section@,
                key: key@,
                value: value@,
                msg: msg@,
            },
            ConfigErr::Validation(m) => ErrView::Validation(m@),
        }
    }
}

/// A result with the texts of its error.
pub open spec fn res<T>(r: Result<T, ConfigErr>) -> Result<T, ErrView> {
    match r {
        Ok(v) => Ok(v),
        Err(e) => Err(e@),
    }
}

/// The message of an error.
pub open spec fn err_text(e: ErrView) -> Seq<char> {
    match e {
        ErrView::Io(m) => "io: "@ + m,
        ErrView::Parse { line, msg } => "ini parse at line "@ + text::decimal(line) + ": "@ + msg,
        ErrView::Field { section, key, value, msg } => "field "@ + section + "."@ + key + " = "@
            + text::debug_text(value) + " — "@ + msg,
        ErrView::Validation(m) => "validation: "@ + m,
    }
}

impl ConfigErr {
    /// The message of the error.
    pub fn text(&self) -> (r: String)
        ensures
            r@ == err_text(self@),
    {
        let mut out = String::new();
        match self {
            ConfigErr::Io(m) => {
                out.append("io: ");
                out.append(m.as_str());
            },
            ConfigErr::Parse { line, msg } => {
                out.append("ini parse at line ");
                text::push_decimal(&mut out, *line as u64);
                out.append(": ");
                out.append(msg.as_str());
            },
            ConfigErr::Field { section, key, value, msg } => {
                out.append("field ");
                out.append(section.as_str());
                out.append(".");
                out.append(key.as_str());
                out.append(" = ");
                out.append(text::debug_of(value.as_str()).as_str());
                out.append(" — ");
                out.append(msg.as_str());
            },
            ConfigErr::Validation(m) => {
                out.append("validation: ");
                out.append(m.as_str());
            },
        }
        assert(out@ == err_text(self@));
        out
    }
}

/// An error about the value of a key.
fn field_error(section: &str, key: &str, value: &str, msg: &str) -> (r: ConfigErr)
    ensures
        r@ == (ErrView::Field { section: section@, key: key@, value: value@, msg: msg@ }),
{
    ConfigErr::Field {
        section: section.to_owned(),
        key: key.to_owned(),
        value: value.to_owned(),
        msg: msg.to_owned(),
    }
}

/// An error at a line.
fn parse_error(line: usize, msg: &str) -> (r: ConfigErr)
    ensures
        r@ == (ErrView::Parse { line: line as int, msg: msg@ }),
{
    ConfigErr::Parse { line, msg: msg.to_owned() }
}

// ---------------------------------------------------------------------------
// Sections and keys
// ---------------------------------------------------------------------------

/// The keys of one section.
pub type Section = Table<String>;

/// The sections of a file.
pub type Ini = Table<Table<String>>;

/// The texts of a section.
pub open spec fn section_map(s: Section) -> Map<Seq<char>, Seq<char>> {
    s@.map_values(|v: String| v@)
}

/// The texts of a file.
pub open spec fn ini_map(i: Ini) -> Map<Seq<char>, Map<Seq<char>, Seq<char>>> {
    i@.map_values(|s: Section| section_map(s))
}

/// No section stands twice, and no key stands twice in a section.
pub open spec fn ini_wf(i: Ini) -> bool {
    &&& i.wf()
    &&& forall|k: Seq<char>| #[trigger] i@.contains_key(k) ==> i@[k].wf()
}

/// What the lines read so far hold, and the section that is open.
pub struct IniState {
    pub ini: Map<Seq<char>, Map<Seq<char>, Seq<char>>>,
    pub current: Seq<char>,
}

/// A line without its text where it is a comment.
pub open spec fn without_comment(raw: Seq<char>) -> Seq<char> {
    let t = text::trim_start_of(raw, text::spaces());
    if t.len() > 0 && (t[0] == '#' || t[0] == ';') {
        seq![]
    } else {
        raw
    }
}

/// What a line, counted from 1, adds.
pub open spec fn ini_step(st: IniState, line: int, raw: Seq<char>) -> Result<IniState, ErrView> {
    let t = text::trimmed(without_comment(raw));
    if t.len() == 0 {
        Ok(st)
    } else if t[0] == '[' {
        if t.last() != ']' || t.len() == 1 {
            Err(ErrView::Parse { line, msg: "missing closing ']'"@ })
        } else {
            let name = text::trimmed(t.subrange(1, t.len() - 1));
            if name.len() == 0 {
                Err(ErrView::Parse { line, msg: "empty section name"@ })
            } else if st.ini.contains_key(name) {
                Ok(IniState { ini: st.ini, current: name })
            } else {
                Ok(IniState { ini: st.ini.insert(name, Map::empty()), current: name })
            }
        }
    } else {
        match text::cut(t, '=') {
            None => Err(ErrView::Parse { line, msg: "expected 'key = value'"@ }),
            Some((k, v)) => if st.current.len() == 0 {
                Err(ErrView::Parse { line, msg: "key before any [section]"@ })
            } else {
                Ok(
                    IniState {
                        ini: st.ini.insert(
                            st.current,
                            st.ini[st.current].insert(text::trimmed(k), text::trimmed(v)),
                        ),
                        current: st.current,
                    },
                )
            },
        }
    }
}

/// What the first `n` lines hold, or the first error in them.
pub open spec fn ini_run(ls: Seq<Seq<char>>, n: int) -> Result<IniState, ErrView>
    decreases n,
{
    if n <= 0 {
        Ok(IniState { ini: Map::empty(), current: seq![] })
    } else {
        match ini_run(ls, n - 1) {
            Ok(st) => ini_step(st, n, ls[n - 1]),
            Err(e) => Err(e),
        }
    }
}

/// The sections that a text holds.
pub open spec fn ini_of(s: Seq<char>) -> Result<Map<Seq<char>, Map<Seq<char>, Seq<char>>>, ErrView> {
    let ls = text::lines(s);
    match ini_run(ls, ls.len() as int) {
        Ok(st) => Ok(st.ini),
        Err(e) => Err(e),
    }
}

/// An error in the first lines is the error of the whole.
pub proof fn lemma_ini_error_stays(ls: Seq<Seq<char>>, n: int, m: int)
    requires
        0 <= n <= m,
        ini_run(ls, n) is Err,
    ensures
        ini_run(ls, m) == ini_run(ls, n),
    decreases m,
{
    if n < m {
        lemma_ini_error_stays(ls, n, m - 1);
    }
}

/// Puts a key into the section that is open.
fn put(out: &mut Ini, current: &String, k: String, v: String)
    requires
        ini_wf(*old(out)),
        old(out)@.contains_key(current@),
    ensures
        ini_wf(*final(out)),
        final(out)@.contains_key(current@),
        ini_map(*final(out)) == ini_map(*old(out)).insert(
            current@,
            ini_map(*old(out))[current@].insert(k@, v@),
        ),
{
    let ghost before = *out;
    let mut sec = match out.remove(current.as_str()) {
        Some(s) => s,
        None => Table::new(),
    };
    let ghost mid = sec;
    sec.insert(k, v);
    assert(section_map(sec) =~= section_map(mid).insert(k@, v@));
    out.insert(current.clone(), sec);
    assert(ini_map(*out) =~= ini_map(before).insert(
        current@,
        ini_map(before)[current@].insert(k@, v@),
    ));
}

/// Opens a section.
fn open_section(out: &mut Ini, name: &String)
    requires
        ini_wf(*old(out)),
    ensures
        ini_wf(*final(out)),
        final(out)@.contains_key(name@),
        ini_map(*final(out)) == if ini_map(*old(out)).contains_key(name@) {
            ini_map(*old(out))
        } else {
            ini_map(*old(out)).insert(name@, Map::empty())
        },
{
    let ghost before = *out;
    if out.get(name.as_str()).is_none() {
        let empty: Table<String> = Table::new();
        assert(section_map(empty) =~= Map::<Seq<char>, Seq<char>>::empty());
        out.insert(name.clone(), empty);
        assert(ini_map(*out) =~= ini_map(before).insert(name@, Map::empty()));
    }
}

/// Reads the sections of a file.
pub fn parse_ini(s: &str) -> (r: Result<Ini, ConfigErr>)
    ensures
        match r {
            Ok(i) => ini_wf(i) && ini_of(s@) == Ok::<_, ErrView>(ini_map(i)),
            Err(e) => ini_of(s@) == Err::<Map<Seq<char>, Map<Seq<char>, Seq<char>>>, _>(e@),
        },
{
    let cs = text::chars_of(s);
    let ls = text::lines_of(&cs);
    let ghost all = text::lines(s@);
    let mut out: Ini = Table::new();
    let mut current = String::new();
    let mut i: usize = 0;
    proof {
        assert(ini_map(out) =~= Map::<Seq<char>, Map<Seq<char>, Seq<char>>>::empty());
        assert(current@ =~= Seq::<char>::empty());
    }
    while i < ls.len()
        invariant
            i <= ls@.len(),
            all == text::texts(ls@),
            all == text::lines(s@),
            ini_wf(out),
            current@.len() > 0 ==> out@.contains_key(current@),
            ini_run(all, i as int) == Ok::<_, ErrView>(
                (IniState { ini: ini_map(out), current: current@ }),
            ),
        decreases ls@.len() - i,
    {
        let raw = ls[i];
        let ghost before = IniState { ini: ini_map(out), current: current@ };
        assert(all[i as int] == raw@);
        proof {
            assert(ini_run(all, i + 1) == ini_step(before, i + 1, raw@));
            if ini_step(before, i + 1, raw@) is Err {
                lemma_ini_error_stays(all, i + 1, all.len() as int);
            }
        }
        let line_no: usize = i + 1;
        i = i + 1;
        let line = text::trim(strip_comment(raw));
        let n: usize = line.len();
        if n == 0 {
            continue ;
        }
        if line[0] == '[' {
            if n == 1 || line[n - 1] != ']' {
                return Err(parse_error(line_no, "missing closing ']'"));
            }
            let name = text::trim(slice_subrange(line, 1, n - 1));
            if name.len() == 0 {
                return Err(parse_error(line_no, "empty section name"));
            }
            current = text::str_of(name);
            open_section(&mut out, &current);
            continue ;
        }
        match text::split_once(line, '=') {
            None => {
                return Err(parse_error(line_no, "expected 'key = value'"));
            },
            Some((k, v)) => {
                assert(text::cut(line@, '=') == Some((k@, v@)));
                if current.as_str().is_empty() {
                    assert(current@.len() == 0);
                    return Err(parse_error(line_no, "key before any [section]"));
                }
                put(&mut out, &current, text::str_of(text::trim(k)), text::str_of(text::trim(v)));
            },
        }
    }
    Ok(out)
}

/// A line without its text where it is a comment.
fn strip_comment(line: &[char]) -> (r: &[char])
    ensures
        r@ == without_comment(line@),
{
    let t = text::trim_start(line);
    if t.len() > 0 && (t[0] == '#' || t[0] == ';') {
        slice_subrange(line, 0, 0)
    } else {
        line
    }
}

// ---------------------------------------------------------------------------
// Values
// ---------------------------------------------------------------------------

/// The texts of an optional section.
pub open spec fn opt_section(sec: Option<&Section>) -> Option<Map<Seq<char>, Seq<char>>> {
    match sec {
        Some(s) => Some(section_map(*s)),
        None => None,
    }
}

/// The text under a key of a section.
pub open spec fn key_of(sec: Option<Map<Seq<char>, Seq<char>>>, key: Seq<char>) -> Option<
    Seq<char>,
> {
    match sec {
        Some(m) => if m.contains_key(key) {
            Some(m[key])
        } else {
            None
        },
        None => None,
    }
}

/// The truth value that a text writes, in any case.
pub open spec fn bool_of(raw: Seq<char>) -> Option<bool> {
    let l = text::lowered(raw);
    if l == "true"@ || l == "yes"@ || l == "on"@ || l == "1"@ {
        Some(true)
    } else if l == "false"@ || l == "no"@ || l == "off"@ || l == "0"@ {
        Some(false)
    } else {
        None
    }
}

/// An error about a value, or the value.
pub open spec fn or_field_error<T>(
    v: Option<T>,
    section: Seq<char>,
    key: Seq<char>,
    raw: Seq<char>,
    msg: Seq<char>,
) -> Result<T, ErrView> {
    match v {
        Some(x) => Ok(x),
        None => Err(ErrView::Field { section, key, value: raw, msg }),
    }
}

/// A truth value under a key, or what stands where there is no such key.
pub open spec fn bool_field(
    sec: Option<Map<Seq<char>, Seq<char>>>,
    section: Seq<char>,
    key: Seq<char>,
    absent: bool,
) -> Result<bool, ErrView> {
    match key_of(sec, key) {
        None => Ok(absent),
        Some(raw) => or_field_error(
            bool_of(raw),
            section,
            key,
            raw,
            "expected boolean (true/false/yes/no/on/off/1/0)"@,
        ),
    }
}

/// A number under a key, or what stands where there is no such key.
pub open spec fn num_field(
    sec: Option<Map<Seq<char>, Seq<char>>>,
    section: Seq<char>,
    key: Seq<char>,
    max: int,
    absent: int,
) -> Result<int, ErrView> {
    match key_of(sec, key) {
        None => Ok(absent),
        Some(raw) => or_field_error(
            text::number(raw, 10, max),
            section,
            key,
            raw,
            "expected integer"@,
        ),
    }
}

/// A socket address under a key, where the key stands.
pub open spec fn socket_field(
    sec: Option<Map<Seq<char>, Seq<char>>>,
    section: Seq<char>,
    key: Seq<char>,
) -> Result<Option<SocketAddr>, ErrView> {
    match key_of(sec, key) {
        None => Ok(None),
        Some(raw) => match addr::socket(raw) {
            Some(a) => Ok(Some(a)),
            None => Err(ErrView::Field { section, key, value: raw, msg: "expected ip:port"@ }),
        },
    }
}

/// The text under a key of a section.
fn get<'a>(sec: Option<&'a Section>, key: &str) -> (r: Option<&'a str>)
    requires
        sec matches Some(s) ==> s.wf(),
    ensures
        text::opt_str(r) == key_of(opt_section(sec), key@),
{
    match sec {
        Some(s) => match s.get(key) {
            Some(v) => Some(v.as_str()),
            None => None,
        },
        None => None,
    }
}

/// Reads a truth value.
pub fn parse_bool(section: &str, key: &str, raw: &str) -> (r: Result<bool, ConfigErr>)
    ensures
        res(r) == or_field_error(
            bool_of(raw@),
            section@,
            key@,
            raw@,
            "expected boolean (true/false/yes/no/on/off/1/0)"@,
        ),
{
    let cs = text::chars_of(raw);
    let l = text::to_lower(&cs);
    if text::same(&l, "true") || text::same(&l, "yes") || text::same(&l, "on") || text::same(
        &l,
        "1",
    ) {
        Ok(true)
    } else if text::same(&l, "false") || text::same(&l, "no") || text::same(&l, "off")
        || text::same(&l, "0") {
        Ok(false)
    } else {
        Err(
            field_error(
                section,
                key,
                raw,
                "expected boolean (true/false/yes/no/on/off/1/0)",
            ),
        )
    }
}

/// A result whose number is taken as a mathematical one.
pub open spec fn num_res(r: Result<u64, ConfigErr>) -> Result<int, ErrView> {
    match r {
        Ok(v) => Ok(v as int),
        Err(e) => Err(e@),
    }
}

/// Reads a number of at most `max`.
pub fn parse_num(section: &str, key: &str, raw: &str, max: u64) -> (r: Result<u64, ConfigErr>)
    ensures
        num_res(r) == or_field_error(
            text::number(raw@, 10, max as int),
            section@,
            key@,
            raw@,
            "expected integer"@,
        ),
{
    let cs = text::chars_of(raw);
    match text::parse_number(&cs, 10, max) {
        Some(v) => Ok(v),
        None => Err(field_error(section, key, raw, "expected integer")),
    }
}

/// Reads a socket address.
pub fn parse_socket(section: &str, key: &str, raw: &str) -> (r: Result<SocketAddr, ConfigErr>)
    ensures
        res(r) == or_field_error(addr::socket(raw@), section@, key@, raw@, "expected ip:port"@),
{
    match SocketAddr::parse(raw) {
        Some(a) => Ok(a),
        None => Err(field_error(section, key, raw, "expected ip:port")),
    }
}

/// Reads an IPv4 network.
pub fn parse_cidr(section: &str, key: &str, raw: &str) -> (r: Result<Ipv4Net, ConfigErr>)
    ensures
        res(r) == or_field_error(
            cidr::ipv4_net(raw@),
            section@,
            key@,
            raw@,
            "expected ipv4 cidr e.g. 7.0.0.0/8"@,
        ),
        r matches Ok(n) ==> n.wf(),
{
    match Ipv4Net::parse(raw) {
        Some(n) => Ok(n),
        None => Err(field_error(section, key, raw, "expected ipv4 cidr e.g. 7.0.0.0/8")),
    }
}

/// A truth value under a key.
fn get_bool(sec: Option<&Section>, section: &str, key: &str, absent: bool) -> (r: Result<
    bool,
    ConfigErr,
>)
    requires
        sec matches Some(s) ==> s.wf(),
    ensures
        res(r) == bool_field(opt_section(sec), section@, key@, absent),
{
    match get(sec, key) {
        Some(v) => parse_bool(section, key, v),
        None => Ok(absent),
    }
}

/// A number under a key.
fn get_num(sec: Option<&Section>, section: &str, key: &str, max: u64, absent: u64) -> (r: Result<
    u64,
    ConfigErr,
>)
    requires
        sec matches Some(s) ==> s.wf(),
        absent <= max,
    ensures
        num_res(r) == num_field(opt_section(sec), section@, key@, max as int, absent as int),
        r matches Ok(v) ==> v <= max,
{
    match get(sec, key) {
        Some(v) => parse_num(section, key, v, max),
        None => Ok(absent),
    }
}

/// A socket address under a key.
fn get_socket(sec: Option<&Section>, section: &str, key: &str) -> (r: Result<
    Option<SocketAddr>,
    ConfigErr,
>)
    requires
        sec matches Some(s) ==> s.wf(),
    ensures
        res(r) == socket_field(opt_section(sec), section@, key@),
{
    match get(sec, key) {
        Some(v) => match parse_socket(section, key, v) {
            Ok(a) => Ok(Some(a)),
            Err(e) => Err(e),
        },
        None => Ok(None),
    }
}

// ---------------------------------------------------------------------------
// The sections
// ---------------------------------------------------------------------------

/// What is logged.
#[derive(Debug, Clone)]
pub struct LogCfg {
    pub level: String,
    pub timestamp: bool,
}

/// The values of a log section.
pub struct LogView {
    pub level: Seq<char>,
    pub timestamp: bool,
}

impl View for LogCfg {
    type V = LogView;

    open spec fn view(&self) -> LogView {
        LogView { level: self.level@, timestamp: self.timestamp }
    }
}

/// The values where the file does not say.
pub open spec fn default_log() -> LogView {
    LogView { level: "info"@, timestamp: true }
}

impl Default for LogCfg {
    fn default() -> (r: Self)
        ensures
            r@ == default_log(),
    {
        LogCfg { level: "info".to_owned(), timestamp: true }
    }
}

/// A result of a section with texts.
pub open spec fn view_res<T: View>(r: Result<T, ConfigErr>) -> Result<T::V, ErrView> {
    match r {
        Ok(v) => Ok(v@),
        Err(e) => Err(e@),
    }
}

/// The values of the section `log`.
pub open spec fn log_cfg(sec: Option<Map<Seq<char>, Seq<char>>>) -> Result<LogView, ErrView> {
    let d = default_log();
    match bool_field(sec, "log"@, "timestamp"@, d.timestamp) {
        Err(e) => Err(e),
        Ok(timestamp) => Ok(
            LogView {
                level: match key_of(sec, "level"@) {
                    Some(v) => v,
                    None => d.level,
                },
                timestamp,
            },
        ),
    }
}

/// Reads the section `log`.
pub fn parse_log(sec: Option<&Section>) -> (r: Result<LogCfg, ConfigErr>)
    requires
        sec matches Some(s) ==> s.wf(),
    ensures
        view_res(r) == log_cfg(opt_section(sec)),
{
    let mut c = LogCfg::default();
    if let Some(v) = get(sec, "level") {
        c.level = v.to_owned();
    }
    match get_bool(sec, "log", "timestamp", c.timestamp) {
        Ok(b) => {
            c.timestamp = b;
        },
        Err(e) => return Err(e),
    }
    Ok(c)
}

/// Where connections come in and how they are copied.
#[derive(Debug, Clone, Copy, PartialEq, Eq, Structural)]
pub struct InboundCfg {
    pub listen: SocketAddr,
    pub listen6: Option<SocketAddr>,
    pub sniff_timeout_ms: u64,
    pub splice_copy: bool,
    pub splice_threshold: u64,
    pub udp: bool,
    pub udp_idle_sec: u64,
    pub udp_workers: usize,
    pub tcp_workers: usize,
    pub spoof_cache_cap: usize,
    pub tune_sysctl: bool,
}

/// The smaller of two numbers.
pub open spec fn min_of(a: int, b: int) -> int {
    if a <= b {
        a
    } else {
        b
    }
}

/// The larger of two numbers.
pub open spec fn max_of(a: int, b: int) -> int {
    if a <= b {
        b
    } else {
        a
    }
}

/// A number brought between two bounds.
pub open spec fn clamped(a: int, lo: int, hi: int) -> int {
    if a < lo {
        lo
    } else if a > hi {
        hi
    } else {
        a
    }
}

/// An IPv4 socket address.
pub open spec fn v4_socket(ip: u32, port: u16) -> SocketAddr {
    SocketAddr { ip: IpAddr::V4(ip), port, scope: 0 }
}

/// How many workers there are on a machine with `cpus` processors.
pub fn default_udp_workers(cpus: usize) -> (r: usize)
    ensures
        r == min_of(cpus as int, 8),
{
    if cpus <= 8 {
        cpus
    } else {
        8
    }
}

/// The values where the file does not say.
pub open spec fn default_inbound(cpus: usize) -> InboundCfg {
    InboundCfg {
        listen: v4_socket(0x7f00_0001, 1081),
        listen6: None,
        sniff_timeout_ms: 300,
        splice_copy: true,
        splice_threshold: 0x10_0000,
        udp: true,
        udp_idle_sec: 60,
        udp_workers: min_of(cpus as int, 8) as usize,
        tcp_workers: min_of(cpus as int, 8) as usize,
        spoof_cache_cap: 1024,
        tune_sysctl: true,
    }
}

impl InboundCfg {
    /// The values where the file does not say, on a machine with `cpus` processors.
    pub fn defaults(cpus: usize) -> (r: InboundCfg)
        ensures
            r == default_inbound(cpus),
    {
        InboundCfg {
            listen: SocketAddr::new(IpAddr::V4(0x7f00_0001), 1081),
            listen6: None,
            sniff_timeout_ms: 300,
            splice_copy: true,
            splice_threshold: 0x10_0000,
            udp: true,
            udp_idle_sec: 60,
            udp_workers: default_udp_workers(cpus),
            tcp_workers: default_udp_workers(cpus),
            spoof_cache_cap: 1024,
            tune_sysctl: true,
        }
    }
}

/// An optional value or another.
pub open spec fn or<T>(v: Option<T>, other: T) -> T {
    match v {
        Some(x) => x,
        None => other,
    }
}

/// A socket address under a key that has to be an IPv6 address.
pub open spec fn socket6_field(sec: Option<Map<Seq<char>, Seq<char>>>) -> Result<
    Option<SocketAddr>,
    ErrView,
> {
    match socket_field(sec, "inbound"@, "listen6"@) {
        Ok(Some(a)) => if a.ip is V6 {
            Ok(Some(a))
        } else {
            Err(
                ErrView::Field {
                    section: "inbound"@,
                    key: "listen6"@,
                    value: key_of(sec, "listen6"@)->0,
                    msg: "expected an IPv6 ip:port e.g. [::1]:1081"@,
                },
            )
        },
        other => other,
    }
}

/// The values of the section `inbound`. The first key in the order of the fields
/// that cannot be read gives the error.
pub open spec fn inbound_cfg(sec: Option<Map<Seq<char>, Seq<char>>>, cpus: usize) -> Result<
    InboundCfg,
    ErrView,
> {
    let d = default_inbound(cpus);
    let n = "inbound"@;
    let listen = socket_field(sec, n, "listen"@);
    let listen6 = socket6_field(sec);
    let sniff = num_field(
        sec,
        n,
        "sniff_timeout_ms"@,
        u64::MAX as int,
        d.sniff_timeout_ms as int,
    );
    let splice = bool_field(sec, n, "splice_copy"@, d.splice_copy);
    let threshold = num_field(
        sec,
        n,
        "splice_threshold"@,
        u64::MAX as int,
        d.splice_threshold as int,
    );
    let udp = bool_field(sec, n, "udp"@, d.udp);
    let idle = num_field(sec, n, "udp_idle_sec"@, u64::MAX as int, d.udp_idle_sec as int);
    let udp_workers = num_field(sec, n, "udp_workers"@, usize::MAX as int, d.udp_workers as int);
    let tcp_workers = num_field(sec, n, "tcp_workers"@, usize::MAX as int, d.tcp_workers as int);
    let cap = num_field(sec, n, "spoof_cache_cap"@, usize::MAX as int, d.spoof_cache_cap as int);
    let tune = bool_field(sec, n, "tune_sysctl"@, d.tune_sysctl);
    if listen is Err {
        Err(listen->Err_0)
    } else if listen6 is Err {
        Err(listen6->Err_0)
    } else if sniff is Err {
        Err(sniff->Err_0)
    } else if splice is Err {
        Err(splice->Err_0)
    } else if threshold is Err {
        Err(threshold->Err_0)
    } else if udp is Err {
        Err(udp->Err_0)
    } else if idle is Err {
        Err(idle->Err_0)
    } else if udp_workers is Err {
        Err(udp_workers->Err_0)
    } else if tcp_workers is Err {
        Err(tcp_workers->Err_0)
    } else if cap is Err {
        Err(cap->Err_0)
    } else if tune is Err {
        Err(tune->Err_0)
    } else {
        Ok(
            InboundCfg {
                listen: or(listen->Ok_0, d.listen),
                listen6: listen6->Ok_0,
                sniff_timeout_ms: sniff->Ok_0 as u64,
                splice_copy: splice->Ok_0,
                splice_threshold: threshold->Ok_0 as u64,
                udp: udp->Ok_0,
                udp_idle_sec: idle->Ok_0 as u64,
                udp_workers: if key_of(sec, "udp_workers"@) is Some {
                    max_of(udp_workers->Ok_0, 1) as usize
                } else {
                    d.udp_workers
                },
                tcp_workers: if key_of(sec, "tcp_workers"@) is Some {
                    clamped(tcp_workers->Ok_0, 1, 64) as usize
                } else {
                    d.tcp_workers
                },
                spoof_cache_cap: max_of(cap->Ok_0, 16) as usize,
                tune_sysctl: tune->Ok_0,
            },
        )
    }
}

/// Reads the section `inbound`.
pub fn parse_inbound(sec: Option<&Section>, cpus: usize) -> (r: Result<InboundCfg, ConfigErr>)
    requires
        sec matches Some(s) ==> s.wf(),
    ensures
        res(r) == inbound_cfg(opt_section(sec), cpus),
{
    let mut c = InboundCfg::defaults(cpus);
    let s = "inbound";
    match get_socket(sec, s, "listen") {
        Ok(Some(a)) => {
            c.listen = a;
        },
        Ok(None) => {},
        Err(e) => return Err(e),
    }
    if let Some(v) = get(sec, "listen6") {
        match parse_socket(s, "listen6", v) {
            Ok(a) => match a.ip {
                IpAddr::V6(_) => {
                    c.listen6 = Some(a);
                },
                IpAddr::V4(_) => return Err(
                    field_error(s, "listen6", v, "expected an IPv6 ip:port e.g. [::1]:1081"),
                ),
            },
            Err(e) => return Err(e),
        }
    }
    match get_num(sec, s, "sniff_timeout_ms", u64::MAX, c.sniff_timeout_ms) {
        Ok(n) => {
            c.sniff_timeout_ms = n;
        },
        Err(e) => return Err(e),
    }
    match get_bool(sec, s, "splice_copy", c.splice_copy) {
        Ok(b) => {
            c.splice_copy = b;
        },
        Err(e) => return Err(e),
    }
    match get_num(sec, s, "splice_threshold", u64::MAX, c.splice_threshold) {
        Ok(n) => {
            c.splice_threshold = n;
        },
        Err(e) => return Err(e),
    }
    match get_bool(sec, s, "udp", c.udp) {
        Ok(b) => {
            c.udp = b;
        },
        Err(e) => return Err(e),
    }
    match get_num(sec, s, "udp_idle_sec", u64::MAX, c.udp_idle_sec) {
        Ok(n) => {
            c.udp_idle_sec = n;
        },
        Err(e) => return Err(e),
    }
    if let Some(v) = get(sec, "udp_workers") {
        match parse_num(s, "udp_workers", v, usize::MAX as u64) {
            Ok(n) => {
                c.udp_workers = if n < 1 {
                    1
                } else {
                    n as usize
                };
            },
            Err(e) => return Err(e),
        }
    }
    if let Some(v) = get(sec, "tcp_workers") {
        match parse_num(s, "tcp_workers", v, usize::MAX as u64) {
            Ok(n) => {
                c.tcp_workers = if n < 1 {
                    1
                } else if n > 64 {
                    64
                } else {
                    n as usize
                };
            },
            Err(e) => return Err(e),
        }
    }
    match get_num(sec, s, "spoof_cache_cap", usize::MAX as u64, c.spoof_cache_cap as u64) {
        Ok(n) => {
            c.spoof_cache_cap = if n < 16 {
                16
            } else {
                n as usize
            };
        },
        Err(e) => return Err(e),
    }
    match get_bool(sec, s, "tune_sysctl", c.tune_sysctl) {
        Ok(b) => {
            c.tune_sysctl = b;
        },
        Err(e) => return Err(e),
    }
    Ok(c)
}

/// The upstream SOCKS server and the pool of connections to it.
#[derive(Debug, Clone, Copy, PartialEq, Eq, Structural)]
pub struct SocksCfg {
    pub server: SocketAddr,
    pub pool_min: usize,
    pub pool_max: usize,
    pub pool_idle_sec: u64,
}

/// The values where the file does not say.
pub open spec fn default_socks() -> SocksCfg {
    SocksCfg {
        server: v4_socket(0x7f00_0001, 1080),
        pool_min: 8,
        pool_max: 128,
        pool_idle_sec: 300,
    }
}

impl Default for SocksCfg {
    fn default() -> (r: Self)
        ensures
            r == default_socks(),
    {
        SocksCfg {
            server: SocketAddr::new(IpAddr::V4(0x7f00_0001), 1080),
            pool_min: 8,
            pool_max: 128,
            pool_idle_sec: 300,
        }
    }
}

/// The largest pool that a file may ask for.
pub const POOL_HARD_CAP: usize = 65_536;

/// The values of the section `socks5`. The largest size of the pool is at least 1
/// and at most `POOL_HARD_CAP`, and the smallest is no larger than it.
pub open spec fn socks_cfg(sec: Option<Map<Seq<char>, Seq<char>>>) -> Result<SocksCfg, ErrView> {
    let d = default_socks();
    let n = "socks5"@;
    let server = socket_field(sec, n, "server"@);
    let min = num_field(sec, n, "pool_min"@, usize::MAX as int, d.pool_min as int);
    let max = num_field(sec, n, "pool_max"@, usize::MAX as int, d.pool_max as int);
    let idle = num_field(sec, n, "pool_idle_sec"@, u64::MAX as int, d.pool_idle_sec as int);
    if server is Err {
        Err(server->Err_0)
    } else if min is Err {
        Err(min->Err_0)
    } else if max is Err {
        Err(max->Err_0)
    } else if idle is Err {
        Err(idle->Err_0)
    } else if max->Ok_0 == 0 || max->Ok_0 > POOL_HARD_CAP {
        Err(
            ErrView::Validation(
                "socks5.pool_max must be in 1..=65536, got "@ + text::decimal(max->Ok_0),
            ),
        )
    } else if min->Ok_0 > max->Ok_0 {
        Err(
            ErrView::Validation(
                "socks5.pool_min ("@ + text::decimal(min->Ok_0) + ") must be <= pool_max ("@
                    + text::decimal(max->Ok_0) + ")"@,
            ),
        )
    } else {
        Ok(
            SocksCfg {
                server: or(server->Ok_0, d.server),
                pool_min: min->Ok_0 as usize,
                pool_max: max->Ok_0 as usize,
                pool_idle_sec: idle->Ok_0 as u64,
            },
        )
    }
}

/// Reads the section `socks5`.
pub fn parse_socks(sec: Option<&Section>) -> (r: Result<SocksCfg, ConfigErr>)
    requires
        sec matches Some(s) ==> s.wf(),
    ensures
        res(r) == socks_cfg(opt_section(sec)),
{
    let mut c = SocksCfg::default();
    let s = "socks5";
    match get_socket(sec, s, "server") {
        Ok(Some(a)) => {
            c.server = a;
        },
        Ok(None) => {},
        Err(e) => return Err(e),
    }
    match get_num(sec, s, "pool_min", usize::MAX as u64, c.pool_min as u64) {
        Ok(n) => {
            c.pool_min = n as usize;
        },
        Err(e) => return Err(e),
    }
    match get_num(sec, s, "pool_max", usize::MAX as u64, c.pool_max as u64) {
        Ok(n) => {
            c.pool_max = n as usize;
        },
        Err(e) => return Err(e),
    }
    match get_num(sec, s, "pool_idle_sec", u64::MAX, c.pool_idle_sec) {
        Ok(n) => {
            c.pool_idle_sec = n;
        },
        Err(e) => return Err(e),
    }
    if c.pool_max == 0 || c.pool_max > POOL_HARD_CAP {
        let mut m = "socks5.pool_max must be in 1..=65536, got ".to_owned();
        text::push_decimal(&mut m, c.pool_max as u64);
        return Err(ConfigErr::Validation(m));
    }
    if c.pool_min > c.pool_max {
        let mut m = "socks5.pool_min (".to_owned();
        text::push_decimal(&mut m, c.pool_min as u64);
        m.append(") must be <= pool_max (");
        text::push_decimal(&mut m, c.pool_max as u64);
        m.append(")");
        return Err(ConfigErr::Validation(m));
    }
    Ok(c)
}

/// Which traffic is let through and logged.
#[derive(Debug, Clone, Copy, PartialEq, Eq, Structural)]
pub struct RouteCfg {
    pub block_bittorrent: bool,
    pub block_quic: bool,
    pub block_unknown: bool,
    pub log_sniffed: bool,
}

/// The values where the file does not say.
pub open spec fn default_route() -> RouteCfg {
    RouteCfg { block_bittorrent: true, block_quic: false, block_unknown: false, log_sniffed: true }
}

impl Default for RouteCfg {
    fn default() -> (r: Self)
        ensures
            r == default_route(),
    {
        RouteCfg {
            block_bittorrent: true,
            block_quic: false,
            block_unknown: false,
            log_sniffed: true,
        }
    }
}

/// The values of the section `route`.
pub open spec fn route_cfg(sec: Option<Map<Seq<char>, Seq<char>>>) -> Result<RouteCfg, ErrView> {
    let d = default_route();
    let n = "route"@;
    let bt = bool_field(sec, n, "block_bittorrent"@, d.block_bittorrent);
    let quic = bool_field(sec, n, "block_quic"@, d.block_quic);
    let unknown = bool_field(sec, n, "block_unknown"@, d.block_unknown);
    let log = bool_field(sec, n, "log_sniffed"@, d.log_sniffed);
    if bt is Err {
        Err(bt->Err_0)
    } else if quic is Err {
        Err(quic->Err_0)
    } else if unknown is Err {
        Err(unknown->Err_0)
    } else if log is Err {
        Err(log->Err_0)
    } else {
        Ok(
            RouteCfg {
                block_bittorrent: bt->Ok_0,
                block_quic: quic->Ok_0,
                block_unknown: unknown->Ok_0,
                log_sniffed: log->Ok_0,
            },
        )
    }
}

/// Reads the section `route`.
pub fn parse_route(sec: Option<&Section>) -> (r: Result<RouteCfg, ConfigErr>)
    requires
        sec matches Some(s) ==> s.wf(),
    ensures
        res(r) == route_cfg(opt_section(sec)),
{
    let mut c = RouteCfg::default();
    match get_bool(sec, "route", "block_bittorrent", c.block_bittorrent) {
        Ok(b) => {
            c.block_bittorrent = b;
        },
        Err(e) => return Err(e),
    }
    match get_bool(sec, "route", "block_quic", c.block_quic) {
        Ok(b) => {
            c.block_quic = b;
        },
        Err(e) => return Err(e),
    }
    match get_bool(sec, "route", "block_unknown", c.block_unknown) {
        Ok(b) => {
            c.block_unknown = b;
        },
        Err(e) => return Err(e),
    }
    match get_bool(sec, "route", "log_sniffed", c.log_sniffed) {
        Ok(b) => {
            c.log_sniffed = b;
        },
        Err(e) => return Err(e),
    }
    Ok(c)
}

/// What is kept of past connections.
#[derive(Debug, Clone, Copy, PartialEq, Eq, Structural)]
pub struct StatsCfg {
    pub enabled: bool,
    pub max_rec: usize,
    pub net_cleanday: u8,
    pub traffic_window_min: u32,
}

/// The values where the section does not say.
pub open spec fn default_stats() -> StatsCfg {
    StatsCfg { enabled: true, max_rec: 5000, net_cleanday: 0, traffic_window_min: 60 }
}

impl Default for StatsCfg {
    fn default() -> (r: Self)
        ensures
            r == default_stats(),
    {
        StatsCfg { enabled: true, max_rec: 5000, net_cleanday: 0, traffic_window_min: 60 }
    }
}

/// The values of the section `stats`, where it stands. Where it is not enabled the
/// other keys are not read.
pub open spec fn stats_cfg(sec: Option<Map<Seq<char>, Seq<char>>>) -> Result<
    Option<StatsCfg>,
    ErrView,
> {
    let d = default_stats();
    let n = "stats"@;
    let enabled = bool_field(sec, n, "enabled"@, d.enabled);
    let rec = num_field(sec, n, "max_rec"@, usize::MAX as int, d.max_rec as int);
    let day = num_field(sec, n, "net_cleanday"@, u8::MAX as int, d.net_cleanday as int);
    let window = num_field(
        sec,
        n,
        "traffic_window_min"@,
        u32::MAX as int,
        d.traffic_window_min as int,
    );
    if sec is None {
        Ok(None)
    } else if enabled is Err {
        Err(enabled->Err_0)
    } else if !enabled->Ok_0 {
        Ok(Some((StatsCfg { enabled: false, ..d })))
    } else if rec is Err {
        Err(rec->Err_0)
    } else if day is Err {
        Err(day->Err_0)
    } else if window is Err {
        Err(window->Err_0)
    } else {
        Ok(
            Some(
                (StatsCfg {
                    enabled: true,
                    max_rec: rec->Ok_0 as usize,
                    net_cleanday: day->Ok_0 as u8,
                    traffic_window_min: window->Ok_0 as u32,
                }),
            ),
        )
    }
}

/// Reads the section `stats`.
pub fn parse_stats(sec: Option<&Section>) -> (r: Result<Option<StatsCfg>, ConfigErr>)
    requires
        sec matches Some(s) ==> s.wf(),
    ensures
        res(r) == stats_cfg(opt_section(sec)),
{
    if sec.is_none() {
        return Ok(None);
    }
    let mut c = StatsCfg::default();
    match get_bool(sec, "stats", "enabled", c.enabled) {
        Ok(b) => {
            c.enabled = b;
        },
        Err(e) => return Err(e),
    }
    if !c.enabled {
        return Ok(Some(c));
    }
    match get_num(sec, "stats", "max_rec", usize::MAX as u64, c.max_rec as u64) {
        Ok(n) => {
            c.max_rec = n as usize;
        },
        Err(e) => return Err(e),
    }
    match get_num(sec, "stats", "net_cleanday", u8::MAX as u64, c.net_cleanday as u64) {
        Ok(n) => {
            c.net_cleanday = n as u8;
        },
        Err(e) => return Err(e),
    }
    match get_num(sec, "stats", "traffic_window_min", u32::MAX as u64, c.traffic_window_min as u64) {
        Ok(n) => {
            c.traffic_window_min = n as u32;
        },
        Err(e) => return Err(e),
    }
    Ok(Some(c))
}

/// The name server that gives out addresses of its own.
#[derive(Debug, Clone, Copy, PartialEq, Eq, Structural)]
pub struct DnsCfg {
    pub enabled: bool,
    pub listen: SocketAddr,
    pub fake_cidr: Ipv4Net,
    pub ttl: u32,
    pub max_entries: Option<usize>,
    pub max_mem_pct: u8,
    pub shards: u32,
}

/// The values where the section does not say.
pub open spec fn default_dns() -> DnsCfg {
    DnsCfg {
        enabled: true,
        listen: v4_socket(0x7f00_0001, 1053),
        fake_cidr: Ipv4Net { addr: 0x0700_0000, prefix: 8 },
        ttl: 3,
        max_entries: None,
        max_mem_pct: 30,
        shards: 16,
    }
}

impl Default for DnsCfg {
    fn default() -> (r: Self)
        ensures
            r == default_dns(),
    {
        DnsCfg {
            enabled: true,
            listen: SocketAddr::new(IpAddr::V4(0x7f00_0001), 1053),
            fake_cidr: Ipv4Net { addr: 0x0700_0000, prefix: 8 },
            ttl: 3,
            max_entries: None,
            max_mem_pct: 30,
            shards: 16,
        }
    }
}

/// A network under a key, where the key stands.
pub open spec fn cidr_field(
    sec: Option<Map<Seq<char>, Seq<char>>>,
    section: Seq<char>,
    key: Seq<char>,
) -> Result<Option<Ipv4Net>, ErrView> {
    match key_of(sec, key) {
        None => Ok(None),
        Some(raw) => match cidr::ipv4_net(raw) {
            Some(n) => Ok(Some(n)),
            None => Err(
                ErrView::Field {
                    section,
                    key,
                    value: raw,
                    msg: "expected ipv4 cidr e.g. 7.0.0.0/8"@,
                },
            ),
        },
    }
}

/// The values of the section `dns`, where it stands. Where it is not enabled the
/// other keys are not read. There is room for at least one entry, the share of the
/// memory is a percentage, and there is at least one shard.
pub open spec fn dns_cfg(sec: Option<Map<Seq<char>, Seq<char>>>) -> Result<Option<DnsCfg>, ErrView> {
    let d = default_dns();
    let n = "dns"@;
    let enabled = bool_field(sec, n, "enabled"@, d.enabled);
    let listen = socket_field(sec, n, "listen"@);
    let fake = cidr_field(sec, n, "fake_cidr"@);
    let ttl = num_field(sec, n, "ttl"@, u32::MAX as int, d.ttl as int);
    let entries = num_field(sec, n, "max_entries"@, usize::MAX as int, 1);
    let pct = num_field(sec, n, "max_mem_pct"@, u8::MAX as int, d.max_mem_pct as int);
    let shards = num_field(sec, n, "shards"@, u32::MAX as int, d.shards as int);
    if sec is None {
        Ok(None)
    } else if enabled is Err {
        Err(enabled->Err_0)
    } else if !enabled->Ok_0 {
        Ok(Some((DnsCfg { enabled: false, ..d })))
    } else if listen is Err {
        Err(listen->Err_0)
    } else if fake is Err {
        Err(fake->Err_0)
    } else if ttl is Err {
        Err(ttl->Err_0)
    } else if entries is Err {
        Err(entries->Err_0)
    } else if pct is Err {
        Err(pct->Err_0)
    } else if shards is Err {
        Err(shards->Err_0)
    } else if entries->Ok_0 == 0 {
        Err(ErrView::Validation("dns.max_entries must be >= 1"@))
    } else if pct->Ok_0 == 0 || pct->Ok_0 > 100 {
        Err(ErrView::Validation("dns.max_mem_pct must be 1..=100"@))
    } else if shards->Ok_0 == 0 {
        Err(ErrView::Validation("dns.shards must be >= 1"@))
    } else {
        Ok(
            Some(
                (DnsCfg {
                    enabled: true,
                    listen: or(listen->Ok_0, d.listen),
                    fake_cidr: or(fake->Ok_0, d.fake_cidr),
                    ttl: ttl->Ok_0 as u32,
                    max_entries: if key_of(sec, "max_entries"@) is Some {
                        Some(entries->Ok_0 as usize)
                    } else {
                        None
                    },
                    max_mem_pct: pct->Ok_0 as u8,
                    shards: shards->Ok_0 as u32,
                }),
            ),
        )
    }
}

/// Reads the section `dns`.
pub fn parse_dns(sec: Option<&Section>) -> (r: Result<Option<DnsCfg>, ConfigErr>)
    requires
        sec matches Some(s) ==> s.wf(),
    ensures
        res(r) == dns_cfg(opt_section(sec)),
        r matches Ok(Some(c)) ==> c.fake_cidr.wf(),
{
    if sec.is_none() {
        return Ok(None);
    }
    let mut c = DnsCfg::default();
    match get_bool(sec, "dns", "enabled", c.enabled) {
        Ok(b) => {
            c.enabled = b;
        },
        Err(e) => return Err(e),
    }
    if !c.enabled {
        return Ok(Some(c));
    }
    match get_socket(sec, "dns", "listen") {
        Ok(Some(a)) => {
            c.listen = a;
        },
        Ok(None) => {},
        Err(e) => return Err(e),
    }
    if let Some(v) = get(sec, "fake_cidr") {
        match parse_cidr("dns", "fake_cidr", v) {
            Ok(n) => {
                c.fake_cidr = n;
            },
            Err(e) => return Err(e),
        }
    }
    match get_num(sec, "dns", "ttl", u32::MAX as u64, c.ttl as u64) {
        Ok(n) => {
            c.ttl = n as u32;
        },
        Err(e) => return Err(e),
    }
    if let Some(v) = get(sec, "max_entries") {
        match parse_num("dns", "max_entries", v, usize::MAX as u64) {
            Ok(n) => {
                c.max_entries = Some(n as usize);
            },
            Err(e) => return Err(e),
        }
    }
    match get_num(sec, "dns", "max_mem_pct", u8::MAX as u64, c.max_mem_pct as u64) {
        Ok(n) => {
            c.max_mem_pct = n as u8;
        },
        Err(e) => return Err(e),
    }
    match get_num(sec, "dns", "shards", u32::MAX as u64, c.shards as u64) {
        Ok(n) => {
            c.shards = n as u32;
        },
        Err(e) => return Err(e),
    }
    if let Some(n) = c.max_entries {
        if n == 0 {
            return Err(ConfigErr::Validation("dns.max_entries must be >= 1".to_owned()));
        }
    }
    if c.max_mem_pct == 0 || c.max_mem_pct > 100 {
        return Err(ConfigErr::Validation("dns.max_mem_pct must be 1..=100".to_owned()));
    }
    if c.shards == 0 {
        return Err(ConfigErr::Validation("dns.shards must be >= 1".to_owned()));
    }
    Ok(Some(c))
}

// ---------------------------------------------------------------------------
// Access lists
// ---------------------------------------------------------------------------

/// The networks that are let in; an empty list lets everyone in.
#[derive(Debug)]
pub struct CidrAcl {
    nets: Vec<Ipv4Net>,
}

impl View for CidrAcl {
    type V = Seq<Ipv4Net>;

    closed spec fn view(&self) -> Seq<Ipv4Net> {
        self.nets@
    }
}

/// The network that an item of a list writes: a network, or the address of one
/// host.
pub open spec fn acl_item(item: Seq<char>) -> Result<Ipv4Net, Seq<char>> {
    if item.contains('/') {
        match cidr::ipv4_net(item) {
            Some(n) => Ok(n),
            None => Err(
                "bad cidr "@ + text::debug_text(item) + ": invalid IP address syntax"@,
            ),
        }
    } else {
        match addr::ipv4(item) {
            Some(a) => Ok(Ipv4Net { addr: a, prefix: 32 }),
            None => Err(
                "bad ip "@ + text::debug_text(item) + ": invalid IPv4 address syntax"@,
            ),
        }
    }
}

/// The networks of the first `n` items, or the first error in them. Items that are
/// blank do not count.
pub open spec fn acl_run(items: Seq<Seq<char>>, n: int) -> Result<Seq<Ipv4Net>, Seq<char>>
    decreases n,
{
    if n <= 0 {
        Ok(seq![])
    } else {
        let item = text::trimmed(items[n - 1]);
        match acl_run(items, n - 1) {
            Err(e) => Err(e),
            Ok(nets) => if item.len() == 0 {
                Ok(nets)
            } else {
                match acl_item(item) {
                    Ok(net) => Ok(nets.push(net)),
                    Err(e) => Err(e),
                }
            },
        }
    }
}

/// The networks that a list with commas writes.
pub open spec fn acl_of(raw: Seq<char>) -> Result<Seq<Ipv4Net>, Seq<char>> {
    let items = text::split(raw, ',');
    acl_run(items, items.len() as int)
}

/// Whether a list lets an address in.
pub open spec fn allowed(nets: Seq<Ipv4Net>, ip: IpAddr) -> bool {
    nets.len() == 0 || (cidr::as_v4(ip) matches Some(a) && exists|i: int|
        0 <= i < nets.len() && (#[trigger] nets[i]).has(a))
}

/// An error in the first items is the error of the whole.
proof fn lemma_acl_error_stays(items: Seq<Seq<char>>, n: int, m: int)
    requires
        0 <= n <= m,
        acl_run(items, n) is Err,
    ensures
        acl_run(items, m) == acl_run(items, n),
    decreases m,
{
    if n < m {
        lemma_acl_error_stays(items, n, m - 1);
    }
}

/// A result of a list with the text of its error.
pub open spec fn acl_res(r: Result<CidrAcl, String>) -> Result<Seq<Ipv4Net>, Seq<char>> {
    match r {
        Ok(a) => Ok(a@),
        Err(e) => Err(e@),
    }
}

/// Reads an item of a list.
fn parse_acl_item(item: &[char]) -> (r: Result<Ipv4Net, String>)
    ensures
        match r {
            Ok(n) => acl_item(item@) == Ok::<_, Seq<char>>(n) && n.wf(),
            Err(e) => acl_item(item@) == Err::<Ipv4Net, _>(e@),
        },
{
    let s = text::str_of(item);
    if text::contains_char(item, '/') {
        match Ipv4Net::parse(s.as_str()) {
            Some(n) => Ok(n),
            None => {
                let mut m = "bad cidr ".to_owned();
                m.append(text::debug_of(s.as_str()).as_str());
                m.append(": invalid IP address syntax");
                Err(m)
            },
        }
    } else {
        match addr::parse_ipv4(item) {
            Some(a) => Ok(Ipv4Net { addr: a, prefix: 32 }),
            None => {
                let mut m = "bad ip ".to_owned();
                m.append(text::debug_of(s.as_str()).as_str());
                m.append(": invalid IPv4 address syntax");
                Err(m)
            },
        }
    }
}

impl Default for CidrAcl {
    fn default() -> (r: Self)
        ensures
            r@ == Seq::<Ipv4Net>::empty(),
    {
        CidrAcl { nets: Vec::new() }
    }
}

impl CidrAcl {
    #[verifier::type_invariant]
    spec fn wf(&self) -> bool {
        forall|i: int| 0 <= i < self.nets@.len() ==> (#[trigger] self.nets@[i]).wf()
    }

    /// Reads a list.
    pub fn parse(raw: &str) -> (r: Result<CidrAcl, String>)
        ensures
            acl_res(r) == acl_of(raw@),
    {
        let cs = text::chars_of(raw);
        let items = text::split_char(&cs, ',');
        let ghost all = text::split(raw@, ',');
        let mut nets: Vec<Ipv4Net> = Vec::new();
        let mut i: usize = 0;
        while i < items.len()
            invariant
                i <= items@.len(),
                all == text::texts(items@),
                all == text::split(raw@, ','),
                acl_run(all, i as int) == Ok::<_, Seq<char>>(nets@),
                forall|j: int| 0 <= j < nets@.len() ==> (#[trigger] nets@[j]).wf(),
            decreases items@.len() - i,
        {
            assert(all[i as int] == items@[i as int]@);
            let item = text::trim(items[i]);
            if item.len() > 0 {
                match parse_acl_item(item) {
                    Ok(n) => {
                        nets.push(n);
                    },
                    Err(e) => {
                        proof {
                            lemma_acl_error_stays(all, i + 1, all.len() as int);
                        }
                        return Err(e);
                    },
                }
            }
            i = i + 1;
        }
        Ok(CidrAcl { nets })
    }

    /// Whether the list names no network.
    pub fn is_empty(&self) -> (r: bool)
        ensures
            r == (self@.len() == 0),
    {
        self.nets.len() == 0
    }

    /// The networks of the list.
    pub fn nets(&self) -> (r: &[Ipv4Net])
        ensures
            r@ == self@,
    {
        self.nets.as_slice()
    }

    /// Whether the list lets an address in.
    pub fn allows(&self, ip: IpAddr) -> (r: bool)
        ensures
            r == allowed(self@, ip),
    {
        proof {
            use_type_invariant(self);
        }
        if self.nets.len() == 0 {
            return true;
        }
        let a = match cidr::mapped_v4(ip) {
            Some(a) => a,
            None => return false,
        };
        let mut i: usize = 0;
        while i < self.nets.len()
            invariant
                i <= self.nets@.len(),
                cidr::as_v4(ip) == Some(a),
                forall|j: int| 0 <= j < self.nets@.len() ==> (#[trigger] self.nets@[j]).wf(),
                forall|j: int| 0 <= j < i ==> !(#[trigger] self.nets@[j]).has(a),
            decreases self.nets@.len() - i,
        {
            if self.nets[i].contains(a) {
                assert(self@[i as int].has(a));
                return true;
            }
            i = i + 1;
        }
        false
    }
}

impl Clone for CidrAcl {
    fn clone(&self) -> (r: Self)
        ensures
            r@ == self@,
    {
        proof {
            use_type_invariant(self);
        }
        let mut nets: Vec<Ipv4Net> = Vec::new();
        let mut i: usize = 0;
        while i < self.nets.len()
            invariant
                i <= self.nets@.len(),
                forall|j: int| 0 <= j < self.nets@.len() ==> (#[trigger] self.nets@[j]).wf(),
                nets@ == self.nets@.take(i as int),
            decreases self.nets@.len() - i,
        {
            nets.push(self.nets[i]);
            i = i + 1;
            assert(nets@ == self.nets@.take(i as int));
        }
        assert(nets@ == self.nets@);
        CidrAcl { nets }
    }
}

// ---------------------------------------------------------------------------
// The remaining sections
// ---------------------------------------------------------------------------

/// An optional pair of strings as texts.
pub open spec fn opt_pair(p: Option<(String, String)>) -> Option<(Seq<char>, Seq<char>)> {
    match p {
        Some((a, b)) => Some((a@, b@)),
        None => None,
    }
}

/// A user and a password with a colon between them.
pub fn parse_userpass(section: &str, key: &str, raw: &str) -> (r: Result<
    (String, String),
    ConfigErr,
>)
    ensures
        match r {
            Ok((u, p)) => text::cut(raw@, ':') == Some((u@, p@)),
            Err(e) => text::cut(raw@, ':') is None && e@ == (ErrView::Field {
                section: section@,
                key: key@,
                value: raw@,
                msg: "expected user:pass"@,
            }),
        },
{
    let cs = text::chars_of(raw);
    match text::split_once(&cs, ':') {
        Some((u, p)) => {
            assert(text::cut(raw@, ':') == Some((u@, p@)));
            Ok((text::str_of(u), text::str_of(p)))
        },
        None => Err(field_error(section, key, raw, "expected user:pass")),
    }
}

/// A list of networks under a key, empty where there is no such key.
pub open spec fn acl_field(
    sec: Option<Map<Seq<char>, Seq<char>>>,
    section: Seq<char>,
    key: Seq<char>,
) -> Result<Seq<Ipv4Net>, ErrView> {
    match key_of(sec, key) {
        None => Ok(seq![]),
        Some(raw) => match acl_of(raw) {
            Ok(nets) => Ok(nets),
            Err(msg) => Err(ErrView::Field { section, key, value: raw, msg }),
        },
    }
}

/// A list of networks under a key.
fn get_acl(sec: Option<&Section>, section: &str, key: &str) -> (r: Result<CidrAcl, ConfigErr>)
    requires
        sec matches Some(s) ==> s.wf(),
    ensures
        view_res(r) == acl_field(opt_section(sec), section@, key@),
{
    match get(sec, key) {
        Some(v) => match CidrAcl::parse(v) {
            Ok(a) => Ok(a),
            Err(msg) => Err(
                ConfigErr::Field {
                    section: section.to_owned(),
                    key: key.to_owned(),
                    value: v.to_owned(),
                    msg,
                },
            ),
        },
        None => Ok(CidrAcl::default()),
    }
}

/// The administration pages.
#[derive(Debug, Clone)]
pub struct WebCfg {
    pub listen: SocketAddr,
    pub password: String,
    pub admin_cidr: CidrAcl,
    pub clash_sock: String,
    pub webroot: String,
    pub screen_dev: String,
    pub reload_cmd: Vec<String>,
}

/// The values of a web section.
#[verifier::ext_equal]
pub struct WebView {
    pub listen: SocketAddr,
    pub password: Seq<char>,
    pub admin_cidr: Seq<Ipv4Net>,
    pub clash_sock: Seq<char>,
    pub webroot: Seq<char>,
    pub screen_dev: Seq<char>,
    pub reload_cmd: Seq<Seq<char>>,
}

impl View for WebCfg {
    type V = WebView;

    open spec fn view(&self) -> WebView {
        WebView {
            listen: self.listen,
            password: self.password@,
            admin_cidr: self.admin_cidr@,
            clash_sock: self.clash_sock@,
            webroot: self.webroot@,
            screen_dev: self.screen_dev@,
            reload_cmd: text::strings(self.reload_cmd@),
        }
    }
}

/// The values where the file does not say.
pub open spec fn default_web() -> WebView {
    WebView {
        listen: v4_socket(0, 80),
        password: "clashpass"@,
        admin_cidr: seq![],
        clash_sock: "/tmp/clash.sock"@,
        webroot: "/etc/config/clash/clash-dashboard"@,
        screen_dev: "/dev/vcs1"@,
        reload_cmd: seq!["/usr/bin/ppg.sh"@, "reload"@],
    }
}

impl Default for WebCfg {
    fn default() -> (r: Self)
        ensures
            r@ == default_web(),
    {
        let mut reload_cmd: Vec<String> = Vec::new();
        reload_cmd.push("/usr/bin/ppg.sh".to_owned());
        reload_cmd.push("reload".to_owned());
        let r = WebCfg {
            listen: SocketAddr::new(IpAddr::V4(0), 80),
            password: "clashpass".to_owned(),
            admin_cidr: CidrAcl::default(),
            clash_sock: "/tmp/clash.sock".to_owned(),
            webroot: "/etc/config/clash/clash-dashboard".to_owned(),
            screen_dev: "/dev/vcs1".to_owned(),
            reload_cmd,
        };
        assert(r@.reload_cmd =~= default_web().reload_cmd);
        r
    }
}

/// The values of the section `web`.
pub open spec fn web_cfg(sec: Option<Map<Seq<char>, Seq<char>>>) -> Result<WebView, ErrView> {
    let d = default_web();
    match acl_field(sec, "web"@, "admin_cidr"@) {
        Err(e) => Err(e),
        Ok(nets) => Ok(
            WebView {
                listen: d.listen,
                password: or(key_of(sec, "password"@), d.password),
                admin_cidr: nets,
                clash_sock: or(key_of(sec, "clash_sock"@), d.clash_sock),
                webroot: or(key_of(sec, "webroot"@), d.webroot),
                screen_dev: or(key_of(sec, "screen_dev"@), d.screen_dev),
                reload_cmd: match key_of(sec, "reload_cmd"@) {
                    Some(v) => text::words(v),
                    None => d.reload_cmd,
                },
            },
        ),
    }
}

/// The words of a text as strings.
pub fn owned_words(s: &str) -> (r: Vec<String>)
    ensures
        text::strings(r@) == text::words(s@),
{
    let cs = text::chars_of(s);
    let ws = text::words_of(&cs);
    let ghost all = text::words(s@);
    let mut out: Vec<String> = Vec::new();
    let mut i: usize = 0;
    while i < ws.len()
        invariant
            i <= ws@.len(),
            all == text::texts(ws@),
            text::strings(out@) == all.take(i as int),
        decreases ws@.len() - i,
    {
        let ghost before = text::strings(out@);
        assert(all[i as int] == ws@[i as int]@);
        out.push(text::str_of(ws[i]));
        assert(text::strings(out@) =~= before.push(all[i as int]));
        i = i + 1;
        assert(all.take(i as int) =~= all.take(i - 1).push(all[i - 1]));
    }
    assert(all.take(i as int) =~= all);
    out
}

/// Reads the section `web`.
pub fn parse_web(sec: Option<&Section>) -> (r: Result<WebCfg, ConfigErr>)
    requires
        sec matches Some(s) ==> s.wf(),
    ensures
        view_res(r) == web_cfg(opt_section(sec)),
{
    let mut c = WebCfg::default();
    if let Some(v) = get(sec, "password") {
        c.password = v.to_owned();
    }
    match get_acl(sec, "web", "admin_cidr") {
        Ok(a) => {
            c.admin_cidr = a;
        },
        Err(e) => return Err(e),
    }
    if let Some(v) = get(sec, "clash_sock") {
        c.clash_sock = v.to_owned();
    }
    if let Some(v) = get(sec, "webroot") {
        c.webroot = v.to_owned();
    }
    if let Some(v) = get(sec, "screen_dev") {
        c.screen_dev = v.to_owned();
    }
    if let Some(v) = get(sec, "reload_cmd") {
        c.reload_cmd = owned_words(v);
    }
    Ok(c)
}

/// Who may use the proxy.
#[derive(Debug, Clone)]
pub struct AclCfg {
    pub proxy_cidr: CidrAcl,
}

impl Default for AclCfg {
    fn default() -> (r: Self)
        ensures
            r.proxy_cidr@ == Seq::<Ipv4Net>::empty(),
    {
        AclCfg { proxy_cidr: CidrAcl::default() }
    }
}

/// Reads the section `acl`.
pub fn parse_acl(sec: Option<&Section>) -> (r: Result<AclCfg, ConfigErr>)
    requires
        sec matches Some(s) ==> s.wf(),
    ensures
        match r {
            Ok(c) => acl_field(opt_section(sec), "acl"@, "proxy_cidr"@) == Ok::<_, ErrView>(
                c.proxy_cidr@,
            ),
            Err(e) => acl_field(opt_section(sec), "acl"@, "proxy_cidr"@) == Err::<Seq<Ipv4Net>, _>(
                e@,
            ),
        },
{
    match get_acl(sec, "acl", "proxy_cidr") {
        Ok(a) => Ok(AclCfg { proxy_cidr: a }),
        Err(e) => Err(e),
    }
}

/// The proxy that hosts of the local network may use.
#[derive(Debug, Clone)]
pub struct InboundProxyCfg {
    pub enabled: bool,
    pub listen_port: u16,
    pub auth: Option<(String, String)>,
    pub udp: bool,
}

/// The values of a proxy section.
pub struct InboundProxyView {
    pub enabled: bool,
    pub listen_port: u16,
    pub auth: Option<(Seq<char>, Seq<char>)>,
    pub udp: bool,
}

impl View for InboundProxyCfg {
    type V = InboundProxyView;

    open spec fn view(&self) -> InboundProxyView {
        InboundProxyView {
            enabled: self.enabled,
            listen_port: self.listen_port,
            auth: opt_pair(self.auth),
            udp: self.udp,
        }
    }
}

/// The values where the file does not say.
pub open spec fn default_inbound_proxy() -> InboundProxyView {
    InboundProxyView { enabled: false, listen_port: 1080, auth: None, udp: false }
}

impl Default for InboundProxyCfg {
    fn default() -> (r: Self)
        ensures
            r@ == default_inbound_proxy(),
    {
        InboundProxyCfg { enabled: false, listen_port: 1080, auth: None, udp: false }
    }
}

/// A user and a password under a key, where the key stands.
pub open spec fn userpass_field(
    sec: Option<Map<Seq<char>, Seq<char>>>,
    section: Seq<char>,
    key: Seq<char>,
) -> Result<Option<(Seq<char>, Seq<char>)>, ErrView> {
    match key_of(sec, key) {
        None => Ok(None),
        Some(raw) => match text::cut(raw, ':') {
            Some(p) => Ok(Some(p)),
            None => Err(ErrView::Field { section, key, value: raw, msg: "expected user:pass"@ }),
        },
    }
}

/// The values of the section `inbound_proxy`.
pub open spec fn inbound_proxy_cfg(sec: Option<Map<Seq<char>, Seq<char>>>) -> Result<
    InboundProxyView,
    ErrView,
> {
    let d = default_inbound_proxy();
    let n = "inbound_proxy"@;
    let enabled = bool_field(sec, n, "enabled"@, d.enabled);
    let port = num_field(sec, n, "listen_port"@, u16::MAX as int, d.listen_port as int);
    let auth = userpass_field(sec, n, "auth"@);
    let udp = bool_field(sec, n, "udp"@, d.udp);
    if enabled is Err {
        Err(enabled->Err_0)
    } else if port is Err {
        Err(port->Err_0)
    } else if auth is Err {
        Err(auth->Err_0)
    } else if udp is Err {
        Err(udp->Err_0)
    } else {
        Ok(
            InboundProxyView {
                enabled: enabled->Ok_0,
                listen_port: port->Ok_0 as u16,
                auth: auth->Ok_0,
                udp: udp->Ok_0,
            },
        )
    }
}

/// Reads the section `inbound_proxy`.
pub fn parse_inbound_proxy(sec: Option<&Section>) -> (r: Result<InboundProxyCfg, ConfigErr>)
    requires
        sec matches Some(s) ==> s.wf(),
    ensures
        view_res(r) == inbound_proxy_cfg(opt_section(sec)),
{
    let mut c = InboundProxyCfg::default();
    let s = "inbound_proxy";
    match get_bool(sec, s, "enabled", c.enabled) {
        Ok(b) => {
            c.enabled = b;
        },
        Err(e) => return Err(e),
    }
    match get_num(sec, s, "listen_port", u16::MAX as u64, c.listen_port as u64) {
        Ok(n) => {
            c.listen_port = n as u16;
        },
        Err(e) => return Err(e),
    }
    if let Some(v) = get(sec, "auth") {
        match parse_userpass(s, "auth", v) {
            Ok(p) => {
                c.auth = Some(p);
            },
            Err(e) => return Err(e),
        }
    }
    match get_bool(sec, s, "udp", c.udp) {
        Ok(b) => {
            c.udp = b;
        },
        Err(e) => return Err(e),
    }
    Ok(c)
}

/// Where connections go out.
#[derive(Debug, Clone, Copy, PartialEq, Eq, Structural)]
pub enum OutboundMode {
    Free,
    Socks5,
    Ovpn,
    Yaml,
    Suburl,
}

impl Default for OutboundMode {
    fn default() -> (r: Self)
        ensures
            r == OutboundMode::Free,
    {
        OutboundMode::Free
    }
}

/// The mode that a text names, in any case and with white space around it;
/// `Free` where it names none.
pub open spec fn mode_of(s: Seq<char>) -> OutboundMode {
    let l = text::lowered(text::trimmed(s));
    if l == "socks5"@ {
        OutboundMode::Socks5
    } else if l == "ovpn"@ {
        OutboundMode::Ovpn
    } else if l == "yaml"@ {
        OutboundMode::Yaml
    } else if l == "suburl"@ {
        OutboundMode::Suburl
    } else {
        OutboundMode::Free
    }
}

impl OutboundMode {
    /// Reads a mode.
    pub fn parse(s: &str) -> (r: OutboundMode)
        ensures
            r == mode_of(s@),
    {
        let cs = text::chars_of(s);
        let l = text::to_lower(text::trim(&cs));
        if text::same(&l, "socks5") {
            OutboundMode::Socks5
        } else if text::same(&l, "ovpn") {
            OutboundMode::Ovpn
        } else if text::same(&l, "yaml") {
            OutboundMode::Yaml
        } else if text::same(&l, "suburl") {
            OutboundMode::Suburl
        } else {
            OutboundMode::Free
        }
    }

    /// Whether connections go out through clash.
    pub fn via_clash(self) -> (r: bool)
        ensures
            r == (self is Yaml || self is Suburl),
    {
        match self {
            OutboundMode::Yaml => true,
            OutboundMode::Suburl => true,
            _ => false,
        }
    }
}

/// The name server for connections that go out directly.
#[derive(Debug, Clone, Copy, PartialEq, Eq, Structural)]
pub struct DnsResolverCfg {
    pub server: Option<SocketAddr>,
}

/// How connections go out.
#[derive(Debug, Clone)]
pub struct OutboundCfg {
    pub mode: OutboundMode,
    pub upstream: Option<SocketAddr>,
    pub auth: Option<(String, String)>,
    pub resolver: DnsResolverCfg,
    pub bind_device: Option<String>,
}

/// The values of an outbound section.
pub struct OutboundView {
    pub mode: OutboundMode,
    pub upstream: Option<SocketAddr>,
    pub auth: Option<(Seq<char>, Seq<char>)>,
    pub resolver: Option<SocketAddr>,
    pub bind_device: Option<Seq<char>>,
}

impl View for OutboundCfg {
    type V = OutboundView;

    open spec fn view(&self) -> OutboundView {
        OutboundView {
            mode: self.mode,
            upstream: self.upstream,
            auth: opt_pair(self.auth),
            resolver: self.resolver.server,
            bind_device: text::opt_string(self.bind_device),
        }
    }
}

/// The values where the file does not say.
pub open spec fn default_outbound() -> OutboundView {
    OutboundView {
        mode: OutboundMode::Free,
        upstream: None,
        auth: None,
        resolver: None,
        bind_device: None,
    }
}

impl Default for OutboundCfg {
    fn default() -> (r: Self)
        ensures
            r@ == default_outbound(),
    {
        OutboundCfg {
            mode: OutboundMode::Free,
            upstream: None,
            auth: None,
            resolver: DnsResolverCfg { server: None },
            bind_device: None,
        }
    }
}

/// The values of the section `outbound`. A user without a password has an empty
/// one.
pub open spec fn outbound_cfg(sec: Option<Map<Seq<char>, Seq<char>>>) -> Result<
    OutboundView,
    ErrView,
> {
    let server = socket_field(sec, "outbound"@, "server"@);
    let dns = socket_field(sec, "outbound"@, "dns_server"@);
    if server is Err {
        Err(server->Err_0)
    } else if dns is Err {
        Err(dns->Err_0)
    } else {
        Ok(
            OutboundView {
                mode: match key_of(sec, "mode"@) {
                    Some(v) => mode_of(v),
                    None => OutboundMode::Free,
                },
                upstream: server->Ok_0,
                auth: match key_of(sec, "username"@) {
                    Some(u) => Some((u, or(key_of(sec, "password"@), seq![]))),
                    None => None,
                },
                resolver: dns->Ok_0,
                bind_device: key_of(sec, "bind_device"@),
            },
        )
    }
}

/// Reads the section `outbound`.
pub fn parse_outbound(sec: Option<&Section>) -> (r: Result<OutboundCfg, ConfigErr>)
    requires
        sec matches Some(s) ==> s.wf(),
    ensures
        view_res(r) == outbound_cfg(opt_section(sec)),
{
    let mut c = OutboundCfg::default();
    if let Some(v) = get(sec, "mode") {
        c.mode = OutboundMode::parse(v);
    }
    match get_socket(sec, "outbound", "server") {
        Ok(a) => {
            c.upstream = a;
        },
        Err(e) => return Err(e),
    }
    if let Some(user) = get(sec, "username") {
        let pass = match get(sec, "password") {
            Some(p) => p.to_owned(),
            None => String::new(),
        };
        c.auth = Some((user.to_owned(), pass));
    }
    match get_socket(sec, "outbound", "dns_server") {
        Ok(a) => {
            c.resolver = DnsResolverCfg { server: a };
        },
        Err(e) => return Err(e),
    }
    if let Some(v) = get(sec, "bind_device") {
        c.bind_device = Some(v.to_owned());
    }
    Ok(c)
}

/// Where events are reported to.
#[derive(Debug, Clone)]
pub struct ReportCfg {
    pub pplog: Option<SocketAddr>,
    pub pplog_uuid: Option<[u8; 16]>,
}

/// The values of a report section.
pub struct ReportView {
    pub pplog: Option<SocketAddr>,
    pub pplog_uuid: Option<Seq<u8>>,
}

/// The bytes of an optional identifier.
pub open spec fn uuid_bytes(u: Option<[u8; 16]>) -> Option<Seq<u8>> {
    match u {
        Some(a) => Some(a@),
        None => None,
    }
}

impl View for ReportCfg {
    type V = ReportView;

    open spec fn view(&self) -> ReportView {
        ReportView { pplog: self.pplog, pplog_uuid: uuid_bytes(self.pplog_uuid) }
    }
}

impl Default for ReportCfg {
    fn default() -> (r: Self)
        ensures
            r@ == (ReportView { pplog: None, pplog_uuid: None }),
    {
        ReportCfg { pplog: None, pplog_uuid: None }
    }
}

/// The byte that two hexadecimal digits write.
pub open spec fn hex_byte(hi: char, lo: char) -> u8 {
    (text::digit(hi) * 16 + text::digit(lo)) as u8
}

/// The bytes that pairs of hexadecimal digits write.
pub open spec fn hex_bytes(s: Seq<char>) -> Seq<u8> {
    Seq::new(s.len() / 2, |i: int| hex_byte(s[2 * i], s[2 * i + 1]))
}

/// The bytes that a text writes in hexadecimal: an even number of digits and
/// nothing else.
pub open spec fn hex_of(s: Seq<char>) -> Option<Seq<u8>> {
    if s.len() % 2 == 0 && text::all_digits(s, 16) {
        Some(hex_bytes(s))
    } else {
        None
    }
}

/// `decode` of the crate `hex` turns pairs of hexadecimal digits, in either case,
/// into bytes. It fails on an odd number of digits and on any other character.
#[verifier::external_body]
fn hex_decode(s: &str) -> (r: Option<Vec<u8>>)
    ensures
        match r {
            Some(v) => hex_of(s@) == Some(v@),
            None => hex_of(s@) is None,
        },
{
    hex::decode(s).ok()
}

/// A text without its dashes.
pub open spec fn without_dashes(s: Seq<char>) -> Seq<char>
    decreases s.len(),
{
    if s.len() == 0 {
        s
    } else if s.last() == '-' {
        without_dashes(s.drop_last())
    } else {
        without_dashes(s.drop_last()).push(s.last())
    }
}

/// The identifier that a text writes: 32 hexadecimal digits, and dashes anywhere
/// between them.
pub open spec fn uuid_of(s: Seq<char>) -> Option<Seq<u8>> {
    let d = without_dashes(s);
    if d.len() == 32 {
        hex_of(d)
    } else {
        None
    }
}

/// Reads an identifier.
pub fn parse_uuid(s: &str) -> (r: Option<[u8; 16]>)
    ensures
        uuid_bytes(r) == uuid_of(s@),
{
    let cs = text::chars_of(s);
    let mut hexs = String::new();
    let mut i: usize = 0;
    assert(without_dashes(cs@.take(0)) =~= Seq::<char>::empty());
    while i < cs.len()
        invariant
            i <= cs@.len(),
            hexs@ == without_dashes(cs@.take(i as int)),
        decreases cs@.len() - i,
    {
        let ghost next = cs@.take(i + 1);
        assert(next.drop_last() == cs@.take(i as int));
        if cs[i] != '-' {
            hexs.push(cs[i]);
        }
        i = i + 1;
    }
    assert(cs@.take(i as int) == cs@);
    let bytes = match hex_decode(hexs.as_str()) {
        Some(b) => b,
        None => return None,
    };
    if bytes.len() != 16 {
        return None;
    }
    let mut out: [u8; 16] = [0u8;16];
    let mut j: usize = 0;
    while j < 16
        invariant
            j <= 16,
            bytes@.len() == 16,
            forall|k: int| 0 <= k < j ==> out@[k] == bytes@[k],
        decreases 16 - j,
    {
        out[j] = bytes[j];
        j = j + 1;
    }
    assert(out@ =~= bytes@);
    Some(out)
}

/// The values of the section `report`.
pub open spec fn report_cfg(sec: Option<Map<Seq<char>, Seq<char>>>) -> Result<ReportView, ErrView> {
    let pplog = socket_field(sec, "report"@, "pplog"@);
    if pplog is Err {
        Err(pplog->Err_0)
    } else {
        match key_of(sec, "uuid"@) {
            None => Ok(ReportView { pplog: pplog->Ok_0, pplog_uuid: None }),
            Some(v) => match uuid_of(v) {
                Some(b) => Ok(ReportView { pplog: pplog->Ok_0, pplog_uuid: Some(b) }),
                None => Err(
                    ErrView::Field {
                        section: "report"@,
                        key: "uuid"@,
                        value: v,
                        msg: "expected uuid (32 hex digits, dashes optional)"@,
                    },
                ),
            },
        }
    }
}

/// Reads the section `report`.
pub fn parse_report(sec: Option<&Section>) -> (r: Result<ReportCfg, ConfigErr>)
    requires
        sec matches Some(s) ==> s.wf(),
    ensures
        view_res(r) == report_cfg(opt_section(sec)),
{
    let mut c = ReportCfg::default();
    match get_socket(sec, "report", "pplog") {
        Ok(a) => {
            c.pplog = a;
        },
        Err(e) => return Err(e),
    }
    if let Some(v) = get(sec, "uuid") {
        match parse_uuid(v) {
            Some(u) => {
                c.pplog_uuid = Some(u);
            },
            None => return Err(
                field_error("report", "uuid", v, "expected uuid (32 hex digits, dashes optional)"),
            ),
        }
    }
    Ok(c)
}

// ---------------------------------------------------------------------------
// The whole file
// ---------------------------------------------------------------------------

/// The configuration.
#[derive(Debug, Clone)]
pub struct Config {
    pub log: LogCfg,
    pub inbound: InboundCfg,
    pub socks5: SocksCfg,
    pub route: RouteCfg,
    pub stats: Option<StatsCfg>,
    pub dns: Option<DnsCfg>,
    pub web: WebCfg,
    pub acl: AclCfg,
    pub inbound_proxy: InboundProxyCfg,
    pub outbound: OutboundCfg,
    pub report: ReportCfg,
}

/// The values of a configuration.
pub struct ConfigView {
    pub log: LogView,
    pub inbound: InboundCfg,
    pub socks5: SocksCfg,
    pub route: RouteCfg,
    pub stats: Option<StatsCfg>,
    pub dns: Option<DnsCfg>,
    pub web: WebView,
    pub acl: Seq<Ipv4Net>,
    pub inbound_proxy: InboundProxyView,
    pub outbound: OutboundView,
    pub report: ReportView,
}

impl View for Config {
    type V = ConfigView;

    open spec fn view(&self) -> ConfigView {
        ConfigView {
            log: self.log@,
            inbound: self.inbound,
            socks5: self.socks5,
            route: self.route,
            stats: self.stats,
            dns: self.dns,
            web: self.web@,
            acl: self.acl.proxy_cidr@,
            inbound_proxy: self.inbound_proxy@,
            outbound: self.outbound@,
            report: self.report@,
        }
    }
}

/// A section of a file.
pub open spec fn section_of(
    ini: Map<Seq<char>, Map<Seq<char>, Seq<char>>>,
    name: Seq<char>,
) -> Option<Map<Seq<char>, Seq<char>>> {
    if ini.contains_key(name) {
        Some(ini[name])
    } else {
        None
    }
}

/// The configuration that the sections of a file write, on a machine with `cpus`
/// processors. The first section in the order of the fields that cannot be read
/// gives the error.
pub open spec fn config_cfg(
    ini: Map<Seq<char>, Map<Seq<char>, Seq<char>>>,
    cpus: usize,
) -> Result<ConfigView, ErrView> {
    let log = log_cfg(section_of(ini, "log"@));
    let inbound = inbound_cfg(section_of(ini, "inbound"@), cpus);
    let socks5 = socks_cfg(section_of(ini, "socks5"@));
    let route = route_cfg(section_of(ini, "route"@));
    let stats = stats_cfg(section_of(ini, "stats"@));
    let dns = dns_cfg(section_of(ini, "dns"@));
    let web = web_cfg(section_of(ini, "web"@));
    let acl = acl_field(section_of(ini, "acl"@), "acl"@, "proxy_cidr"@);
    let proxy = inbound_proxy_cfg(section_of(ini, "inbound_proxy"@));
    let outbound = outbound_cfg(section_of(ini, "outbound"@));
    let report = report_cfg(section_of(ini, "report"@));
    if log is Err {
        Err(log->Err_0)
    } else if inbound is Err {
        Err(inbound->Err_0)
    } else if socks5 is Err {
        Err(socks5->Err_0)
    } else if route is Err {
        Err(route->Err_0)
    } else if stats is Err {
        Err(stats->Err_0)
    } else if dns is Err {
        Err(dns->Err_0)
    } else if web is Err {
        Err(web->Err_0)
    } else if acl is Err {
        Err(acl->Err_0)
    } else if proxy is Err {
        Err(proxy->Err_0)
    } else if outbound is Err {
        Err(outbound->Err_0)
    } else if report is Err {
        Err(report->Err_0)
    } else {
        Ok(
            ConfigView {
                log: log->Ok_0,
                inbound: inbound->Ok_0,
                socks5: socks5->Ok_0,
                route: route->Ok_0,
                stats: stats->Ok_0,
                dns: dns->Ok_0,
                web: web->Ok_0,
                acl: acl->Ok_0,
                inbound_proxy: proxy->Ok_0,
                outbound: outbound->Ok_0,
                report: report->Ok_0,
            },
        )
    }
}

/// The configuration that a text writes.
pub open spec fn config_of(s: Seq<char>, cpus: usize) -> Result<ConfigView, ErrView> {
    match ini_of(s) {
        Ok(ini) => config_cfg(ini, cpus),
        Err(e) => Err(e),
    }
}

/// The values where a file says nothing.
pub open spec fn default_config(cpus: usize) -> ConfigView {
    ConfigView {
        log: default_log(),
        inbound: default_inbound(cpus),
        socks5: default_socks(),
        route: default_route(),
        stats: None,
        dns: None,
        web: default_web(),
        acl: seq![],
        inbound_proxy: default_inbound_proxy(),
        outbound: default_outbound(),
        report: ReportView { pplog: None, pplog_uuid: None },
    }
}

/// Finds a section.
fn section<'a>(ini: &'a Ini, name: &str) -> (r: Option<&'a Section>)
    requires
        ini_wf(*ini),
    ensures
        opt_section(r) == section_of(ini_map(*ini), name@),
        r matches Some(s) ==> s.wf(),
{
    ini.get(name)
}

impl Config {
    /// The values where a file says nothing.
    pub fn defaults(cpus: usize) -> (r: Config)
        ensures
            r@ == default_config(cpus),
    {
        Config {
            log: LogCfg::default(),
            inbound: InboundCfg::defaults(cpus),
            socks5: SocksCfg::default(),
            route: RouteCfg::default(),
            stats: None,
            dns: None,
            web: WebCfg::default(),
            acl: AclCfg::default(),
            inbound_proxy: InboundProxyCfg::default(),
            outbound: OutboundCfg::default(),
            report: ReportCfg::default(),
        }
    }

    /// Reads a configuration.
    pub fn from_text(s: &str, cpus: usize) -> (r: Result<Config, ConfigErr>)
        ensures
            view_res(r) == config_of(s@, cpus),
            r matches Ok(c) ==> (c.dns matches Some(d) ==> d.fake_cidr.wf()),
    {
        match parse_ini(s) {
            Ok(ini) => Config::from_ini(ini, cpus),
            Err(e) => Err(e),
        }
    }

    /// Reads a configuration from the sections of a file.
    pub fn from_ini(ini: Ini, cpus: usize) -> (r: Result<Config, ConfigErr>)
        requires
            ini_wf(ini),
        ensures
            view_res(r) == config_cfg(ini_map(ini), cpus),
            r matches Ok(c) ==> (c.dns matches Some(d) ==> d.fake_cidr.wf()),
    {
        let log = match parse_log(section(&ini, "log")) {
            Ok(v) => v,
            Err(e) => return Err(e),
        };
        let inbound = match parse_inbound(section(&ini, "inbound"), cpus) {
            Ok(v) => v,
            Err(e) => return Err(e),
        };
        let socks5 = match parse_socks(section(&ini, "socks5")) {
            Ok(v) => v,
            Err(e) => return Err(e),
        };
        let route = match parse_route(section(&ini, "route")) {
            Ok(v) => v,
            Err(e) => return Err(e),
        };
        let stats = match parse_stats(section(&ini, "stats")) {
            Ok(v) => v,
            Err(e) => return Err(e),
        };
        let dns = match parse_dns(section(&ini, "dns")) {
            Ok(v) => v,
            Err(e) => return Err(e),
        };
        let web = match parse_web(section(&ini, "web")) {
            Ok(v) => v,
            Err(e) => return Err(e),
        };
        let acl = match parse_acl(section(&ini, "acl")) {
            Ok(v) => v,
            Err(e) => return Err(e),
        };
        let inbound_proxy = match parse_inbound_proxy(section(&ini, "inbound_proxy")) {
            Ok(v) => v,
            Err(e) => return Err(e),
        };
        let outbound = match parse_outbound(section(&ini, "outbound")) {
            Ok(v) => v,
            Err(e) => return Err(e),
        };
        let report = match parse_report(section(&ini, "report")) {
            Ok(v) => v,
            Err(e) => return Err(e),
        };
        Ok(
            Config {
                log,
                inbound,
                socks5,
                route,
                stats,
                dns,
                web,
                acl,
                inbound_proxy,
                outbound,
                report,
            },
        )
    }
}

// ---------------------------------------------------------------------------
// Laws
// ---------------------------------------------------------------------------

/// What every configuration that was accepted keeps to.
pub open spec fn sane(c: ConfigView) -> bool {
    &&& 1 <= c.socks5.pool_max <= POOL_HARD_CAP
    &&& c.socks5.pool_min <= c.socks5.pool_max
    &&& c.inbound.spoof_cache_cap >= 16
    &&& (c.inbound.listen6 matches Some(a) ==> a.ip is V6)
    &&& (c.dns matches Some(d) ==> {
        &&& 1 <= d.max_mem_pct <= 100
        &&& d.shards >= 1
        &&& (d.max_entries matches Some(n) ==> n >= 1)
    })
}

/// A number under a key is within the bounds of its type.
proof fn lemma_num_field(
    sec: Option<Map<Seq<char>, Seq<char>>>,
    section: Seq<char>,
    key: Seq<char>,
    max: int,
    absent: int,
)
    requires
        0 <= absent <= max,
    ensures
        num_field(sec, section, key, max, absent) matches Ok(v) ==> 0 <= v <= max,
{
    if let Some(raw) = key_of(sec, key) {
        let d = text::unsigned(raw);
        if text::all_digits(d, 10) {
            text::lemma_value_nonneg(d, 10);
        }
    }
}

/// Every configuration that is accepted keeps to its bounds: the pool has at least
/// one and at most `POOL_HARD_CAP` connections and its smallest size is no larger
/// than its largest, an IPv6 listener is an IPv6 address, and an enabled name
/// server has a share of memory, shards and room.
pub proof fn law_accepted_is_sane(s: Seq<char>, cpus: usize)
    ensures
        config_of(s, cpus) matches Ok(c) ==> sane(c),
{
    if let Ok(ini) = ini_of(s) {
        let socks = section_of(ini, "socks5"@);
        lemma_num_field(socks, "socks5"@, "pool_min"@, usize::MAX as int, 8);
        lemma_num_field(socks, "socks5"@, "pool_max"@, usize::MAX as int, 128);
        let dns = section_of(ini, "dns"@);
        lemma_num_field(dns, "dns"@, "max_entries"@, usize::MAX as int, 1);
        lemma_num_field(dns, "dns"@, "max_mem_pct"@, u8::MAX as int, 30);
        lemma_num_field(dns, "dns"@, "shards"@, u32::MAX as int, 16);
        let inbound = section_of(ini, "inbound"@);
        lemma_num_field(inbound, "inbound"@, "spoof_cache_cap"@, usize::MAX as int, 1024);
    }
}

/// A file that says nothing gives the values that stand where a file does not say.
pub proof fn law_empty_file_is_default(s: Seq<char>, cpus: usize)
    requires
        text::lines(s).len() == 0,
    ensures
        config_of(s, cpus) == Ok::<_, ErrView>(default_config(cpus)),
{
    let ini = Map::<Seq<char>, Map<Seq<char>, Seq<char>>>::empty();
    assert(ini_of(s) == Ok::<_, ErrView>(ini));
    assert(web_cfg(section_of(ini, "web"@))->Ok_0 =~= default_web());
}

/// The key and the value of a line that holds a key.
pub open spec fn key_line(raw: Seq<char>) -> Option<(Seq<char>, Seq<char>)> {
    let t = text::trimmed(without_comment(raw));
    if t.len() == 0 || t[0] == '[' {
        None
    } else {
        match text::cut(t, '=') {
            Some((k, v)) => Some((text::trimmed(k), text::trimmed(v))),
            None => None,
        }
    }
}

/// A key that stands twice in a section has the value that came last: after two
/// lines with one key the sections are as after the second line alone.
pub proof fn law_last_value_wins(
    st: IniState,
    k: Seq<char>,
    first: Seq<char>,
    v: Seq<char>,
    second: Seq<char>,
    w: Seq<char>,
    line: int,
)
    requires
        st.current.len() > 0,
        key_line(first) == Some((k, v)),
        key_line(second) == Some((k, w)),
    ensures
        ini_step(st, line, first) matches Ok(mid) && ini_step(mid, line + 1, second) == ini_step(
            st,
            line + 1,
            second,
        ),
{
    let once = st.ini[st.current].insert(k, v);
    assert(once.insert(k, w) =~= st.ini[st.current].insert(k, w));
    let a = st.ini.insert(st.current, once);
    assert(a.insert(st.current, once.insert(k, w)) =~= st.ini.insert(
        st.current,
        st.ini[st.current].insert(k, w),
    ));
}

/// An access list without networks lets everyone in; any other lets in only an
/// address that is or maps an IPv4 address.
pub proof fn law_acl_scope(nets: Seq<Ipv4Net>, ip: IpAddr)
    ensures
        nets.len() == 0 ==> allowed(nets, ip),
        nets.len() > 0 && cidr::as_v4(ip) is None ==> !allowed(nets, ip),
{
}

// ---------------------------------------------------------------------------
// What a file says
// ---------------------------------------------------------------------------

/// Whether a section says a switch to be on or off, or leaves it as it is without saying.
pub open spec fn switch_said(
    sec: Option<Map<Seq<char>, Seq<char>>>,
    key: Seq<char>,
    unsaid: bool,
    got: bool,
) -> bool {
    if sec is Some && sec->0.contains_key(key) {
        let w = sec->0[key];
        if got {
            text::same_nocase(w, "true"@) || text::same_nocase(w, "yes"@) || text::same_nocase(
                w,
                "on"@,
            ) || text::same_nocase(w, "1"@)
        } else {
            text::same_nocase(w, "false"@) || text::same_nocase(w, "no"@) || text::same_nocase(
                w,
                "off"@,
            ) || text::same_nocase(w, "0"@)
        }
    } else {
        got == unsaid
    }
}

/// Whether a section says a number, or leaves it as it is without saying.
pub open spec fn number_said(
    sec: Option<Map<Seq<char>, Seq<char>>>,
    key: Seq<char>,
    unsaid: int,
    got: int,
) -> bool {
    if sec is Some && sec->0.contains_key(key) {
        text::number(sec->0[key], 10, got) == Some(got)
    } else {
        got == unsaid
    }
}

/// Whether a section says a text, or leaves it as it is without saying.
pub open spec fn text_said(
    sec: Option<Map<Seq<char>, Seq<char>>>,
    key: Seq<char>,
    unsaid: Option<Seq<char>>,
    got: Option<Seq<char>>,
) -> bool {
    if sec is Some && sec->0.contains_key(key) {
        got == Some(sec->0[key])
    } else {
        got == unsaid
    }
}

/// Whether a section says an address with a port, or leaves it as it is without saying.
pub open spec fn socket_said(
    sec: Option<Map<Seq<char>, Seq<char>>>,
    key: Seq<char>,
    unsaid: Option<SocketAddr>,
    got: Option<SocketAddr>,
) -> bool {
    if sec is Some && sec->0.contains_key(key) {
        got is Some && addr::socket(sec->0[key]) == got
    } else {
        got == unsaid
    }
}

/// The words for a switch do not depend on the case of their letters, and any other word
/// is none.
pub proof fn law_words_for_a_switch(w: Seq<char>)
    ensures
        bool_of(w) == Some(true) <==> text::same_nocase(w, "true"@) || text::same_nocase(w, "yes"@)
            || text::same_nocase(w, "on"@) || text::same_nocase(w, "1"@),
        bool_of(w) == Some(false) <==> text::same_nocase(w, "false"@) || text::same_nocase(w, "no"@)
            || text::same_nocase(w, "off"@) || text::same_nocase(w, "0"@),
        bool_of("true"@) != bool_of("false"@),
{
    reveal_strlit("true");
    reveal_strlit("yes");
    reveal_strlit("on");
    reveal_strlit("1");
    reveal_strlit("false");
    reveal_strlit("no");
    reveal_strlit("off");
    reveal_strlit("0");
    assert(text::lowered("true"@) =~= "true"@);
    assert(text::lowered("yes"@) =~= "yes"@);
    assert(text::lowered("on"@) =~= "on"@);
    assert(text::lowered("1"@) =~= "1"@);
    assert(text::lowered("false"@) =~= "false"@);
    assert(text::lowered("no"@) =~= "no"@);
    assert(text::lowered("off"@) =~= "off"@);
    assert(text::lowered("0"@) =~= "0"@);
    assert("true"@[0] == 't' && "yes"@[0] == 'y' && "on"@[1] == 'n' && "1"@[0] == '1');
    assert("false"@[0] == 'f' && "no"@[0] == 'n' && "off"@.len() == 3 && "0"@[0] == '0');
    let l = text::lowered(w);
    assert(l == "off"@ ==> l.len() == 3 && l[0] == 'o');
}

/// The modes have the names under which the settings know them, whatever the case of the
/// letters and whatever blanks stand around, and any other name is that of the plain one.
pub proof fn law_names_of_modes(s: Seq<char>)
    ensures
        mode_of(s) is Socks5 <==> text::same_nocase(text::trimmed(s), "socks5"@),
        mode_of(s) is Ovpn <==> text::same_nocase(text::trimmed(s), "ovpn"@),
        mode_of(s) is Yaml <==> text::same_nocase(text::trimmed(s), "yaml"@),
        mode_of(s) is Suburl <==> text::same_nocase(text::trimmed(s), "suburl"@),
{
    reveal_strlit("socks5");
    reveal_strlit("ovpn");
    reveal_strlit("yaml");
    reveal_strlit("suburl");
    assert(text::lowered("socks5"@) =~= "socks5"@);
    assert(text::lowered("ovpn"@) =~= "ovpn"@);
    assert(text::lowered("yaml"@) =~= "yaml"@);
    assert(text::lowered("suburl"@) =~= "suburl"@);
    assert("socks5"@[1] == 'o' && "suburl"@[1] == 'u' && "ovpn"@[0] == 'o' && "yaml"@[0] == 'y');
    assert("socks5"@.len() == 6 && "ovpn"@.len() == 4);
}

/// What a switch says is read off its words.
proof fn lemma_switch(
    sec: Option<Map<Seq<char>, Seq<char>>>,
    section: Seq<char>,
    key: Seq<char>,
    unsaid: bool,
)
    ensures
        bool_field(sec, section, key, unsaid) matches Ok(b) ==> switch_said(sec, key, unsaid, b),
{
    if sec is Some && sec->0.contains_key(key) {
        law_words_for_a_switch(sec->0[key]);
    }
}

/// What a number says is read off its digits.
proof fn lemma_number_said(
    sec: Option<Map<Seq<char>, Seq<char>>>,
    section: Seq<char>,
    key: Seq<char>,
    max: int,
    unsaid: int,
)
    ensures
        num_field(sec, section, key, max, unsaid) matches Ok(n) ==> number_said(
            sec,
            key,
            unsaid,
            n,
        ) && (sec is Some && sec->0.contains_key(key) ==> 0 <= n <= max),
{
    if sec is Some && sec->0.contains_key(key) {
        let d = text::unsigned(sec->0[key]);
        if text::all_digits(d, 10) {
            text::lemma_value_nonneg(d, 10);
        }
    }
}

/// What is accepted of the section on connections that come in is what the section says;
/// what it does not say is as usual.
pub proof fn law_inbound_section(sec: Option<Map<Seq<char>, Seq<char>>>, cpus: usize)
    ensures
        inbound_cfg(sec, cpus) matches Ok(c) ==> {
            &&& socket_said(
                sec,
                "listen"@,
                Some(SocketAddr { ip: IpAddr::V4(0x7f00_0001), port: 1081, scope: 0 }),
                Some(c.listen),
            )
            &&& socket_said(sec, "listen6"@, None, c.listen6)
            &&& c.listen6 matches Some(a) ==> a.ip is V6
            &&& number_said(sec, "sniff_timeout_ms"@, 300, c.sniff_timeout_ms as int)
            &&& switch_said(sec, "splice_copy"@, true, c.splice_copy)
            &&& number_said(sec, "splice_threshold"@, 1_048_576, c.splice_threshold as int)
            &&& switch_said(sec, "udp"@, true, c.udp)
            &&& number_said(sec, "udp_idle_sec"@, 60, c.udp_idle_sec as int)
            &&& switch_said(sec, "tune_sysctl"@, true, c.tune_sysctl)
            &&& c.udp_workers >= 1 && sec is Some && sec->0.contains_key("udp_workers"@)
                ==> c.udp_workers == 1 || number_said(
                sec,
                "udp_workers"@,
                0,
                c.udp_workers as int,
            )
            &&& sec is Some && sec->0.contains_key("tcp_workers"@) ==> 1 <= c.tcp_workers <= 64 && (
            c.tcp_workers == 1 || c.tcp_workers == 64 || number_said(
                sec,
                "tcp_workers"@,
                0,
                c.tcp_workers as int,
            ))
            &&& c.spoof_cache_cap == 16 || number_said(
                sec,
                "spoof_cache_cap"@,
                1024,
                c.spoof_cache_cap as int,
            )
            &&& (sec is None || !sec->0.contains_key("udp_workers"@)) && cpus <= 8
                ==> c.udp_workers == cpus
            &&& (sec is None || !sec->0.contains_key("tcp_workers"@)) && cpus <= 8
                ==> c.tcp_workers == cpus
        },
{
    let n = "inbound"@;
    lemma_number_said(sec, n, "sniff_timeout_ms"@, u64::MAX as int, 300);
    lemma_number_said(sec, n, "splice_threshold"@, u64::MAX as int, 0x10_0000);
    lemma_number_said(sec, n, "udp_idle_sec"@, u64::MAX as int, 60);
    lemma_number_said(sec, n, "udp_workers"@, usize::MAX as int, min_of(cpus as int, 8));
    lemma_number_said(sec, n, "tcp_workers"@, usize::MAX as int, min_of(cpus as int, 8));
    lemma_number_said(sec, n, "spoof_cache_cap"@, usize::MAX as int, 1024);
    lemma_switch(sec, n, "splice_copy"@, true);
    lemma_switch(sec, n, "udp"@, true);
    lemma_switch(sec, n, "tune_sysctl"@, true);
}

/// What is accepted of the sections on the proxy, on what is blocked, on reports and on the
/// log is what they say; what they do not say is as usual.
pub proof fn law_small_sections(sec: Option<Map<Seq<char>, Seq<char>>>)
    ensures
        socks_cfg(sec) matches Ok(c) ==> {
            &&& socket_said(
                sec,
                "server"@,
                Some(SocketAddr { ip: IpAddr::V4(0x7f00_0001), port: 1080, scope: 0 }),
                Some(c.server),
            )
            &&& number_said(sec, "pool_min"@, 8, c.pool_min as int)
            &&& number_said(sec, "pool_max"@, 128, c.pool_max as int)
            &&& number_said(sec, "pool_idle_sec"@, 300, c.pool_idle_sec as int)
            &&& c.pool_min <= c.pool_max
        },
        route_cfg(sec) matches Ok(c) ==> {
            &&& switch_said(sec, "block_bittorrent"@, true, c.block_bittorrent)
            &&& switch_said(sec, "block_quic"@, false, c.block_quic)
            &&& switch_said(sec, "block_unknown"@, false, c.block_unknown)
            &&& switch_said(sec, "log_sniffed"@, true, c.log_sniffed)
        },
        log_cfg(sec) matches Ok(c) ==> {
            &&& switch_said(sec, "timestamp"@, true, c.timestamp)
            &&& text_said(sec, "level"@, Some("info"@), Some(c.level))
        },
        report_cfg(sec) matches Ok(c) ==> {
            &&& socket_said(sec, "pplog"@, None, c.pplog)
            &&& c.pplog_uuid is Some <==> sec is Some && sec->0.contains_key("uuid"@)
            &&& c.pplog_uuid is Some ==> c.pplog_uuid == uuid_of(sec->0["uuid"@])
        },
{
    lemma_number_said(sec, "socks5"@, "pool_min"@, usize::MAX as int, 8);
    lemma_number_said(sec, "socks5"@, "pool_max"@, usize::MAX as int, 128);
    lemma_number_said(sec, "socks5"@, "pool_idle_sec"@, u64::MAX as int, 300);
    lemma_switch(sec, "route"@, "block_bittorrent"@, true);
    lemma_switch(sec, "route"@, "block_quic"@, false);
    lemma_switch(sec, "route"@, "block_unknown"@, false);
    lemma_switch(sec, "route"@, "log_sniffed"@, true);
    lemma_switch(sec, "log"@, "timestamp"@, true);
}

/// What is accepted of the sections on the proxy of the local network, on the way out and
/// on the pages is what they say; what they do not say is as usual.
pub proof fn law_way_sections(sec: Option<Map<Seq<char>, Seq<char>>>)
    ensures
        inbound_proxy_cfg(sec) matches Ok(c) ==> {
            &&& switch_said(sec, "enabled"@, false, c.enabled)
            &&& number_said(sec, "listen_port"@, 1080, c.listen_port as int)
            &&& switch_said(sec, "udp"@, false, c.udp)
            &&& c.auth is Some <==> sec is Some && sec->0.contains_key("auth"@)
            &&& c.auth matches Some((u, p)) ==> sec->0["auth"@] == u + seq![':'] + p && forall|
                i: int,
            |
                0 <= i < u.len() ==> #[trigger] u[i] != ':'
        },
        outbound_cfg(sec) matches Ok(c) ==> {
            &&& socket_said(sec, "server"@, None, c.upstream)
            &&& socket_said(sec, "dns_server"@, None, c.resolver)
            &&& text_said(sec, "bind_device"@, None, c.bind_device)
            &&& sec is Some && sec->0.contains_key("mode"@) ==> c.mode == mode_of(sec->0["mode"@])
            &&& sec is None || !sec->0.contains_key("mode"@) ==> c.mode is Free
            &&& c.auth is Some <==> sec is Some && sec->0.contains_key("username"@)
            &&& c.auth matches Some((u, p)) ==> u == sec->0["username"@] && text_said(
                sec,
                "password"@,
                Some(Seq::empty()),
                Some(p),
            )
        },
        web_cfg(sec) matches Ok(c) ==> {
            &&& text_said(sec, "password"@, Some("clashpass"@), Some(c.password))
            &&& text_said(sec, "clash_sock"@, Some("/tmp/clash.sock"@), Some(c.clash_sock))
            &&& text_said(
                sec,
                "webroot"@,
                Some("/etc/config/clash/clash-dashboard"@),
                Some(c.webroot),
            )
            &&& text_said(sec, "screen_dev"@, Some("/dev/vcs1"@), Some(c.screen_dev))
            &&& c.listen == (SocketAddr { ip: IpAddr::V4(0), port: 80, scope: 0 })
            &&& sec is Some && sec->0.contains_key("reload_cmd"@) ==> c.reload_cmd == text::words(
                sec->0["reload_cmd"@],
            )
            &&& sec is None || !sec->0.contains_key("reload_cmd"@) ==> c.reload_cmd == seq![
                "/usr/bin/ppg.sh"@,
                "reload"@,
            ]
            &&& sec is Some && sec->0.contains_key("admin_cidr"@) ==> acl_of(sec->0["admin_cidr"@])
                == Ok::<Seq<Ipv4Net>, Seq<char>>(c.admin_cidr)
            &&& sec is None || !sec->0.contains_key("admin_cidr"@) ==> c.admin_cidr.len() == 0
        },
{
    lemma_switch(sec, "inbound_proxy"@, "enabled"@, false);
    lemma_switch(sec, "inbound_proxy"@, "udp"@, false);
    lemma_number_said(sec, "inbound_proxy"@, "listen_port"@, u16::MAX as int, 1080);
    if sec is Some && sec->0.contains_key("auth"@) {
        let raw = sec->0["auth"@];
        text::lemma_first_bounds(raw, ':');
        let i = text::first(raw, ':');
        if i < raw.len() {
            assert(raw =~= raw.take(i) + seq![':'] + raw.skip(i + 1));
        }
    }
}

/// What is accepted of the sections on counting and on names is what they say; what they do
/// not say is as usual, and without the section there is none of it. Switched off, nothing
/// else in them counts.
pub proof fn law_optional_sections(sec: Option<Map<Seq<char>, Seq<char>>>)
    ensures
        stats_cfg(sec) matches Ok(r) ==> (r is Some <==> sec is Some),
        stats_cfg(sec) matches Ok(Some(c)) ==> {
            &&& switch_said(sec, "enabled"@, true, c.enabled)
            &&& c.enabled ==> {
                &&& number_said(sec, "max_rec"@, 5000, c.max_rec as int)
                &&& number_said(sec, "net_cleanday"@, 0, c.net_cleanday as int)
                &&& number_said(sec, "traffic_window_min"@, 60, c.traffic_window_min as int)
            }
        },
        dns_cfg(sec) matches Ok(r) ==> (r is Some <==> sec is Some),
        dns_cfg(sec) matches Ok(Some(c)) ==> {
            &&& switch_said(sec, "enabled"@, true, c.enabled)
            &&& c.enabled ==> {
                &&& socket_said(
                    sec,
                    "listen"@,
                    Some(SocketAddr { ip: IpAddr::V4(0x7f00_0001), port: 1053, scope: 0 }),
                    Some(c.listen),
                )
                &&& number_said(sec, "ttl"@, 3, c.ttl as int)
                &&& number_said(sec, "max_mem_pct"@, 30, c.max_mem_pct as int)
                &&& number_said(sec, "shards"@, 16, c.shards as int)
                &&& c.max_entries is Some <==> sec->0.contains_key("max_entries"@)
                &&& c.max_entries matches Some(n) ==> number_said(sec, "max_entries"@, 0, n as int)
                &&& sec->0.contains_key("fake_cidr"@) ==> cidr::ipv4_net(sec->0["fake_cidr"@])
                    == Some(c.fake_cidr)
                &&& !sec->0.contains_key("fake_cidr"@) ==> c.fake_cidr.addr == 0x0700_0000
                    && c.fake_cidr.prefix == 8
            }
        },
{
    lemma_switch(sec, "stats"@, "enabled"@, true);
    lemma_number_said(sec, "stats"@, "max_rec"@, usize::MAX as int, 5000);
    lemma_number_said(sec, "stats"@, "net_cleanday"@, u8::MAX as int, 0);
    lemma_number_said(sec, "stats"@, "traffic_window_min"@, u32::MAX as int, 60);
    lemma_switch(sec, "dns"@, "enabled"@, true);
    lemma_number_said(sec, "dns"@, "ttl"@, u32::MAX as int, 3);
    lemma_number_said(sec, "dns"@, "max_entries"@, usize::MAX as int, 1);
    lemma_number_said(sec, "dns"@, "max_mem_pct"@, u8::MAX as int, 30);
    lemma_number_said(sec, "dns"@, "shards"@, u32::MAX as int, 16);
}

/// Each part of a configuration comes from the section of its name, and a file is refused
/// only where one of its sections is.
pub proof fn law_sections_by_name(ini: Map<Seq<char>, Map<Seq<char>, Seq<char>>>, cpus: usize)
    ensures
        config_cfg(ini, cpus) matches Ok(c) ==> {
            let at = |n: Seq<char>| {
                if ini.contains_key(n) {
                    Some(ini[n])
                } else {
                    None
                }
            };
            &&& log_cfg(at("log"@)) == Ok::<LogView, ErrView>(c.log)
            &&& inbound_cfg(at("inbound"@), cpus) == Ok::<InboundCfg, ErrView>(c.inbound)
            &&& socks_cfg(at("socks5"@)) == Ok::<SocksCfg, ErrView>(c.socks5)
            &&& route_cfg(at("route"@)) == Ok::<RouteCfg, ErrView>(c.route)
            &&& stats_cfg(at("stats"@)) == Ok::<Option<StatsCfg>, ErrView>(c.stats)
            &&& dns_cfg(at("dns"@)) == Ok::<Option<DnsCfg>, ErrView>(c.dns)
            &&& web_cfg(at("web"@)) == Ok::<WebView, ErrView>(c.web)
            &&& inbound_proxy_cfg(at("inbound_proxy"@)) == Ok::<InboundProxyView, ErrView>(
                c.inbound_proxy,
            )
            &&& outbound_cfg(at("outbound"@)) == Ok::<OutboundView, ErrView>(c.outbound)
            &&& report_cfg(at("report"@)) == Ok::<ReportView, ErrView>(c.report)
            &&& ini.contains_key("acl"@) && ini["acl"@].contains_key("proxy_cidr"@) ==> acl_of(
                ini["acl"@]["proxy_cidr"@],
            ) == Ok::<Seq<Ipv4Net>, Seq<char>>(c.acl)
            &&& !(ini.contains_key("acl"@) && ini["acl"@].contains_key("proxy_cidr"@))
                ==> c.acl.len() == 0
        },
        config_cfg(ini, cpus) matches Err(e) ==> {
            let at = |n: Seq<char>| {
                if ini.contains_key(n) {
                    Some(ini[n])
                } else {
                    None
                }
            };
            log_cfg(at("log"@)) is Err || inbound_cfg(at("inbound"@), cpus) is Err || socks_cfg(
                at("socks5"@),
            ) is Err || route_cfg(at("route"@)) is Err || stats_cfg(at("stats"@)) is Err || dns_cfg(
                at("dns"@),
            ) is Err || web_cfg(at("web"@)) is Err || acl_field(at("acl"@), "acl"@, "proxy_cidr"@)
                is Err || inbound_proxy_cfg(at("inbound_proxy"@)) is Err || outbound_cfg(
                at("outbound"@),
            ) is Err || report_cfg(at("report"@)) is Err
        },
{
}

/// A line with a key and a value sets that key in the section that it stands in, and
/// nothing else, whatever blanks stand around either. A name in brackets begins the section
/// of that name, or goes on with it. A comment and an empty line change nothing.
pub proof fn law_lines_of_a_file(
    st: IniState,
    n: int,
    indent: Seq<char>,
    key: Seq<char>,
    value: Seq<char>,
)
    requires
        st.current.len() > 0,
        key.len() > 0,
        !text::is_space(key[0]) && !text::is_space(key.last()),
        key[0] != '[' && key[0] != '#' && key[0] != ';',
        forall|i: int| 0 <= i < key.len() ==> #[trigger] key[i] != '=',
        value.len() > 0,
        !text::is_space(value[0]) && !text::is_space(value.last()),
        forall|i: int| 0 <= i < indent.len() ==> text::is_space(#[trigger] indent[i]),
    ensures
        ini_step(st, n, indent + key + "="@ + value) == Ok::<IniState, ErrView>(
            IniState {
                ini: st.ini.insert(st.current, st.ini[st.current].insert(key, value)),
                current: st.current,
            },
        ),
        ini_step(st, n, indent + "#"@ + key) == Ok::<IniState, ErrView>(st),
        ini_step(st, n, indent + ";"@ + key) == Ok::<IniState, ErrView>(st),
        ini_step(st, n, indent) == Ok::<IniState, ErrView>(st),
        ini_step(st, n, "["@ + key + "]"@) matches Ok(r) && r.current == key && r.ini
            == if st.ini.contains_key(key) {
            st.ini
        } else {
            st.ini.insert(key, Map::empty())
        },
{
    reveal_strlit("=");
    reveal_strlit("#");
    reveal_strlit(";");
    reveal_strlit("[");
    reveal_strlit("]");
    let e = Seq::<char>::empty();
    let t = key + "="@ + value;
    let raw = indent + key + "="@ + value;
    assert(raw =~= indent + t + e);
    assert(t[0] == key[0] && t.last() == value.last());
    lemma_comment(indent, t);
    assert(indent + t =~= raw);
    text::law_trimming(indent, t, e);
    assert(t =~= key + seq!['='] + value);
    text::lemma_cut_first(key, value, '=');
    text::law_trimming(e, key, e);
    text::law_trimming(e, value, e);
    let h = "#"@ + key;
    lemma_comment(indent, h);
    assert(indent + "#"@ + key =~= indent + h);
    let s = ";"@ + key;
    lemma_comment(indent, s);
    assert(indent + ";"@ + key =~= indent + s);
    assert(text::trimmed(e) =~= e) by {
        text::law_trimming(e, e, e);
    }
    lemma_comment(indent, e);
    assert(indent + e =~= indent);
    text::law_trimming(indent, e, e);
    assert(indent + e + e =~= indent);
    let b = "["@ + key + "]"@;
    lemma_comment(e, b);
    assert(e + b =~= b);
    text::law_trimming(e, b, e);
    assert(b.subrange(1, b.len() - 1) =~= key);
}

/// A line is left out where a mark of a comment is the first thing in it.
proof fn lemma_comment(indent: Seq<char>, t: Seq<char>)
    requires
        forall|i: int| 0 <= i < indent.len() ==> text::is_space(#[trigger] indent[i]),
        t.len() > 0 ==> !text::is_space(t[0]),
    ensures
        t.len() > 0 && (t[0] == '#' || t[0] == ';') ==> without_comment(indent + t)
            == Seq::<char>::empty(),
        t.len() == 0 || (t[0] != '#' && t[0] != ';') ==> without_comment(indent + t) == indent + t,
{
    let raw = indent + t;
    assert forall|j: int| 0 <= j < indent.len() implies text::spaces()(#[trigger] raw[j]) by {
        assert(raw[j] == indent[j]);
    }
    text::lemma_lead(raw, text::spaces(), indent.len() as int);
    assert(raw.skip(indent.len() as int) =~= t);
}

/// An address alone in a list lets itself in and nobody else, a net lets in its addresses,
/// a list what any of its items does, and an empty list everybody.
#[verifier::rlimit(40)]
pub proof fn law_who_is_let_in(nets: Seq<Ipv4Net>, a: u32, ip: u32)
    ensures
        acl_of(addr::v4_text(a)) == Ok::<Seq<Ipv4Net>, Seq<char>>(
            seq![Ipv4Net { addr: a, prefix: 32 }],
        ),
        allowed(seq![Ipv4Net { addr: a, prefix: 32 }], IpAddr::V4(ip)) <==> ip == a,
        nets.len() > 0 ==> (allowed(nets, IpAddr::V4(ip)) <==> exists|i: int|
            0 <= i < nets.len() && (#[trigger] nets[i]).has(ip)),
        allowed(seq![], IpAddr::V4(ip)),
{
    let one = Ipv4Net { addr: a, prefix: 32 };
    lemma_one_address(a);
    cidr::law_a_net_is_a_block(one, ip);
    let v = seq![one];
    assert(v[0].has(ip) <==> ip == a);
}

/// A list of one address is the net of that address alone.
proof fn lemma_one_address(a: u32)
    ensures
        acl_of(addr::v4_text(a)) == Ok::<Seq<Ipv4Net>, Seq<char>>(
            seq![Ipv4Net { addr: a, prefix: 32 }],
        ),
{
    let t = addr::v4_text(a);
    let one = Ipv4Net { addr: a, prefix: 32 };
    addr::law_v4_round_trip(a, 0);
    addr::lemma_v4_plain(a);
    assert forall|i: int| 0 <= i < t.len() implies #[trigger] t[i] != ',' by {
        assert(text::is_digit(t[i], 10) || t[i] == '.');
    }
    assert forall|i: int| 0 <= i < t.len() implies #[trigger] t[i] != '/' by {
        assert(text::is_digit(t[i], 10) || t[i] == '.');
    }
    text::lemma_split_last(t, ',');
    let e = Seq::<char>::empty();
    text::law_trimming(e, t, e);
    assert(acl_run(seq![t], 0) == Ok::<Seq<Ipv4Net>, Seq<char>>(seq![]));
    assert(Seq::<Ipv4Net>::empty().push(one) =~= seq![one]);
}

/// The identifier of a reporter is made of its digits, two for each byte, and dashes in it
/// make no difference.
pub proof fn law_identifier_digits(s: Seq<char>, a: Seq<char>, b: Seq<char>)
    ensures
        uuid_of(a + "-"@ + b) == uuid_of(a + b),
        s.len() == 32 && text::all_digits(s, 16) && (forall|i: int|
            0 <= i < s.len() ==> #[trigger] s[i] != '-') ==> {
            &&& uuid_of(s) is Some
            &&& uuid_of(s)->0.len() == 16
            &&& forall|i: int|
                0 <= i < 16 ==> #[trigger] (uuid_of(s)->0)[i] == text::digit(s[2 * i]) * 16
                    + text::digit(s[2 * i + 1])
        },
        uuid_of(s) is Some ==> uuid_of(s)->0.len() == 16,
{
    reveal_strlit("-");
    lemma_dashes(a + "-"@, b);
    lemma_dashes(a, b);
    assert((a + "-"@).drop_last() =~= a);
    assert(without_dashes(a + "-"@) == without_dashes(a));
    if forall|i: int| 0 <= i < s.len() ==> #[trigger] s[i] != '-' {
        lemma_no_dashes(s);
        if s.len() == 32 && text::all_digits(s, 16) {
            assert forall|i: int| 0 <= i < 16 implies #[trigger] (uuid_of(s)->0)[i] == text::digit(
                s[2 * i],
            ) * 16 + text::digit(s[2 * i + 1]) by {
                assert(text::is_digit(s[2 * i], 16));
                assert(text::is_digit(s[2 * i + 1], 16));
            }
        }
    }
}

/// Dashes are left out of each part of a text.
proof fn lemma_dashes(a: Seq<char>, b: Seq<char>)
    ensures
        without_dashes(a + b) == without_dashes(a) + without_dashes(b),
    decreases b.len(),
{
    if b.len() == 0 {
        assert(a + b =~= a);
        assert(without_dashes(a) + b =~= without_dashes(a));
    } else {
        lemma_dashes(a, b.drop_last());
        assert((a + b).drop_last() =~= a + b.drop_last());
        if b.last() != '-' {
            assert(without_dashes(a + b) =~= without_dashes(a) + without_dashes(b));
        }
    }
}

/// A text without dashes stays.
proof fn lemma_no_dashes(s: Seq<char>)
    requires
        forall|i: int| 0 <= i < s.len() ==> #[trigger] s[i] != '-',
    ensures
        without_dashes(s) == s,
    decreases s.len(),
{
    if s.len() > 0 {
        lemma_no_dashes(s.drop_last());
        assert(s.drop_last().push(s.last()) =~= s);
    }
}

/// A line that is neither a section nor a setting stops the reading, and so do a section
/// without its end or its name and a setting before any section; an empty line and a remark
/// change nothing.
pub proof fn law_lines_that_stop_the_reading(st: IniState, n: int, raw: Seq<char>)
    ensures
        ({
            let t = text::trimmed(without_comment(raw));
            let r = ini_step(st, n, raw);
            &&& t.len() == 0 ==> r == Ok::<IniState, ErrView>(st)
            &&& t.len() > 0 && t[0] == '[' && t.last() != ']' ==> r == Err::<IniState, ErrView>(
                ErrView::Parse { line: n, msg: "missing closing ']'"@ },
            )
            &&& t == "["@ ==> r is Err
            &&& t.len() >= 2 && t[0] == '[' && t.last() == ']' && text::trimmed(
                t.subrange(1, t.len() - 1),
            ).len() == 0 ==> r == Err::<IniState, ErrView>(
                ErrView::Parse { line: n, msg: "empty section name"@ },
            )
            &&& t.len() >= 2 && t[0] == '[' && t.last() == ']' && text::trimmed(
                t.subrange(1, t.len() - 1),
            ).len() > 0 ==> r is Ok && r->Ok_0.current == text::trimmed(
                t.subrange(1, t.len() - 1),
            )
            &&& t.len() > 0 && t[0] != '[' && !t.contains('=') ==> r == Err::<IniState, ErrView>(
                ErrView::Parse { line: n, msg: "expected 'key = value'"@ },
            )
            &&& t.len() > 0 && t[0] != '[' && t.contains('=') && st.current.len() == 0 ==> r
                == Err::<IniState, ErrView>(
                ErrView::Parse { line: n, msg: "key before any [section]"@ },
            )
            &&& t.len() > 0 && t[0] != '[' && t.contains('=') && st.current.len() > 0 ==> r is Ok
        }),
{
    reveal_strlit("[");
    let t = text::trimmed(without_comment(raw));
    text::lemma_first_bounds(t, '=');
    if t.contains('=') {
        let i = t.index_of('=');
        assert(t[i] == '=');
    } else {
        assert forall|i: int| 0 <= i < t.len() implies #[trigger] t[i] != '=' by {
            assert(t.contains(t[i]));
        }
        text::lemma_no_cut(t, '=');
    }
}

/// An identifier is made of digits to the base of sixteen, two for a byte, and nothing else.
pub proof fn law_only_pairs_of_digits(s: Seq<char>)
    ensures
        hex_of(s) is Some <==> s.len() % 2 == 0 && text::all_digits(s, 16),
        hex_of(s) is Some ==> 2 * hex_of(s)->0.len() == s.len(),
        hex_of(seq!['f', '0']) == Some(seq![0xf0u8]),
        uuid_of(s) is Some ==> text::all_digits(without_dashes(s), 16) && without_dashes(s).len()
            == 32,
{
    let t = seq!['f', '0'];
    assert(hex_bytes(t) =~= seq![0xf0u8]);
}

} // verus!
