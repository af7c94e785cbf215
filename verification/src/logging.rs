//! What lines of the log look like.

use crate::addr;
use crate::addr::{IpAddr, SocketAddr};
use crate::text;
use vstd::prelude::*;

verus! {

pub const RESET: &'static str = "\x1b[0m";

pub const DIM: &'static str = "\x1b[2m";

pub const RED: &'static str = "\x1b[31m";

pub const GREEN: &'static str = "\x1b[32m";

pub const YELLOW: &'static str = "\x1b[33m";

pub const BLUE: &'static str = "\x1b[34m";

pub const MAGENTA: &'static str = "\x1b[35m";

pub const CYAN: &'static str = "\x1b[36m";

pub const GRAY: &'static str = "\x1b[90m";

pub const BRIGHT_BLUE: &'static str = "\x1b[94m";

pub const BRIGHT_CYAN: &'static str = "\x1b[96m";

pub const BOLD_RED: &'static str = "\x1b[1;31m";

pub const BOX_STYLE: &'static str = "\x1b[1;44;97m";

/// The part of the program whose details go to the web alone.
pub const DETAIL_TARGET: &'static str = "sniffbox::smart_speed";

/// What is logged where the level cannot be read.
pub const FALLBACK_FILTER: &'static str = "info,sniffbox::smart_speed=debug";

/// How far the clock of the log is ahead of that of the world, in seconds.
pub const CLOCK_AHEAD_SEC: u64 = 28_800;

/// How grave a line is.
#[derive(Debug, Clone, Copy, PartialEq, Eq, Structural)]
pub enum Level {
    Error,
    Warn,
    Info,
    Debug,
    Trace,
}

/// The name of a level.
pub open spec fn level_text(l: Level) -> Seq<char> {
    match l {
        Level::Error => "ERROR"@,
        Level::Warn => "WARN"@,
        Level::Info => "INFO"@,
        Level::Debug => "DEBUG"@,
        Level::Trace => "TRACE"@,
    }
}

/// The colour of a level.
pub open spec fn level_color(l: Level) -> Seq<char> {
    match l {
        Level::Error => BOLD_RED@,
        Level::Warn => YELLOW@,
        Level::Debug => BLUE@,
        _ => MAGENTA@,
    }
}

impl Level {
    /// The name of the level.
    pub fn as_str(self) -> (r: &'static str)
        ensures
            r@ == level_text(self),
    {
        match self {
            Level::Error => "ERROR",
            Level::Warn => "WARN",
            Level::Info => "INFO",
            Level::Debug => "DEBUG",
            Level::Trace => "TRACE",
        }
    }

    /// The colour of the level.
    fn color(self) -> (r: &'static str)
        ensures
            r@ == level_color(self),
    {
        match self {
            Level::Error => BOLD_RED,
            Level::Warn => YELLOW,
            Level::Debug => BLUE,
            _ => MAGENTA,
        }
    }
}

/// A code for the terminal, where it understands them.
pub open spec fn code(ansi: bool, c: Seq<char>) -> Seq<char> {
    if ansi {
        c
    } else {
        Seq::empty()
    }
}

/// Appends a code for the terminal, where it understands them.
fn push_code(out: &mut String, ansi: bool, c: &str)
    ensures
        final(out)@ == old(out)@ + code(ansi, c@),
{
    if ansi {
        out.append(c);
    }
    assert(out@ =~= old(out)@ + code(ansi, c@));
}

/// A text in a colour.
pub open spec fn painted(ansi: bool, color: Seq<char>, s: Seq<char>) -> Seq<char> {
    code(ansi, color) + s + code(ansi, RESET@)
}

/// A text in a colour.
pub fn paint(ansi: bool, color: &str, s: &str) -> (r: String)
    ensures
        r@ == painted(ansi, color@, s@),
{
    let mut out = String::new();
    push_code(&mut out, ansi, color);
    out.append(s);
    push_code(&mut out, ansi, RESET);
    assert(out@ =~= painted(ansi, color@, s@));
    out
}

/// Whether a character controls the terminal.
pub open spec fn is_control(c: char) -> bool {
    c <= '\u{1f}' || ('\u{7f}' <= c && c <= '\u{9f}')
}

/// A text in which no character controls the terminal.
pub open spec fn sane(s: Seq<char>) -> Seq<char> {
    Seq::new(
        s.len(),
        |i: int|
            if is_control(s[i]) {
                '\u{fffd}'
            } else {
                s[i]
            },
    )
}

/// Appends a text in which no character controls the terminal.
fn push_sane(out: &mut String, s: &str)
    ensures
        final(out)@ == old(out)@ + sane(s@),
{
    let cs = text::chars_of(s);
    let ghost start = out@;
    let mut i: usize = 0;
    assert(out@ =~= start + sane(s@).take(0));
    while i < cs.len()
        invariant
            i <= cs@.len(),
            cs@ == s@,
            out@ == start + sane(s@).take(i as int),
        decreases cs@.len() - i,
    {
        let c = cs[i];
        if c <= '\u{1f}' || ('\u{7f}' <= c && c <= '\u{9f}') {
            out.push('\u{fffd}');
        } else {
            out.push(c);
        }
        assert(out@ =~= start + sane(s@).take(i + 1));
        i = i + 1;
    }
    assert(sane(s@).take(i as int) =~= sane(s@));
}

/// A text in which no character controls the terminal.
pub fn sanitize(s: &str) -> (r: String)
    ensures
        r@ == sane(s@),
{
    let mut out = String::new();
    push_sane(&mut out, s);
    assert(out@ =~= sane(s@));
    out
}

/// The colour of a protocol.
pub open spec fn scheme_color(scheme: Option<Seq<char>>) -> Seq<char> {
    if scheme == Some("tls"@) {
        GREEN@
    } else if scheme == Some("http"@) {
        BRIGHT_CYAN@
    } else {
        CYAN@
    }
}

/// Where a connection goes: its domain with its protocol, else its domain, else its
/// address.
pub open spec fn flow_target(
    orig: SocketAddr,
    scheme: Option<Seq<char>>,
    domain: Option<Seq<char>>,
) -> Seq<char> {
    match domain {
        Some(d) => match scheme {
            Some(s) => s + "://"@ + sane(d),
            None => sane(d),
        },
        None => addr::ip_text(orig.ip),
    }
}

/// The line about a connection.
pub open spec fn flow_text(
    ansi: bool,
    client: IpAddr,
    orig: SocketAddr,
    scheme: Option<Seq<char>>,
    domain: Option<Seq<char>>,
    udp: bool,
) -> Seq<char> {
    painted(ansi, YELLOW@, addr::ip_text(client)) + " "@ + painted(
        ansi,
        GRAY@,
        if udp {
            "UDP ->"@
        } else {
            "->"@
        },
    ) + " "@ + painted(
        ansi,
        scheme_color(scheme),
        flow_target(orig, scheme, domain) + ":"@ + text::decimal(orig.port as int),
    )
}

/// The line about a connection.
pub fn fmt_flow(
    ansi: bool,
    client: IpAddr,
    orig: SocketAddr,
    scheme: Option<&str>,
    domain: Option<&str>,
    udp: bool,
) -> (r: String)
    ensures
        r@ == flow_text(ansi, client, orig, text::opt_str(scheme), text::opt_str(domain), udp),
{
    let mut target = String::new();
    match domain {
        Some(d) => {
            match scheme {
                Some(s) => {
                    target.append(s);
                    target.append("://");
                },
                None => {},
            }
            push_sane(&mut target, d);
        },
        None => {
            target.append(orig.ip.text().as_str());
        },
    }
    assert(target@ =~= flow_target(orig, text::opt_str(scheme), text::opt_str(domain)));
    target.append(":");
    text::push_decimal(&mut target, orig.port as u64);
    let color = match scheme {
        Some(s) => if text::same_str(s, "tls") {
            GREEN
        } else if text::same_str(s, "http") {
            BRIGHT_CYAN
        } else {
            CYAN
        },
        None => CYAN,
    };
    proof {
        reveal_strlit("tls");
        reveal_strlit("http");
        assert("tls"@.len() != "http"@.len());
    }
    let mut out = paint(ansi, YELLOW, client.text().as_str());
    out.append(" ");
    out.append(
        paint(
            ansi,
            GRAY,
            if udp {
                "UDP ->"
            } else {
                "->"
            },
        ).as_str(),
    );
    out.append(" ");
    out.append(paint(ansi, color, target.as_str()).as_str());
    out
}

/// A part of a line: its name and its text.
pub type Field = (String, String);

/// The parts of a line, as values.
pub open spec fn field_views(v: Seq<Field>) -> Seq<(Seq<char>, Seq<char>)> {
    Seq::new(v.len(), |i: int| (v[i].0@, v[i].1@))
}

/// The first `n` parts of a line. The message stands as it is, and of any other part
/// no character controls the terminal.
pub open spec fn fields_text(ansi: bool, v: Seq<(Seq<char>, Seq<char>)>, n: int) -> Seq<char>
    decreases n,
{
    if n <= 0 {
        Seq::empty()
    } else {
        let f = v[n - 1];
        fields_text(ansi, v, n - 1) + if f.0 == "message"@ {
            f.1
        } else {
            " "@ + code(ansi, DIM@) + f.0 + "="@ + code(ansi, RESET@) + sane(f.1)
        }
    }
}

/// The parts of a line.
pub fn fmt_fields(ansi: bool, fields: &[Field]) -> (r: String)
    ensures
        r@ == fields_text(ansi, field_views(fields@), fields@.len() as int),
{
    let ghost v = field_views(fields@);
    let mut out = String::new();
    let mut i: usize = 0;
    assert(out@ =~= fields_text(ansi, v, 0));
    while i < fields.len()
        invariant
            i <= fields@.len(),
            v == field_views(fields@),
            out@ == fields_text(ansi, v, i as int),
        decreases fields@.len() - i,
    {
        let ghost before = out@;
        let f = &fields[i];
        assert(v[i as int] == (f.0@, f.1@));
        if text::same_str(f.0.as_str(), "message") {
            out.append(f.1.as_str());
        } else {
            out.append(" ");
            push_code(&mut out, ansi, DIM);
            out.append(f.0.as_str());
            out.append("=");
            push_code(&mut out, ansi, RESET);
            push_sane(&mut out, f.1.as_str());
            assert(out@ =~= before + (" "@ + code(ansi, DIM@) + f.0@ + "="@ + code(ansi, RESET@)
                + sane(f.1@)));
        }
        i = i + 1;
    }
    out
}

/// Whether the message of the first `n` parts has a tag of its own.
pub open spec fn tagged(v: Seq<(Seq<char>, Seq<char>)>, n: int) -> bool
    decreases n,
{
    if n <= 0 {
        false
    } else if v[n - 1].0 == "message"@ {
        text::starts(v[n - 1].1, "[PaoPaoGW "@)
    } else {
        tagged(v, n - 1)
    }
}

/// Whether the message has a tag of its own.
fn own_tag(fields: &[Field]) -> (r: bool)
    ensures
        r == tagged(field_views(fields@), fields@.len() as int),
{
    let ghost v = field_views(fields@);
    let mut hit = false;
    let mut i: usize = 0;
    while i < fields.len()
        invariant
            i <= fields@.len(),
            v == field_views(fields@),
            hit == tagged(v, i as int),
        decreases fields@.len() - i,
    {
        let f = &fields[i];
        assert(v[i as int] == (f.0@, f.1@));
        if text::same_str(f.0.as_str(), "message") {
            let cs = text::chars_of(f.1.as_str());
            hit = text::starts_with(cs.as_slice(), "[PaoPaoGW ");
        }
        i = i + 1;
    }
    hit
}

/// A time of the day.
pub open spec fn clock_text(now_sec: u64) -> Seq<char> {
    let s = (now_sec + CLOCK_AHEAD_SEC) % 86_400;
    text::zero_padded(text::decimal(s / 3600), 2) + ":"@ + text::zero_padded(
        text::decimal(s / 60 % 60),
        2,
    ) + ":"@ + text::zero_padded(text::decimal(s % 60), 2)
}

/// What stands before the parts of a line: the mark of the program unless the message
/// has a tag of its own, the time where it is asked for, and the level of any line
/// that is not a mere notice.
pub open spec fn head_text(ansi: bool, tag: bool, now_sec: Option<u64>, level: Level) -> Seq<char> {
    (if tag {
        Seq::empty()
    } else {
        code(ansi, BOX_STYLE@) + " PaoPaoGW BOX "@ + code(ansi, RESET@)
    }) + (match now_sec {
        Some(t) => code(ansi, GRAY@) + clock_text(t) + code(ansi, RESET@),
        None => Seq::empty(),
    }) + " "@ + (if level == Level::Info {
        Seq::empty()
    } else {
        code(ansi, level_color(level)) + level_text(level) + code(ansi, RESET@) + " "@
    })
}

/// Appends the time of the day.
fn push_clock(out: &mut String, now_sec: u64)
    ensures
        final(out)@ == old(out)@ + clock_text(now_sec),
{
    let ghost start = out@;
    let s: u64 = ((now_sec as u128 + CLOCK_AHEAD_SEC as u128) % 86_400) as u64;
    text::push_padded(out, s / 3600, 10, 2);
    out.append(":");
    text::push_padded(out, s / 60 % 60, 10, 2);
    out.append(":");
    text::push_padded(out, s % 60, 10, 2);
    assert(out@ =~= start + clock_text(now_sec));
}

/// A line of the log.
pub fn format_event(ansi: bool, now_sec: Option<u64>, level: Level, fields: &[Field]) -> (r: String)
    ensures
        r@ == head_text(
            ansi,
            tagged(field_views(fields@), fields@.len() as int),
            now_sec,
            level,
        ) + fields_text(ansi, field_views(fields@), fields@.len() as int) + "\n"@,
{
    let tag = own_tag(fields);
    let mut out = String::new();
    if !tag {
        push_code(&mut out, ansi, BOX_STYLE);
        out.append(" PaoPaoGW BOX ");
        push_code(&mut out, ansi, RESET);
    }
    match now_sec {
        Some(t) => {
            push_code(&mut out, ansi, GRAY);
            push_clock(&mut out, t);
            push_code(&mut out, ansi, RESET);
        },
        None => {},
    }
    out.append(" ");
    if level != Level::Info {
        push_code(&mut out, ansi, level.color());
        out.append(level.as_str());
        push_code(&mut out, ansi, RESET);
        out.append(" ");
    }
    assert(out@ =~= head_text(ansi, tag, now_sec, level));
    out.append(fmt_fields(ansi, fields).as_str());
    out.append("\n");
    out
}

/// What is logged: the choice of the environment, else the level that is set, and
/// the details that go to the web.
pub fn filter_text(env: Option<&str>, level: &str) -> (r: String)
    ensures
        r@ == (match env {
            Some(e) => e@,
            None => level@,
        }) + ",sniffbox::smart_speed=debug"@,
{
    let mut out = String::new();
    match env {
        Some(e) => out.append(e),
        None => out.append(level),
    }
    out.append(",sniffbox::smart_speed=debug");
    assert(out@ =~= (match env {
        Some(e) => e@,
        None => level@,
    }) + ",sniffbox::smart_speed=debug"@);
    out
}

/// Whether a line goes to the console: the details for the web do not.
pub fn on_console(target: &str, level: Level) -> (r: bool)
    ensures
        r == !(text::starts(target@, DETAIL_TARGET@) && level == Level::Debug),
{
    let cs = text::chars_of(target);
    !(text::starts_with(cs.as_slice(), DETAIL_TARGET) && level == Level::Debug)
}

/// However a domain is written, none of its characters controls the terminal.
pub proof fn law_nothing_controls_the_terminal(s: Seq<char>, i: int)
    requires
        0 <= i < s.len(),
    ensures
        sane(s).len() == s.len(),
        !is_control(sane(s)[i]),
        !is_control(s[i]) ==> sane(s)[i] == s[i],
{
}

/// Where the terminal understands no codes, none is written.
pub proof fn law_plain_is_plain(color: Seq<char>, s: Seq<char>)
    ensures
        painted(false, color, s) == s,
{
    assert(painted(false, color, s) =~= s);
}

/// A flow is shown from its client to its destination, by the name of the destination where
/// it is known and by its address where it is not, and with the port.
pub proof fn law_how_a_flow_is_shown(
    client: IpAddr,
    orig: SocketAddr,
    scheme: Option<Seq<char>>,
    s: Seq<char>,
    d: Seq<char>,
)
    requires
        forall|i: int| 0 <= i < d.len() ==> !is_control(#[trigger] d[i]),
    ensures
        ({
            let port = ":"@ + text::decimal(orig.port as int);
            let from = addr::ip_text(client);
            &&& flow_text(false, client, orig, scheme, None, false) == from + " "@ + "->"@ + " "@
                + (addr::ip_text(orig.ip) + port)
            &&& flow_text(false, client, orig, Some(s), Some(d), false) == from + " "@ + "->"@ + " "@
                + (s + "://"@ + d + port)
            &&& flow_text(false, client, orig, None, Some(d), false) == from + " "@ + "->"@ + " "@
                + (d + port)
            &&& flow_text(false, client, orig, Some(s), Some(d), true) == from + " "@ + "UDP ->"@
                + " "@ + (s + "://"@ + d + port)
        }),
{
    assert(sane(d) =~= d);
    let port = ":"@ + text::decimal(orig.port as int);
    let from = addr::ip_text(client);
    law_plain_is_plain(YELLOW@, from);
    law_plain_is_plain(GRAY@, "->"@);
    law_plain_is_plain(GRAY@, "UDP ->"@);
    let p = text::decimal(orig.port as int);
    let a = addr::ip_text(orig.ip);
    let b = s + "://"@ + d;
    assert(a + ":"@ + p =~= a + port);
    assert(b + ":"@ + p =~= b + port);
    assert(d + ":"@ + p =~= d + port);
    law_plain_is_plain(scheme_color(scheme), a + port);
    law_plain_is_plain(scheme_color(Some(s)), b + port);
    law_plain_is_plain(scheme_color(None), d + port);
}

/// Each level by its name, and each with its colour.
pub proof fn law_levels_by_name()
    ensures
        level_text(Level::Error) == "ERROR"@ && level_color(Level::Error) == "\x1b[1;31m"@,
        level_text(Level::Warn) == "WARN"@ && level_color(Level::Warn) == "\x1b[33m"@,
        level_text(Level::Info) == "INFO"@,
        level_text(Level::Debug) == "DEBUG"@ && level_color(Level::Debug) == "\x1b[34m"@,
        level_text(Level::Trace) == "TRACE"@ && level_color(Level::Trace) == "\x1b[35m"@,
        scheme_color(Some("tls"@)) == "\x1b[32m"@,
        scheme_color(Some("http"@)) == "\x1b[96m"@,
        scheme_color(None) == "\x1b[36m"@,
{
    reveal_strlit("tls");
    reveal_strlit("http");
    assert("tls"@.len() == 3 && "http"@.len() == 4);
}

/// A colour stands before what it paints, and what ends it stands behind.
pub proof fn law_painted(color: Seq<char>, s: Seq<char>)
    ensures
        painted(true, color, s) == color + s + "\x1b[0m"@,
        code(true, color) == color,
        code(false, color) == Seq::<char>::empty(),
{
}

/// The message of an event is shown as it is, and each of its other fields behind its name.
pub proof fn law_fields_of_an_event(v: Seq<(Seq<char>, Seq<char>)>, name: Seq<char>, s: Seq<char>)
    requires
        forall|i: int| 0 <= i < s.len() ==> !is_control(#[trigger] s[i]),
    ensures
        ({
            let n = v.len() as int;
            let before = fields_text(false, v, n);
            let all = fields_text(false, v.push((name, s)), n + 1);
            &&& name == "message"@ ==> all == before + s
            &&& name != "message"@ ==> all == before + (" "@ + name + "="@ + s)
        }),
        fields_text(false, seq![], 0) == Seq::<char>::empty(),
{
    let n = v.len() as int;
    lemma_fields_before(v, (name, s), n);
    assert(sane(s) =~= s);
    let e = Seq::<char>::empty();
    assert(" "@ + e + name + "="@ + e + s =~= " "@ + name + "="@ + s);
}

/// What is shown of the first fields does not depend on those behind them.
proof fn lemma_fields_before(v: Seq<(Seq<char>, Seq<char>)>, f: (Seq<char>, Seq<char>), n: int)
    requires
        0 <= n <= v.len(),
    ensures
        fields_text(false, v.push(f), n) == fields_text(false, v, n),
        tagged(v.push(f), n) == tagged(v, n),
    decreases n,
{
    if n > 0 {
        lemma_fields_before(v, f, n - 1);
        assert(v.push(f)[n - 1] == v[n - 1]);
    }
}

/// An event has its own head where its last message begins with one.
pub proof fn law_own_heads(v: Seq<(Seq<char>, Seq<char>)>, name: Seq<char>, s: Seq<char>)
    ensures
        name == "message"@ ==> (tagged(v.push((name, s)), v.len() as int + 1) <==> text::starts(
            s,
            "[PaoPaoGW "@,
        )),
        name != "message"@ ==> tagged(v.push((name, s)), v.len() as int + 1) == tagged(
            v,
            v.len() as int,
        ),
        !tagged(seq![], 0),
{
    lemma_fields_before(v, (name, s), v.len() as int);
}

/// The clock is eight hours ahead and shows hours, minutes and seconds.
pub proof fn law_how_the_clock_is_shown(days: u64, hh: u64, mm: u64, ss: u64)
    requires
        10 <= hh < 24,
        10 <= mm < 60,
        10 <= ss < 60,
        1 <= days <= 0xffff_ffff,
    ensures
        clock_text((days * 86_400 + hh * 3600 + mm * 60 + ss - 28_800) as u64) == text::decimal(
            hh as int,
        ) + ":"@ + text::decimal(mm as int) + ":"@ + text::decimal(ss as int),
{
    let t = (days * 86_400 + hh * 3600 + mm * 60 + ss - 28_800) as u64;
    let x = hh * 3600 + mm * 60 + ss;
    assert(t + 28_800 == days * 86_400 + x);
    assert((days * 86_400 + x) % 86_400 == x) by {
        vstd::arithmetic::div_mod::lemma_fundamental_div_mod_converse(
            days * 86_400 + x,
            86_400,
            days as int,
            x,
        );
    }
    lemma_parts_of_a_day(hh as int, mm as int, ss as int);
    lemma_two_places(hh as int);
    lemma_two_places(mm as int);
    lemma_two_places(ss as int);
}

/// The hours, minutes and seconds of a day.
proof fn lemma_parts_of_a_day(hh: int, mm: int, ss: int)
    requires
        0 <= hh,
        0 <= mm < 60,
        0 <= ss < 60,
    ensures
        (hh * 3600 + mm * 60 + ss) / 3600 == hh,
        (hh * 3600 + mm * 60 + ss) / 60 % 60 == mm,
        (hh * 3600 + mm * 60 + ss) % 60 == ss,
{
    assert((hh * 3600 + mm * 60 + ss) / 60 == hh * 60 + mm);
    assert((hh * 60 + mm) % 60 == mm);
}

/// A number of two digits fills two places.
proof fn lemma_two_places(n: int)
    requires
        10 <= n < 100,
    ensures
        text::zero_padded(text::decimal(n), 2) == text::decimal(n),
{
    reveal_with_fuel(text::written, 3);
}

/// The head of an event holds its mark, its time and its level, and leaves out the level of
/// what is only told.
pub proof fn law_heads_of_events(now: u64, level: Level)
    ensures
        head_text(false, true, None, Level::Info) == " "@,
        head_text(false, true, Some(now), Level::Info) == clock_text(now) + " "@,
        head_text(false, false, Some(now), Level::Info) == " PaoPaoGW BOX "@ + clock_text(now)
            + " "@,
        level != Level::Info ==> head_text(false, false, Some(now), level) == " PaoPaoGW BOX "@
            + clock_text(now) + " "@ + level_text(level) + " "@,
{
    let e = Seq::<char>::empty();
    let c = clock_text(now);
    let b = " PaoPaoGW BOX "@;
    let l = level_text(level);
    assert(e + e + " "@ + e =~= " "@);
    assert(e + (e + c + e) + " "@ + e =~= c + " "@);
    assert((e + b + e) + (e + c + e) + " "@ + e =~= b + c + " "@);
    assert((e + b + e) + (e + c + e) + " "@ + (e + l + e + " "@) =~= b + c + " "@ + l + " "@);
}

} // verus!
