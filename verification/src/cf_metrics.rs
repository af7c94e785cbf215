//! The counters of the processes that carry the tunnel.

use crate::bytes;
use crate::cf_config::Protocol;
use crate::decimal;
use crate::json;
use crate::json::{Json, Shape};
use crate::table::Table;
use crate::text;
use vstd::prelude::*;

verus! {

/// How many bytes of an answer are read.
pub const MAX_BODY: usize = 262_144;

/// A counter: its labels, and its value as it is written.
pub struct Series {
    pub labels: Table<String>,
    pub value: String,
}

/// A counter, as values.
#[verifier::ext_equal]
pub struct SeriesView {
    pub labels: Map<Seq<char>, Seq<char>>,
    pub value: Seq<char>,
}

/// Labels, as values.
pub open spec fn label_view(t: Table<String>) -> Map<Seq<char>, Seq<char>> {
    Map::new(|k: Seq<char>| t@.contains_key(k), |k: Seq<char>| t@[k]@)
}

impl View for Series {
    type V = SeriesView;

    open spec fn view(&self) -> SeriesView {
        SeriesView { labels: label_view(self.labels), value: self.value@ }
    }
}

/// Counters, as values.
pub open spec fn series_views(v: Seq<Series>) -> Seq<SeriesView> {
    Seq::new(v.len(), |i: int| v[i]@)
}

/// The counters of one name.
pub struct Family {
    pub name: String,
    pub series: Vec<Series>,
}

/// The counters of one name, as values.
#[verifier::ext_equal]
pub struct FamilyView {
    pub name: Seq<char>,
    pub series: Seq<SeriesView>,
}

impl View for Family {
    type V = FamilyView;

    open spec fn view(&self) -> FamilyView {
        FamilyView { name: self.name@, series: series_views(self.series@) }
    }
}

/// Families of counters, as values.
pub open spec fn family_views(v: Seq<Family>) -> Seq<FamilyView> {
    Seq::new(v.len(), |i: int| v[i]@)
}

/// Where a byte first stands from a place on, or the length of the bytes.
pub open spec fn byte_from(b: Seq<u8>, x: u8, i: int) -> int
    decreases b.len() - i,
{
    if i < 0 || i >= b.len() {
        b.len() as int
    } else if b[i] == x {
        i
    } else {
        byte_from(b, x, i + 1)
    }
}

/// What stands in quotes from a place on, and where it ends: at a quote or behind
/// the last byte. A backslash makes the next byte stand for itself, or for the end
/// of a line.
pub open spec fn quoted(b: Seq<u8>, k: int) -> (Seq<char>, int)
    decreases b.len() - k,
{
    if k < 0 || k >= b.len() {
        (Seq::empty(), k)
    } else if b[k] == 92 && k + 1 < b.len() {
        let c = if b[k + 1] == 110 {
            '\n'
        } else {
            b[k + 1] as char
        };
        let (rest, end) = quoted(b, k + 2);
        (seq![c] + rest, end)
    } else if b[k] == 34 {
        (Seq::empty(), k)
    } else {
        let (rest, end) = quoted(b, k + 1);
        (seq![b[k] as char] + rest, end)
    }
}

/// What stands in quotes ends behind where it starts.
proof fn lemma_quoted(b: Seq<u8>, k: int)
    requires
        0 <= k <= b.len(),
    ensures
        k <= quoted(b, k).1 <= b.len(),
    decreases b.len() - k,
{
    if k < b.len() {
        if b[k] == 92 && k + 1 < b.len() {
            lemma_quoted(b, k + 2);
        } else if b[k] != 34 {
            lemma_quoted(b, k + 1);
        }
    }
}

/// The name of a label: what the bytes write, without commas before it and spaces
/// around it.
pub open spec fn label_name(b: Seq<u8>) -> Option<Seq<char>> {
    if vstd::utf8::valid_utf8(b) {
        Some(text::trimmed(text::trim_start_of(vstd::utf8::decode_utf8(b), text::only(','))))
    } else {
        None
    }
}

/// The labels from a place on, added to those before. They end where no value
/// follows and at a label without a name.
pub open spec fn labels_from(b: Seq<u8>, i: int, m: Map<Seq<char>, Seq<char>>) -> Map<
    Seq<char>,
    Seq<char>,
>
    decreases b.len() - i,
{
    let eq = byte_from(b, 61, i);
    if i < 0 || i >= b.len() || eq >= b.len() || eq < i || eq + 1 >= b.len() || b[eq + 1] != 34 {
        m
    } else {
        let (val, end) = quoted(b, eq + 2);
        match label_name(b.subrange(i, eq)) {
            Some(key) => if key.len() == 0 {
                m
            } else if i < end + 1 <= b.len() {
                labels_from(b, end + 1, m.insert(key, val))
            } else {
                m.insert(key, val)
            },
            None => m,
        }
    }
}

/// The labels that a text writes.
pub open spec fn labels_of(raw: Seq<char>) -> Map<Seq<char>, Seq<char>> {
    labels_from(bytes::utf8(raw), 0, Map::empty())
}

/// Where a byte first stands from a place on.
fn find_byte(b: &[u8], x: u8, from: usize) -> (r: Option<usize>)
    requires
        from <= b@.len(),
    ensures
        match r {
            Some(i) => from <= i < b@.len() && byte_from(b@, x, from as int) == i,
            None => byte_from(b@, x, from as int) == b@.len(),
        },
{
    let mut i: usize = from;
    while i < b.len()
        invariant
            from <= i <= b@.len(),
            byte_from(b@, x, from as int) == byte_from(b@, x, i as int),
        decreases b@.len() - i,
    {
        if b[i] == x {
            return Some(i);
        }
        i = i + 1;
    }
    None
}

/// What stands in quotes from a place on, and where it ends.
fn read_quoted(b: &[u8], from: usize) -> (r: (String, usize))
    requires
        from <= b@.len(),
    ensures
        (r.0@, r.1 as int) == quoted(b@, from as int),
        from <= r.1 <= b@.len(),
{
    let n: usize = b.len();
    let mut out = String::new();
    let mut k: usize = from;
    proof {
        lemma_quoted(b@, from as int);
        assert(quoted(b@, from as int).0 =~= out@ + quoted(b@, k as int).0);
    }
    while k < n
        invariant_except_break
            from <= k <= n,
            n == b@.len(),
            quoted(b@, from as int).1 == quoted(b@, k as int).1,
            quoted(b@, from as int).0 == out@ + quoted(b@, k as int).0,
        ensures
            from <= k <= n,
            (out@, k as int) == quoted(b@, from as int),
        decreases n - k,
    {
        let ghost before = out@;
        let ghost rest = quoted(b@, k as int).0;
        if b[k] == 92 && k < n - 1 {
            let c = if b[k + 1] == 110 {
                '\n'
            } else {
                b[k + 1] as char
            };
            out.push(c);
            let ghost tail = quoted(b@, k + 2).0;
            assert(rest == seq![c] + tail);
            assert(before + rest =~= out@ + tail);
            k = k + 2;
        } else if b[k] == 34 {
            assert(rest =~= Seq::<char>::empty());
            assert(before + rest =~= before);
            break ;
        } else {
            let c = b[k] as char;
            out.push(c);
            let ghost tail = quoted(b@, k + 1).0;
            assert(rest == seq![c] + tail);
            assert(before + rest =~= out@ + tail);
            k = k + 1;
        }
        if k == n {
            assert(quoted(b@, k as int).0 =~= Seq::<char>::empty());
            assert(out@ + quoted(b@, k as int).0 =~= out@);
        }
    }
    (out, k)
}

/// The labels that a text writes.
pub fn parse_labels(raw: &str) -> (r: Table<String>)
    ensures
        r.wf(),
        label_view(r) == labels_of(raw@),
{
    let b = raw.as_bytes();
    let n: usize = b.len();
    let mut out: Table<String> = Table::new();
    assert(label_view(out) =~= Map::<Seq<char>, Seq<char>>::empty());
    let mut i: usize = 0;
    while i < n
        invariant_except_break
            i <= n,
            n == b@.len(),
            out.wf(),
            labels_from(b@, 0, Map::empty()) == labels_from(b@, i as int, label_view(out)),
        ensures
            out.wf(),
            labels_from(b@, 0, Map::empty()) == label_view(out),
        decreases n - i,
    {
        let ghost held = label_view(out);
        let eq: usize = match find_byte(b, 61, i) {
            Some(eq) => eq,
            None => {
                break ;
            },
        };
        if eq + 1 >= n || b[eq + 1] != 34 {
            break ;
        }
        let (val, end) = read_quoted(b, eq + 2);
        let key = match bytes::text_of(vstd::slice::slice_subrange(b, i, eq)) {
            Some(s) => {
                let cs = text::chars_of(s.as_str());
                text::str_of(text::trim(text::trim_start_char(cs.as_slice(), ',')))
            },
            None => {
                break ;
            },
        };
        if text::chars_of(key.as_str()).len() == 0 {
            break ;
        }
        let ghost k = key@;
        let ghost v = val@;
        out.insert(key, val);
        assert(label_view(out) =~= held.insert(k, v));
        if end >= n {
            break ;
        }
        i = end + 1;
        if i == n {
            assert(labels_from(b@, i as int, label_view(out)) == label_view(out));
        }
    }
    out
}

/// The first white space of a text, or its length.
pub open spec fn first_space(s: Seq<char>) -> int {
    text::lead(s, text::non_spaces())
}

/// What a line tells: a name, labels and a number that is finite.
pub open spec fn line_of(line: Seq<char>) -> Option<(Seq<char>, SeriesView)> {
    let parts = match text::cut(line, '{') {
        Some((name, tail)) => match text::cut(tail, '}') {
            Some((labels, rest)) => Some((text::trimmed(name), labels, rest)),
            None => None,
        },
        None => if first_space(line) < line.len() {
            Some(
                (
                    text::trimmed(line.take(first_space(line))),
                    Seq::<char>::empty(),
                    line.skip(first_space(line) + 1),
                ),
            )
        } else {
            None
        },
    };
    match parts {
        Some((name, labels, rest)) => {
            let w = text::words(rest);
            if w.len() == 0 {
                None
            } else {
                match decimal::number_of(w[0]) {
                    Some(decimal::Number::Finite(_, _)) => Some(
                        (name, SeriesView { labels: labels_of(labels), value: w[0] }),
                    ),
                    _ => None,
                }
            }
        },
        None => None,
    }
}

/// What a line tells.
pub fn parse_line(line: &[char]) -> (r: Option<(String, Series)>)
    ensures
        match r {
            Some((name, s)) => line_of(line@) == Some((name@, s@)) && s.labels.wf(),
            None => line_of(line@) is None,
        },
{
    let (name, labels, rest) = match text::split_once(line, '{') {
        Some((name, tail)) => match text::split_once(tail, '}') {
            Some((labels, rest)) => (text::trim(name), text::str_of(labels), rest),
            None => return None,
        },
        None => {
            let n: usize = line.len();
            let mut k: usize = 0;
            while k < n && !text::space(line[k])
                invariant
                    k <= n,
                    n == line@.len(),
                    forall|j: int| 0 <= j < k ==> text::non_spaces()(#[trigger] line@[j]),
                decreases n - k,
            {
                k = k + 1;
            }
            proof {
                text::lemma_lead(line@, text::non_spaces(), k as int);
            }
            if k >= n {
                return None;
            }
            let head = vstd::slice::slice_subrange(line, 0, k);
            let tail = vstd::slice::slice_subrange(line, k + 1, n);
            assert(head@ =~= line@.take(k as int));
            assert(tail@ =~= line@.skip(k + 1));
            (text::trim(head), String::new(), tail)
        },
    };
    let w = text::words_of(rest);
    assert(text::words(rest@) == text::texts(w@));
    if w.len() == 0 {
        return None;
    }
    assert(text::words(rest@)[0] == w@[0]@);
    match decimal::parse(w[0]) {
        Some(decimal::Number::Finite(_, _)) => {},
        _ => return None,
    }
    Some(
        (
            text::str_of(name),
            Series { labels: parse_labels(labels.as_str()), value: text::str_of(w[0]) },
        ),
    )
}

/// The place of a name among the families, from a place on, or their number.
pub open spec fn family_from(fs: Seq<FamilyView>, name: Seq<char>, i: int) -> int
    decreases fs.len() - i,
{
    if i < 0 || i >= fs.len() {
        fs.len() as int
    } else if fs[i].name == name {
        i
    } else {
        family_from(fs, name, i + 1)
    }
}

/// The families with one more counter.
pub open spec fn with_series(fs: Seq<FamilyView>, name: Seq<char>, s: SeriesView) -> Seq<FamilyView> {
    let i = family_from(fs, name, 0);
    if i < fs.len() {
        fs.update(i, FamilyView { name, series: fs[i].series.push(s) })
    } else {
        fs.push(FamilyView { name, series: seq![s] })
    }
}

/// The families after the first `n` lines. Blank lines and comments tell nothing.
pub open spec fn families_of(ls: Seq<Seq<char>>, n: int) -> Seq<FamilyView>
    decreases n,
{
    if n <= 0 {
        Seq::empty()
    } else {
        let before = families_of(ls, n - 1);
        let line = text::trimmed(ls[n - 1]);
        if line.len() == 0 || line[0] == '#' {
            before
        } else {
            match line_of(line) {
                Some((name, s)) => with_series(before, name, s),
                None => before,
            }
        }
    }
}

/// The labels of every counter are well formed.
pub open spec fn families_wf(v: Seq<Family>) -> bool {
    forall|i: int, j: int|
        0 <= i < v.len() && 0 <= j < v[i].series@.len() ==> (#[trigger] v[i].series@[j]).labels.wf()
}

/// The place of a name among the families.
pub fn find_family(fs: &Vec<Family>, name: &str) -> (r: Option<usize>)
    ensures
        match r {
            Some(i) => i < fs@.len() && family_from(family_views(fs@), name@, 0) == i
                && fs@[i as int].name@ == name@,
            None => family_from(family_views(fs@), name@, 0) == fs@.len(),
        },
{
    let ghost v = family_views(fs@);
    let mut i: usize = 0;
    while i < fs.len()
        invariant
            i <= fs@.len(),
            v == family_views(fs@),
            family_from(v, name@, 0) == family_from(v, name@, i as int),
        decreases fs@.len() - i,
    {
        assert(v[i as int].name == fs@[i as int].name@);
        if text::same_str(fs[i].name.as_str(), name) {
            return Some(i);
        }
        i = i + 1;
    }
    None
}

/// The counters that a listing tells.
pub fn parse_prometheus(listing: &str) -> (r: Vec<Family>)
    ensures
        family_views(r@) == families_of(text::lines(listing@), text::lines(listing@).len() as int),
        families_wf(r@),
{
    let cs = text::chars_of(listing);
    let ls = text::lines_of(cs.as_slice());
    let ghost all = text::lines(listing@);
    let mut out: Vec<Family> = Vec::new();
    let mut i: usize = 0;
    assert(family_views(out@) =~= Seq::<FamilyView>::empty());
    while i < ls.len()
        invariant
            i <= ls@.len(),
            all == text::texts(ls@),
            family_views(out@) == families_of(all, i as int),
            families_wf(out@),
        decreases ls@.len() - i,
    {
        assert(all[i as int] == ls@[i as int]@);
        let line = text::trim(ls[i]);
        if line.len() > 0 && line[0] != '#' {
            match parse_line(line) {
                Some((name, s)) => {
                    let ghost before = family_views(out@);
                    let ghost was = out@;
                    match find_family(&out, name.as_str()) {
                        Some(k) => {
                            let mut f = out.remove(k);
                            assert(f@ == before[k as int]);
                            let ghost held = series_views(f.series@);
                            let ghost old_series = f.series@;
                            f.series.push(s);
                            assert(series_views(f.series@) =~= held.push(s@));
                            out.insert(k, f);
                            assert(family_views(out@) =~= with_series(before, name@, s@));
                            assert forall|a: int, b: int|
                                0 <= a < out@.len() && 0 <= b < out@[a].series@.len() implies (
                            #[trigger] out@[a].series@[b]).labels.wf() by {
                                if a == k {
                                    if b < old_series.len() {
                                        assert(was[k as int].series@[b].labels.wf());
                                    }
                                } else {
                                    assert(out@[a] == was[a]);
                                    assert(was[a].series@[b].labels.wf());
                                }
                            }
                        },
                        None => {
                            let mut list: Vec<Series> = Vec::new();
                            list.push(s);
                            assert(series_views(list@) =~= seq![s@]);
                            out.push(Family { name, series: list });
                            assert(family_views(out@) =~= with_series(before, name@, s@));
                            assert forall|a: int, b: int|
                                0 <= a < out@.len() && 0 <= b < out@[a].series@.len() implies (
                            #[trigger] out@[a].series@[b]).labels.wf() by {
                                if a < was.len() {
                                    assert(was[a].series@[b].labels.wf());
                                }
                            }
                        },
                    }
                },
                None => {},
            }
        }
        i = i + 1;
    }
    out
}

/// A label of a counter; the empty text where it has none.
pub open spec fn label_of(s: SeriesView, key: Seq<char>) -> Seq<char> {
    if s.labels.contains_key(key) {
        s.labels[key]
    } else {
        Seq::empty()
    }
}

/// The value of a counter as a whole number; nothing below zero.
pub open spec fn count_of(s: SeriesView) -> u64 {
    match decimal::number_of(s.value) {
        Some(n) => decimal::clamped(n),
        None => 0,
    }
}

/// Bytes sent and received, as a pair that may be missing.
pub open spec fn bytes_at(m: Map<Seq<char>, (u64, u64)>, k: Seq<char>) -> (u64, u64) {
    if m.contains_key(k) {
        m[k]
    } else {
        (0, 0)
    }
}

/// The bytes per connection once the first `n` counters were taken in: as those
/// sent, or as those received.
pub open spec fn taken_in(
    m: Map<Seq<char>, (u64, u64)>,
    ss: Seq<SeriesView>,
    sent: bool,
    n: int,
) -> Map<Seq<char>, (u64, u64)>
    decreases n,
{
    if n <= 0 {
        m
    } else {
        let before = taken_in(m, ss, sent, n - 1);
        let k = label_of(ss[n - 1], "conn_index"@);
        let was = bytes_at(before, k);
        before.insert(
            k,
            if sent {
                (count_of(ss[n - 1]), was.1)
            } else {
                (was.0, count_of(ss[n - 1]))
            },
        )
    }
}

/// The counters of a name.
pub open spec fn series_of(fs: Seq<FamilyView>, name: Seq<char>) -> Seq<SeriesView> {
    let i = family_from(fs, name, 0);
    if i < fs.len() {
        fs[i].series
    } else {
        Seq::empty()
    }
}

/// The bytes that each connection sent and received.
pub open spec fn bytes_of(fs: Seq<FamilyView>) -> Map<Seq<char>, (u64, u64)> {
    let sent = series_of(fs, "quic_client_sent_bytes"@);
    let recv = series_of(fs, "quic_client_receive_bytes"@);
    taken_in(
        taken_in(Map::empty(), sent, true, sent.len() as int),
        recv,
        false,
        recv.len() as int,
    )
}

/// Takes the counters of a name in.
fn take_in(out: &mut Table<(u64, u64)>, fams: &Vec<Family>, name: &str, sent: bool)
    requires
        old(out).wf(),
        families_wf(fams@),
    ensures
        final(out).wf(),
        final(out)@ == {
            let ss = series_of(family_views(fams@), name@);
            taken_in(old(out)@, ss, sent, ss.len() as int)
        },
{
    let ghost first = out@;
    let f = match find_family(fams, name) {
        Some(i) => &fams[i],
        None => return ,
    };
    let ghost ss = series_of(family_views(fams@), name@);
    assert(ss == series_views(f.series@));
    let mut i: usize = 0;
    while i < f.series.len()
        invariant
            i <= f.series@.len(),
            out.wf(),
            families_wf(fams@),
            ss == series_views(f.series@),
            forall|j: int| 0 <= j < f.series@.len() ==> (#[trigger] f.series@[j]).labels.wf(),
            out@ == taken_in(first, ss, sent, i as int),
        decreases f.series@.len() - i,
    {
        let s = &f.series[i];
        assert(ss[i as int] == s@);
        let k = match s.labels.get("conn_index") {
            Some(v) => v.clone(),
            None => String::new(),
        };
        assert(k@ =~= label_of(s@, "conn_index"@));
        let cs = text::chars_of(s.value.as_str());
        let v: u64 = match decimal::parse(cs.as_slice()) {
            Some(n) => decimal::clamp(n),
            None => 0,
        };
        let was = match out.get(k.as_str()) {
            Some(p) => *p,
            None => (0, 0),
        };
        out.insert(
            k,
            if sent {
                (v, was.1)
            } else {
                (was.0, v)
            },
        );
        i = i + 1;
    }
}

/// The bytes that each connection sent and received.
pub fn conn_bytes(fams: &Vec<Family>) -> (r: Table<(u64, u64)>)
    requires
        families_wf(fams@),
    ensures
        r.wf(),
        r@ == bytes_of(family_views(fams@)),
{
    let mut out: Table<(u64, u64)> = Table::new();
    take_in(&mut out, fams, "quic_client_sent_bytes", true);
    take_in(&mut out, fams, "quic_client_receive_bytes", false);
    out
}

/// What a counter grew by. One that fell started anew.
pub open spec fn gain(now: u64, then: u64) -> u64 {
    if now >= then {
        (now - then) as u64
    } else {
        now
    }
}

/// A sum without what does not fit into 64 bits.
pub open spec fn wrapped_sum(a: u64, b: u64) -> u64 {
    ((a + b) % 0x1_0000_0000_0000_0000) as u64
}

/// The totals once the first `n` connections were taken in.
pub open spec fn totals_after(
    totals: (u64, u64),
    prev: Map<Seq<char>, (u64, u64)>,
    cur: Map<Seq<char>, (u64, u64)>,
    keys: Seq<Seq<char>>,
    n: int,
) -> (u64, u64)
    decreases n,
{
    if n <= 0 {
        totals
    } else {
        let before = totals_after(totals, prev, cur, keys, n - 1);
        let k = keys[n - 1];
        (
            wrapped_sum(before.0, gain(cur[k].0, bytes_at(prev, k).0)),
            wrapped_sum(before.1, gain(cur[k].1, bytes_at(prev, k).1)),
        )
    }
}

/// The bytes that a process sent and received over its whole life, also over
/// connections that are gone.
pub struct ByteAccum {
    prev: Table<(u64, u64)>,
    up: u64,
    down: u64,
}

impl ByteAccum {
    /// The bytes of the connections at the last look.
    pub closed spec fn last(&self) -> Map<Seq<char>, (u64, u64)> {
        self.prev@
    }

    /// The bytes sent and received in all.
    pub closed spec fn sums(&self) -> (u64, u64) {
        (self.up, self.down)
    }

    /// The table is well formed.
    pub closed spec fn wf(&self) -> bool {
        self.prev.wf()
    }

    /// Takes the bytes of the connections in, and tells the totals.
    pub fn fold(&mut self, cur: Table<(u64, u64)>) -> (r: (u64, u64))
        requires
            old(self).wf(),
            cur.wf(),
        ensures
            final(self).wf(),
            final(self).last() == cur@,
            final(self).sums() == totals_after(
                old(self).sums(),
                old(self).last(),
                cur@,
                cur.keys(),
                cur.keys().len() as int,
            ),
            r == final(self).sums(),
    {
        let ghost before = self.sums();
        let mut i: usize = 0;
        while i < cur.len()
            invariant
                i <= cur.keys().len(),
                cur.wf(),
                self.wf(),
                self.last() == old(self).last(),
                self.sums() == totals_after(before, self.last(), cur@, cur.keys(), i as int),
            decreases cur.keys().len() - i,
        {
            let (k, v) = cur.entry(i);
            let (sent, recv) = *v;
            let (psent, precv) = match self.prev.get(k.as_str()) {
                Some(p) => *p,
                None => (0, 0),
            };
            let up: u64 = if sent >= psent {
                sent - psent
            } else {
                sent
            };
            let down: u64 = if recv >= precv {
                recv - precv
            } else {
                recv
            };
            self.up = self.up.wrapping_add(up);
            self.down = self.down.wrapping_add(down);
            i = i + 1;
        }
        self.prev = cur;
        (self.up, self.down)
    }

    /// The bytes sent and received in all.
    pub fn totals(&self) -> (r: (u64, u64))
        ensures
            r == self.sums(),
    {
        (self.up, self.down)
    }
}

impl Default for ByteAccum {
    fn default() -> (r: Self)
        ensures
            r.wf(),
            r.sums() == (0u64, 0u64),
            r.last() == Map::<Seq<char>, (u64, u64)>::empty(),
    {
        ByteAccum { prev: Table::new(), up: 0, down: 0 }
    }
}

/// A counter that grows is counted once, however often it is looked at, and one
/// that starts anew is counted from zero.
pub proof fn law_each_byte_once(a: u64, b: u64, c: u64)
    ensures
        a <= b <= c ==> gain(b, a) + gain(c, b) == gain(c, a),
        gain(a, a) == 0,
        b < a ==> gain(b, a) == b,
{
}

/// What the first `n` connections sent and received since the last look.
pub open spec fn gains(
    prev: Map<Seq<char>, (u64, u64)>,
    cur: Map<Seq<char>, (u64, u64)>,
    keys: Seq<Seq<char>>,
    n: int,
) -> (int, int)
    decreases n,
{
    if n <= 0 {
        (0, 0)
    } else {
        let before = gains(prev, cur, keys, n - 1);
        let k = keys[n - 1];
        (
            before.0 + gain(cur[k].0, bytes_at(prev, k).0),
            before.1 + gain(cur[k].1, bytes_at(prev, k).1),
        )
    }
}

/// A look adds to the totals what every connection sent and received since the last one,
/// so that the totals never fall, as long as they fit into 64 bits; what does not fit is
/// left out.
#[verifier::rlimit(40)]
pub proof fn law_totals_add_up(
    totals: (u64, u64),
    prev: Map<Seq<char>, (u64, u64)>,
    cur: Map<Seq<char>, (u64, u64)>,
    keys: Seq<Seq<char>>,
    n: int,
)
    requires
        0 <= n <= keys.len(),
    ensures
        ({
            let after = totals_after(totals, prev, cur, keys, n);
            let more = gains(prev, cur, keys, n);
            &&& more.0 >= 0 && more.1 >= 0
            &&& after.0 == (totals.0 + more.0) % 0x1_0000_0000_0000_0000
            &&& after.1 == (totals.1 + more.1) % 0x1_0000_0000_0000_0000
            &&& totals.0 + more.0 <= u64::MAX ==> after.0 == totals.0 + more.0 && after.0 >= totals.0
            &&& totals.1 + more.1 <= u64::MAX ==> after.1 == totals.1 + more.1 && after.1 >= totals.1
        }),
    decreases n,
{
    if n > 0 {
        law_totals_add_up(totals, prev, cur, keys, n - 1);
        let more = gains(prev, cur, keys, n - 1);
        let k = keys[n - 1];
        lemma_sum_wraps(totals.0 + more.0, gain(cur[k].0, bytes_at(prev, k).0) as int);
        lemma_sum_wraps(totals.1 + more.1, gain(cur[k].1, bytes_at(prev, k).1) as int);
    }
    let more = gains(prev, cur, keys, n);
    lemma_sum_wraps(totals.0 + more.0, 0);
    lemma_sum_wraps(totals.1 + more.1, 0);
}

/// A sum that wraps at each step wraps as the whole does.
proof fn lemma_sum_wraps(a: int, b: int)
    requires
        0 <= a,
        0 <= b,
    ensures
        (a % 0x1_0000_0000_0000_0000 + b) % 0x1_0000_0000_0000_0000 == (a + b)
            % 0x1_0000_0000_0000_0000,
        a < 0x1_0000_0000_0000_0000 ==> a % 0x1_0000_0000_0000_0000 == a,
        0 <= a % 0x1_0000_0000_0000_0000 < 0x1_0000_0000_0000_0000,
{
    vstd::arithmetic::div_mod::lemma_add_mod_noop_right(b, a, 0x1_0000_0000_0000_0000);
    if a < 0x1_0000_0000_0000_0000 {
        vstd::arithmetic::div_mod::lemma_small_mod(a as nat, 0x1_0000_0000_0000_0000nat);
    }
}

/// The status and the body of an answer.
pub open spec fn answer(s: Seq<char>) -> Option<(u16, Seq<char>)> {
    match text::cut_str(s, "\r\n\r\n"@) {
        Some((head, body)) => {
            let ls = text::lines(head);
            if ls.len() == 0 {
                None
            } else {
                let w = text::words(ls[0]);
                if w.len() < 2 {
                    None
                } else {
                    match text::number(w[1], 10, 65535) {
                        Some(n) => Some((n as u16, body)),
                        None => None,
                    }
                }
            }
        },
        None => None,
    }
}

/// The status and the body of an answer.
pub fn split_answer(s: &str) -> (r: Option<(u16, String)>)
    ensures
        match r {
            Some((status, body)) => answer(s@) == Some((status, body@)),
            None => answer(s@) is None,
        },
{
    let cs = text::chars_of(s);
    match text::split_once_str(cs.as_slice(), "\r\n\r\n") {
        Some((head, body)) => {
            assert(text::cut_str(s@, "\r\n\r\n"@) == Some((head@, body@)));
            let ls = text::lines_of(head);
            assert(text::lines(head@) == text::texts(ls@));
            if ls.len() == 0 {
                return None;
            }
            assert(text::lines(head@)[0] == ls@[0]@);
            let w = text::words_of(ls[0]);
            assert(text::words(ls@[0]@) == text::texts(w@));
            if w.len() < 2 {
                return None;
            }
            assert(text::words(ls@[0]@)[1] == w@[1]@);
            match text::parse_number(w[1], 10, 65535) {
                Some(n) => Some((n as u16, text::str_of(body))),
                None => None,
            }
        },
        None => None,
    }
}

/// A request for a page of counters.
pub fn metrics_request(path: &str, host: &str) -> (r: String)
    ensures
        r@ == "GET "@ + path@ + " HTTP/1.0\r\nHost: "@ + host@ + "\r\nConnection: close\r\n\r\n"@,
{
    let mut out = "GET ".to_owned();
    out.append(path);
    out.append(" HTTP/1.0\r\nHost: ");
    out.append(host);
    out.append("\r\nConnection: close\r\n\r\n");
    out
}

/// What a body writes in JSON, without the spaces around it.
pub open spec fn body_value(body: Seq<char>) -> Option<Shape> {
    json::json_value(text::trimmed(body))
}

/// What a body writes in JSON.
fn read_body(body: &str) -> (r: Option<Json>)
    ensures
        json::opt_view(r) == body_value(body@),
{
    let cs = text::chars_of(body);
    json::parse(text::str_of(text::trim(cs.as_slice())).as_str())
}

/// How many connections of a process are ready.
pub fn ready_in(v: &Json) -> (r: Option<u64>)
    ensures
        r == json::whole_at(v@, "readyConnections"@),
{
    v.u64_at("readyConnections")
}

/// How many connections of a process are ready.
pub fn ready_connections(body: &str) -> (r: Option<u64>)
    ensures
        r == match body_value(body@) {
            Some(v) => json::whole_at(v, "readyConnections"@),
            None => None,
        },
{
    match read_body(body) {
        Some(v) => ready_in(&v),
        None => None,
    }
}

/// A connection of a process, as it tells itself.
pub struct DiagConn {
    pub index: u64,
    pub edge_address: String,
    pub protocol: u64,
    pub is_connected: bool,
}

/// A process, as it tells itself.
pub struct DiagTunnel {
    pub tunnel_id: String,
    pub connector_id: String,
    pub connections: Vec<DiagConn>,
}

/// A connection, as values.
#[verifier::ext_equal]
pub struct DiagConnView {
    pub index: u64,
    pub edge_address: Seq<char>,
    pub protocol: u64,
    pub is_connected: bool,
}

/// A process, as values.
#[verifier::ext_equal]
pub struct DiagView {
    pub tunnel_id: Seq<char>,
    pub connector_id: Seq<char>,
    pub connections: Seq<DiagConnView>,
}

impl View for DiagConn {
    type V = DiagConnView;

    open spec fn view(&self) -> DiagConnView {
        DiagConnView {
            index: self.index,
            edge_address: self.edge_address@,
            protocol: self.protocol,
            is_connected: self.is_connected,
        }
    }
}

impl View for DiagTunnel {
    type V = DiagView;

    open spec fn view(&self) -> DiagView {
        DiagView {
            tunnel_id: self.tunnel_id@,
            connector_id: self.connector_id@,
            connections: Seq::new(self.connections@.len(), |i: int| self.connections@[i]@),
        }
    }
}

/// A text in a field; the empty one where there is none.
pub open spec fn text_at(v: Shape, k: Seq<char>) -> Seq<char> {
    match json::words_at(v, k) {
        Some(s) => s,
        None => Seq::empty(),
    }
}

/// A whole number in a field; zero where there is none.
pub open spec fn count_at(v: Shape, k: Seq<char>) -> u64 {
    match json::whole_at(v, k) {
        Some(n) => n,
        None => 0,
    }
}

/// The connection that an item describes.
pub open spec fn diag_conn_of(c: Shape) -> DiagConnView {
    DiagConnView {
        index: count_at(c, "index"@),
        edge_address: text_at(c, "edgeAddress"@),
        protocol: count_at(c, "protocol"@),
        is_connected: json::truth_at(c, "isConnected"@) == Some(true),
    }
}

/// What a process tells of itself.
pub open spec fn diag_of(v: Shape) -> DiagView {
    DiagView {
        tunnel_id: text_at(v, "tunnelID"@),
        connector_id: text_at(v, "connectorID"@),
        connections: match json::items_at(v, "connections"@) {
            Some(a) => Seq::new(a.len(), |i: int| diag_conn_of(a[i])),
            None => Seq::empty(),
        },
    }
}

/// A text in a field.
fn get_text(v: &Json, k: &str) -> (r: String)
    ensures
        r@ == text_at(v@, k@),
{
    match v.str_at(k) {
        Some(s) => s.to_owned(),
        None => String::new(),
    }
}

/// A whole number in a field.
fn get_count(v: &Json, k: &str) -> (r: u64)
    ensures
        r == count_at(v@, k@),
{
    match v.u64_at(k) {
        Some(n) => n,
        None => 0,
    }
}

/// What a process tells of itself.
pub fn diag_in(v: &Json) -> (r: DiagTunnel)
    ensures
        r@ == diag_of(v@),
{
    let mut connections: Vec<DiagConn> = Vec::new();
    match v.list_at("connections") {
        Some(a) => {
            let ghost all = json::shapes(a@);
            proof {
                json::lemma_shapes(a@);
            }
            let mut i: usize = 0;
            while i < a.len()
                invariant
                    i <= a@.len(),
                    all.len() == a@.len(),
                    forall|j: int| 0 <= j < a@.len() ==> #[trigger] all[j] == json::shape(a@[j]),
                    connections@.len() == i,
                    forall|j: int|
                        0 <= j < i ==> (#[trigger] connections@[j])@ == diag_conn_of(all[j]),
                decreases a@.len() - i,
            {
                let c = &a[i];
                assert(all[i as int] == c@);
                connections.push(
                    DiagConn {
                        index: get_count(c, "index"),
                        edge_address: get_text(c, "edgeAddress"),
                        protocol: get_count(c, "protocol"),
                        is_connected: match c.bool_at("isConnected") {
                            Some(b) => b,
                            None => false,
                        },
                    },
                );
                i = i + 1;
            }
        },
        None => {},
    }
    let r = DiagTunnel {
        tunnel_id: get_text(v, "tunnelID"),
        connector_id: get_text(v, "connectorID"),
        connections,
    };
    assert(r@.connections =~= diag_of(v@).connections);
    r
}

/// What a process tells of itself; `None` where its answer cannot be read.
pub fn diag_tunnel(body: &str) -> (r: Option<DiagTunnel>)
    ensures
        match (r, body_value(body@)) {
            (Some(d), Some(v)) => d@ == diag_of(v),
            (None, None) => true,
            _ => false,
        },
{
    match read_body(body) {
        Some(v) => Some(diag_in(&v)),
        None => None,
    }
}

impl DiagConn {
    /// The name of the protocol of the connection.
    pub fn protocol_name(&self) -> (r: &'static str)
        ensures
            r@ == if self.protocol == 1 {
                "quic"@
            } else {
                "http2"@
            },
    {
        if self.protocol == 1 {
            "quic"
        } else {
            "http2"
        }
    }
}

/// The protocol of the first connection that is up, from a place on.
pub open spec fn protocol_from(cs: Seq<DiagConnView>, i: int) -> Option<Protocol>
    decreases cs.len() - i,
{
    if i < 0 || i >= cs.len() {
        None
    } else if cs[i].is_connected {
        Some(
            if cs[i].protocol == 1 {
                Protocol::Quic
            } else {
                Protocol::Http2
            },
        )
    } else {
        protocol_from(cs, i + 1)
    }
}

/// The protocol that a process uses: that of the first connection that is up.
pub fn protocol_of(d: &DiagTunnel) -> (r: Option<Protocol>)
    ensures
        r == protocol_from(d@.connections, 0),
{
    let ghost cs = d@.connections;
    let mut i: usize = 0;
    while i < d.connections.len()
        invariant
            i <= d.connections@.len(),
            cs == d@.connections,
            protocol_from(cs, 0) == protocol_from(cs, i as int),
        decreases d.connections@.len() - i,
    {
        let c = &d.connections[i];
        assert(cs[i as int] == c@);
        if c.is_connected {
            return if c.protocol == 1 {
                Some(Protocol::Quic)
            } else {
                Some(Protocol::Http2)
            };
        }
        i = i + 1;
    }
    None
}

/// A line gives a name, what stands in its braces, and its value; without braces there are
/// no labels.
pub proof fn law_lines_are_taken_apart(name: Seq<char>, labels: Seq<char>, n: int)
    requires
        name.len() > 0,
        forall|i: int| 0 <= i < name.len() ==> !text::is_space(#[trigger] name[i]),
        forall|i: int| 0 <= i < name.len() ==> #[trigger] name[i] != '{',
        forall|i: int| 0 <= i < labels.len() ==> #[trigger] labels[i] != '}',
        0 <= n < 0x20_0000_0000_0000,
    ensures
        line_of(name + (seq!['{'] + (labels + (seq!['}', ' '] + text::decimal(n))))) == Some(
            (name, SeriesView { labels: labels_of(labels), value: text::decimal(n) }),
        ),
        line_of(name + (seq![' '] + text::decimal(n))) == Some(
            (name, SeriesView { labels: labels_of(seq![]), value: text::decimal(n) }),
        ),
        forall|s: SeriesView| s.value == text::decimal(n) ==> #[trigger] count_of(s) == n,
{
    let d = text::decimal(n);
    let e = Seq::<char>::empty();
    decimal::law_whole_numbers_are_read(n);
    text::law_number_round_trip(n, n);
    text::lemma_written(n, 10);
    text::law_trimming(e, name, e);
    text::lemma_first_word(d, e);
    assert(d + e =~= d);
    text::lemma_space_first(' ', d);
    assert(text::words(d)[0] == d);
    let tail = labels + (seq!['}', ' '] + d);
    let a = name + (seq!['{'] + tail);
    text::lemma_cut_first(name, tail, '{');
    assert(a =~= name + seq!['{'] + tail);
    assert(tail =~= labels + seq!['}'] + (seq![' '] + d));
    text::lemma_cut_first(labels, seq![' '] + d, '}');
    let b = name + (seq![' '] + d);
    assert forall|i: int| 0 <= i < b.len() implies #[trigger] b[i] != '{' by {
        if i > name.len() {
            assert(b[i] == d[i - name.len() - 1]);
            assert(text::is_digit(d[i - name.len() - 1], 10));
        }
    }
    text::lemma_no_cut(b, '{');
    assert forall|i: int| 0 <= i < name.len() implies text::non_spaces()(#[trigger] b[i]) by {
        assert(b[i] == name[i]);
    }
    text::lemma_lead(b, text::non_spaces(), name.len() as int);
    assert(b.take(name.len() as int) =~= name);
    assert(b.skip(name.len() as int + 1) =~= d);
}

/// A label is what stands before the sign, and its value is what stands in the quotes
/// behind it.
pub proof fn law_labels_are_read(k: Seq<char>, v: Seq<u8>, m: Map<Seq<char>, Seq<char>>)
    requires
        k.len() > 0,
        !text::is_space(k[0]) && !text::is_space(k.last()) && k[0] != ',',
        forall|i: int| 0 <= i < bytes::utf8(k).len() ==> #[trigger] bytes::utf8(k)[i] != 61,
        forall|i: int| 0 <= i < v.len() ==> #[trigger] v[i] != 34 && v[i] != 92,
    ensures
        labels_from(bytes::utf8(k) + (seq![61u8, 34] + (v + seq![34u8])), 0, m) == m.insert(
            k,
            Seq::new(v.len(), |i: int| v[i] as char),
        ),
{
    let kb = bytes::utf8(k);
    let b = kb + (seq![61u8, 34] + (v + seq![34u8]));
    vstd::utf8::encode_utf8_valid_utf8(k);
    vstd::utf8::encode_utf8_decode_utf8(k);
    assert forall|i: int| 0 <= i < kb.len() implies #[trigger] b[i] != 61 by {
        assert(b[i] == kb[i]);
    }
    lemma_byte_at(b, 61, 0, kb.len() as int);
    assert(b.subrange(0, kb.len() as int) =~= kb);
    let e = Seq::<char>::empty();
    text::lemma_lead(k, text::only(','), 0);
    assert(k.skip(0) =~= k);
    text::law_trimming(e, k, e);
    let start = kb.len() as int + 2;
    assert forall|i: int| 0 <= i < v.len() implies #[trigger] b[start + i] == v[i] by {}
    lemma_plain_quoted(b, start, v);
    let end = start + v.len();
    assert(b.len() == end + 1);
    assert(labels_from(b, end + 1, m.insert(k, Seq::new(v.len(), |i: int| v[i] as char)))
        == m.insert(k, Seq::new(v.len(), |i: int| v[i] as char)));
}

/// The first place of a byte.
proof fn lemma_byte_at(b: Seq<u8>, x: u8, i: int, k: int)
    requires
        0 <= i <= k < b.len(),
        b[k] == x,
        forall|j: int| i <= j < k ==> #[trigger] b[j] != x,
    ensures
        byte_from(b, x, i) == k,
    decreases k - i,
{
    if i < k {
        lemma_byte_at(b, x, i + 1, k);
    }
}

/// Bytes without quotes or strokes are read as they stand.
proof fn lemma_plain_quoted(b: Seq<u8>, k: int, v: Seq<u8>)
    requires
        0 <= k,
        k + v.len() < b.len(),
        b[k + v.len()] == 34,
        forall|i: int| 0 <= i < v.len() ==> #[trigger] b[k + i] == v[i],
        forall|i: int| 0 <= i < v.len() ==> #[trigger] v[i] != 34 && v[i] != 92,
    ensures
        quoted(b, k) == (Seq::new(v.len(), |i: int| v[i] as char), k + v.len()),
    decreases v.len(),
{
    let all = Seq::new(v.len(), |i: int| v[i] as char);
    if v.len() > 0 {
        let w = v.skip(1);
        assert(b[k + 0] == v[0]);
        assert forall|i: int| 0 <= i < w.len() implies #[trigger] b[k + 1 + i] == w[i] by {
            assert(b[k + (i + 1)] == v[i + 1]);
        }
        lemma_plain_quoted(b, k + 1, w);
        assert(seq![v[0] as char] + Seq::new(w.len(), |i: int| w[i] as char) =~= all);
    } else {
        assert(all =~= Seq::<char>::empty());
    }
}

/// In quotes a stroke makes the byte behind it plain, and before an n it stands for the end
/// of a line.
pub proof fn law_quotes_and_strokes(rest: Seq<u8>, x: u8)
    ensures
        ({
            let (t, end) = quoted(seq![92u8, x] + rest, 0);
            let (u, _) = quoted(seq![92u8, x] + rest, 2);
            &&& t.len() > 0
            &&& t[0] == if x == 110 {
                '\n'
            } else {
                x as char
            }
            &&& t.skip(1) == u
        }),
        quoted(seq![34u8] + rest, 0) == (Seq::<char>::empty(), 0int),
{
    let b = seq![92u8, x] + rest;
    let (u, _) = quoted(b, 2);
    let c = if x == 110 {
        '\n'
    } else {
        x as char
    };
    assert((seq![c] + u).skip(1) =~= u);
}

/// A line adds its series behind those of the same name and changes no other family; a line
/// that is empty or a remark adds nothing.
pub proof fn law_series_are_gathered_by_name(ls: Seq<Seq<char>>, line: Seq<char>, other: Seq<char>)
    ensures
        ({
            let n = ls.len() as int;
            let before = families_of(ls, n);
            let all = families_of(ls.push(line), n + 1);
            let t = text::trimmed(line);
            &&& t.len() == 0 || t[0] == '#' || line_of(t) is None ==> all == before
            &&& t.len() > 0 && t[0] != '#' && line_of(t) is Some ==> {
                let (name, s) = line_of(t)->0;
                &&& series_of(all, name) == series_of(before, name).push(s)
                &&& other != name ==> series_of(all, other) == series_of(before, other)
            }
        }),
{
    let n = ls.len() as int;
    lemma_families_before(ls, line, n);
    let t = text::trimmed(line);
    let before = families_of(ls, n);
    if t.len() > 0 && t[0] != '#' && line_of(t) is Some {
        let (name, s) = line_of(t)->0;
        let all = with_series(before, name, s);
        lemma_family_bounds(before, name, 0);
        lemma_family_bounds(before, other, 0);
        let i = family_from(before, name, 0);
        let j = family_from(before, other, 0);
        if i < before.len() {
            lemma_family_at(all, name, 0, i);
            if other != name {
                if j < before.len() {
                    lemma_family_at(all, other, 0, j);
                } else {
                    lemma_family_none(all, other, 0);
                }
            }
        } else {
            assert(all[i] == (FamilyView { name, series: seq![s] }));
            lemma_family_at(all, name, 0, i);
            assert(Seq::<SeriesView>::empty().push(s) =~= seq![s]);
            if other != name {
                if j < before.len() {
                    lemma_family_at(all, other, 0, j);
                } else {
                    lemma_family_none(all, other, 0);
                }
            }
        }
    }
}

/// The first families do not depend on the lines behind them.
proof fn lemma_families_before(ls: Seq<Seq<char>>, line: Seq<char>, n: int)
    requires
        0 <= n <= ls.len(),
    ensures
        families_of(ls.push(line), n) == families_of(ls, n),
    decreases n,
{
    if n > 0 {
        lemma_families_before(ls, line, n - 1);
        assert(ls.push(line)[n - 1] == ls[n - 1]);
    }
}

/// The place of a family.
proof fn lemma_family_bounds(fs: Seq<FamilyView>, name: Seq<char>, i: int)
    requires
        0 <= i <= fs.len(),
    ensures
        i <= family_from(fs, name, i) <= fs.len(),
        family_from(fs, name, i) < fs.len() ==> fs[family_from(fs, name, i)].name == name,
        forall|j: int| i <= j < family_from(fs, name, i) ==> (#[trigger] fs[j]).name != name,
    decreases fs.len() - i,
{
    if i < fs.len() && fs[i].name != name {
        lemma_family_bounds(fs, name, i + 1);
    }
}

/// The first family of a name is the one that is found.
proof fn lemma_family_at(fs: Seq<FamilyView>, name: Seq<char>, i: int, k: int)
    requires
        0 <= i <= k < fs.len(),
        fs[k].name == name,
        forall|j: int| i <= j < k ==> (#[trigger] fs[j]).name != name,
    ensures
        family_from(fs, name, i) == k,
    decreases k - i,
{
    if i < k {
        lemma_family_at(fs, name, i + 1, k);
    }
}

/// A name that no family has is not found.
proof fn lemma_family_none(fs: Seq<FamilyView>, name: Seq<char>, i: int)
    requires
        0 <= i <= fs.len(),
        forall|j: int| i <= j < fs.len() ==> (#[trigger] fs[j]).name != name,
    ensures
        family_from(fs, name, i) == fs.len(),
    decreases fs.len() - i,
{
    if i < fs.len() {
        lemma_family_none(fs, name, i + 1);
    }
}

/// What a connection sent and what it received are counted each in its own place, and one
/// count leaves the other alone, as it does those of other connections.
pub proof fn law_sent_and_received(
    m: Map<Seq<char>, (u64, u64)>,
    s: SeriesView,
    other: Seq<char>,
)
    requires
        s.labels.contains_key("conn_index"@),
    ensures
        ({
            let k = s.labels["conn_index"@];
            let up = taken_in(m, seq![s], true, 1);
            let down = taken_in(m, seq![s], false, 1);
            &&& up.contains_key(k) && down.contains_key(k)
            &&& up[k].0 == count_of(s)
            &&& down[k].1 == count_of(s)
            &&& m.contains_key(k) ==> up[k].1 == m[k].1 && down[k].0 == m[k].0
            &&& !m.contains_key(k) ==> up[k].1 == 0 && down[k].0 == 0
            &&& other != k ==> (up.contains_key(other) <==> m.contains_key(other))
            &&& other != k && m.contains_key(other) ==> up[other] == m[other] && down[other]
                == m[other]
        }),
{
    reveal_with_fuel(taken_in, 2);
    assert(seq![s][0] == s);
}

/// The counts come from the two families for them, what was sent first.
pub proof fn law_bytes_come_from_their_families(fs: Seq<FamilyView>, s: SeriesView, r: SeriesView)
    requires
        series_of(fs, "quic_client_sent_bytes"@) == seq![s],
        series_of(fs, "quic_client_receive_bytes"@) == seq![r],
        s.labels.contains_key("conn_index"@),
        r.labels.contains_key("conn_index"@),
        s.labels["conn_index"@] == r.labels["conn_index"@],
    ensures
        bytes_of(fs).contains_key(s.labels["conn_index"@]),
        bytes_of(fs)[s.labels["conn_index"@]] == (count_of(s), count_of(r)),
{
    reveal_with_fuel(taken_in, 2);
    assert(seq![s][0] == s && seq![r][0] == r);
}

/// A counter that went on adds the difference, and one that started anew adds all of it, each
/// way by itself.
pub proof fn law_what_a_counter_adds(
    up: u64,
    down: u64,
    prev: Map<Seq<char>, (u64, u64)>,
    cur: Map<Seq<char>, (u64, u64)>,
    k: Seq<char>,
)
    requires
        prev.contains_key(k),
        cur.contains_key(k),
        up + cur[k].0 <= u64::MAX,
        down + cur[k].1 <= u64::MAX,
    ensures
        ({
            let (all_up, all_down) = totals_after((up, down), prev, cur, seq![k], 1);
            &&& cur[k].0 >= prev[k].0 ==> all_up == up + cur[k].0 - prev[k].0
            &&& cur[k].0 < prev[k].0 ==> all_up == up + cur[k].0
            &&& cur[k].1 >= prev[k].1 ==> all_down == down + cur[k].1 - prev[k].1
            &&& cur[k].1 < prev[k].1 ==> all_down == down + cur[k].1
        }),
{
    reveal_with_fuel(totals_after, 2);
    assert(seq![k][0] == k);
}

/// An answer is taken apart into the number on its first line and what stands behind the
/// empty line.
pub proof fn law_answers_are_taken_apart(status: u16, body: Seq<char>)
    ensures
        answer("HTTP/1.0 "@ + text::decimal(status as int) + "\r\n\r\n"@ + body) == Some(
            (status, body),
        ),
{
    let d = text::decimal(status as int);
    let head = "HTTP/1.0 "@ + d;
    let e = Seq::<char>::empty();
    let gap = "\r\n\r\n"@;
    reveal_strlit("HTTP/1.0 ");
    reveal_strlit("HTTP/1.0");
    reveal_strlit("\r\n\r\n");
    text::law_number_round_trip(status as int, 65535);
    text::lemma_written(status as int, 10);
    assert forall|i: int| 0 <= i < head.len() implies #[trigger] head[i] != '\r' && head[i] != '\n' by {
        if i >= 9 {
            assert(head[i] == d[i - 9]);
            assert(text::is_digit(d[i - 9], 10));
        }
    }
    text::lemma_cut_str(head, gap, body);
    text::law_lines(head, e);
    let w = "HTTP/1.0"@;
    assert(head =~= w + (seq![' '] + d));
    text::lemma_first_word(w, seq![' '] + d);
    text::lemma_space_first(' ', d);
    text::lemma_first_word(d, e);
    assert(d + e =~= d);
    assert(text::words(head)[1] == d);
}

/// A tunnel is told with each of its values under a name of its own.
pub proof fn law_how_a_tunnel_is_told(v: Shape, c: Shape, words: Seq<char>, n: u64, a: Seq<Shape>)
    ensures
        ({
            let number = Some(Shape::Number(text::decimal(n as int), Some(n)));
            let said = Some(Shape::Text(words));
            &&& json::field(v, "tunnelID"@) == said ==> diag_of(v).tunnel_id == words
            &&& json::field(v, "connectorID"@) == said ==> diag_of(v).connector_id == words
            &&& json::field(v, "connections"@) == Some(Shape::List(a)) ==> {
                &&& diag_of(v).connections.len() == a.len()
                &&& forall|i: int|
                    0 <= i < a.len() ==> #[trigger] diag_of(v).connections[i] == diag_conn_of(a[i])
            }
            &&& json::field(v, "connections"@) is None ==> diag_of(v).connections.len() == 0
            &&& json::field(c, "index"@) == number ==> diag_conn_of(c).index == n
            &&& json::field(c, "edgeAddress"@) == said ==> diag_conn_of(c).edge_address == words
            &&& json::field(c, "protocol"@) == number ==> diag_conn_of(c).protocol == n
            &&& diag_conn_of(c).is_connected <==> json::field(c, "isConnected"@) == Some(
                Shape::Bool(true),
            )
        }),
{
}

/// The transport of a tunnel is that of its first connection that is up.
pub proof fn law_transport_of_a_tunnel(cs: Seq<DiagConnView>, k: int)
    ensures
        0 <= k < cs.len() && cs[k].is_connected && (forall|j: int|
            0 <= j < k ==> !(#[trigger] cs[j]).is_connected) ==> protocol_from(cs, 0) == Some(
            if cs[k].protocol == 1 {
                Protocol::Quic
            } else {
                Protocol::Http2
            },
        ),
        (forall|j: int| 0 <= j < cs.len() ==> !(#[trigger] cs[j]).is_connected) ==> protocol_from(
            cs,
            0,
        ) is None,
{
    if 0 <= k < cs.len() && (forall|j: int| 0 <= j < k ==> !(#[trigger] cs[j]).is_connected) {
        lemma_protocol_from(cs, 0, k);
    }
    if forall|j: int| 0 <= j < cs.len() ==> !(#[trigger] cs[j]).is_connected {
        lemma_protocol_from(cs, 0, cs.len() as int);
    }
}

/// Connections that are down are passed over.
proof fn lemma_protocol_from(cs: Seq<DiagConnView>, i: int, k: int)
    requires
        0 <= i <= k <= cs.len(),
        forall|j: int| 0 <= j < k ==> !(#[trigger] cs[j]).is_connected,
    ensures
        protocol_from(cs, i) == protocol_from(cs, k),
    decreases k - i,
{
    if i < k {
        assert(!cs[i].is_connected);
        lemma_protocol_from(cs, i + 1, k);
    }
}

} // verus!
