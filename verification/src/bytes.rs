//! Bytes: numbers and texts as they travel.

use crate::text;
use vstd::prelude::*;

verus! {

/// The bytes of a text in UTF-8.
pub open spec fn utf8(s: Seq<char>) -> Seq<u8> {
    vstd::utf8::encode_utf8(s)
}

/// `str::from_utf8` of std: the text that bytes write in UTF-8, where they are
/// valid.
#[verifier::external_body]
pub(crate) fn text_of(b: &[u8]) -> (r: Option<String>)
    ensures
        match r {
            Some(s) => vstd::utf8::valid_utf8(b@) && s@ == vstd::utf8::decode_utf8(b@),
            None => !vstd::utf8::valid_utf8(b@),
        },
{
    match std::str::from_utf8(b) {
        Ok(s) => Some(s.to_string()),
        Err(_) => None,
    }
}

/// The last `len` bytes of a number, most significant byte first.
pub open spec fn be(n: int, len: nat) -> Seq<u8>
    decreases len,
{
    if len == 0 {
        seq![]
    } else {
        be(n / 256, (len - 1) as nat).push((n % 256) as u8)
    }
}

/// The number that bytes write, most significant byte first.
pub open spec fn be_value(b: Seq<u8>) -> int
    decreases b.len(),
{
    if b.len() == 0 {
        0
    } else {
        be_value(b.drop_last()) * 256 + b.last()
    }
}

/// A number has as many bytes as are asked for.
pub proof fn lemma_be_len(n: int, len: nat)
    ensures
        be(n, len).len() == len,
    decreases len,
{
    if len > 0 {
        lemma_be_len(n / 256, (len - 1) as nat);
    }
}

/// Appends bytes.
pub fn push_bytes(out: &mut Vec<u8>, b: &[u8])
    ensures
        final(out)@ == old(out)@ + b@,
{
    let ghost start = out@;
    let mut i: usize = 0;
    while i < b.len()
        invariant
            i <= b@.len(),
            out@ == start + b@.take(i as int),
        decreases b@.len() - i,
    {
        out.push(b[i]);
        i = i + 1;
        assert(out@ =~= start + b@.take(i as int));
    }
    assert(b@.take(i as int) =~= b@);
}

/// Appends a text in UTF-8.
pub fn push_text(out: &mut Vec<u8>, s: &str)
    ensures
        final(out)@ == old(out)@ + utf8(s@),
{
    push_bytes(out, s.as_bytes());
}

/// Appends the last `len` bytes of a number, most significant byte first.
pub fn push_be(out: &mut Vec<u8>, n: u64, len: usize)
    ensures
        final(out)@ == old(out)@ + be(n as int, len as nat),
    decreases len,
{
    let ghost start = out@;
    if len > 0 {
        push_be(out, n / 256, len - 1);
        out.push((n % 256) as u8);
    }
    assert(out@ =~= start + be(n as int, len as nat));
}

/// A number that fits is read back from its bytes.
pub proof fn law_be_round_trip(n: int, len: nat)
    requires
        0 <= n < vstd::arithmetic::power::pow(256, len),
    ensures
        be_value(be(n, len)) == n,
        be(n, len).len() == len,
    decreases len,
{
    reveal(vstd::arithmetic::power::pow);
    if len > 0 {
        let k = (len - 1) as nat;
        let p = vstd::arithmetic::power::pow(256, k);
        assert(vstd::arithmetic::power::pow(256, len) == 256 * p);
        assert(0 <= n / 256 < p) by (nonlinear_arith)
            requires
                0 <= n < 256 * p,
        ;
        law_be_round_trip(n / 256, k);
        assert(be(n, len).drop_last() =~= be(n / 256, k));
    }
}

/// Where a carriage return and a line feed first stand from a place on, or the
/// length of the bytes.
pub open spec fn line_end(b: Seq<u8>, i: int) -> int
    decreases b.len() - i,
{
    if i + 1 >= b.len() {
        b.len() as int
    } else if b[i] == 13 && b[i + 1] == 10 {
        i
    } else {
        line_end(b, i + 1)
    }
}

/// The size that a line before a chunk names: the hexadecimal number before a
/// semicolon, or zero where there is none.
pub open spec fn chunk_size(line: Seq<u8>) -> int {
    let s = if vstd::utf8::valid_utf8(line) {
        vstd::utf8::decode_utf8(line)
    } else {
        Seq::<char>::empty()
    };
    let size = match text::cut(s, ';') {
        Some((size, _)) => size,
        None => s,
    };
    match text::number(text::trimmed(size), 16, usize::MAX as int) {
        Some(n) => n,
        None => 0,
    }
}

/// The contents of the chunks from a place on. They end at a chunk of size zero,
/// at one that is not all there, and where no line ends.
pub open spec fn dechunked(b: Seq<u8>, i: int) -> Seq<u8>
    decreases b.len() - i,
{
    let nl = line_end(b, i);
    if i < 0 || i >= b.len() || nl >= b.len() || nl < i {
        Seq::empty()
    } else {
        let size = chunk_size(b.subrange(i, nl));
        if size <= 0 || nl + 2 + size > b.len() {
            Seq::empty()
        } else {
            let next = nl + 2 + size + 2;
            b.subrange(nl + 2, nl + 2 + size) + if next < b.len() {
                dechunked(b, next)
            } else {
                Seq::<u8>::empty()
            }
        }
    }
}

/// A line ends at or after the place where the search starts.
proof fn lemma_line_end(b: Seq<u8>, i: int)
    requires
        0 <= i <= b.len(),
    ensures
        i <= line_end(b, i) <= b.len(),
        line_end(b, i) < b.len() ==> line_end(b, i) + 2 <= b.len(),
    decreases b.len() - i,
{
    if i + 1 < b.len() {
        lemma_line_end(b, i + 1);
    }
}

/// Where a carriage return and a line feed first stand from a place on.
fn find_line_end(b: &[u8], from: usize) -> (r: Option<usize>)
    requires
        from <= b@.len(),
    ensures
        match r {
            Some(i) => i == line_end(b@, from as int) && from <= i && i + 2 <= b@.len(),
            None => line_end(b@, from as int) >= b@.len(),
        },
{
    let n: usize = b.len();
    let mut i: usize = from;
    proof {
        lemma_line_end(b@, from as int);
    }
    while i < n && n - i >= 2
        invariant
            from <= i <= n,
            n == b@.len(),
            line_end(b@, from as int) == line_end(b@, i as int),
        decreases n - i,
    {
        if b[i] == 13 && b[i + 1] == 10 {
            return Some(i);
        }
        i = i + 1;
    }
    None
}

/// The size that a line before a chunk names.
fn size_of_chunk(line: &[u8]) -> (r: usize)
    ensures
        r == chunk_size(line@),
{
    let s = match text_of(line) {
        Some(s) => s,
        None => String::new(),
    };
    let cs = text::chars_of(s.as_str());
    let size = match text::split_once(cs.as_slice(), ';') {
        Some((size, _)) => size,
        None => cs.as_slice(),
    };
    match text::parse_number(text::trim(size), 16, usize::MAX as u64) {
        Some(n) => n as usize,
        None => 0,
    }
}

/// The contents of a body that was sent in chunks.
pub fn dechunk(data: &[u8]) -> (r: Vec<u8>)
    ensures
        r@ == dechunked(data@, 0),
{
    let mut out: Vec<u8> = Vec::new();
    let n: usize = data.len();
    let mut i: usize = 0;
    assert(out@ + dechunked(data@, 0) =~= dechunked(data@, 0));
    while i < n
        invariant_except_break
            i <= n,
            n == data@.len(),
            out@ + dechunked(data@, i as int) == dechunked(data@, 0),
        ensures
            out@ == dechunked(data@, 0),
        decreases n - i,
    {
        let ghost rest = dechunked(data@, i as int);
        let nl: usize = match find_line_end(data, i) {
            Some(nl) => nl,
            None => {
                assert(rest =~= Seq::<u8>::empty());
                assert(out@ + rest =~= out@);
                break ;
            },
        };
        let size = size_of_chunk(vstd::slice::slice_subrange(data, i, nl));
        let start: usize = nl + 2;
        if size == 0 || size > n - start {
            assert(rest =~= Seq::<u8>::empty());
            assert(out@ + rest =~= out@);
            break ;
        }
        let end: usize = start + size;
        let ghost before = out@;
        push_bytes(&mut out, vstd::slice::slice_subrange(data, start, end));
        let ghost tail = if end + 2 < n {
            dechunked(data@, end + 2)
        } else {
            Seq::<u8>::empty()
        };
        assert(rest == data@.subrange(start as int, end as int) + tail);
        assert(out@ + tail =~= before + rest);
        if n - end < 2 {
            assert(tail =~= Seq::<u8>::empty());
            assert(out@ + tail =~= out@);
            break ;
        }
        i = end + 2;
        if i == n {
            assert(dechunked(data@, i as int) =~= Seq::<u8>::empty());
            assert(out@ + tail =~= out@);
        }
    }
    out
}

/// A chunk as it is sent: its length in hexadecimal on a line, and its bytes with the end
/// of a line behind them.
pub open spec fn chunk(c: Seq<u8>) -> Seq<u8> {
    utf8(text::written(c.len() as int, 16)) + seq![13u8, 10] + c + seq![13u8, 10]
}

/// Chunks as they are sent, with the one of size zero at the end.
pub open spec fn chunked(cs: Seq<Seq<u8>>) -> Seq<u8>
    decreases cs.len(),
{
    if cs.len() == 0 {
        seq![48u8, 13, 10, 13, 10]
    } else {
        chunk(cs[0]) + chunked(cs.skip(1))
    }
}

/// The contents of chunks, one after the other.
pub open spec fn joined(cs: Seq<Seq<u8>>) -> Seq<u8>
    decreases cs.len(),
{
    if cs.len() == 0 {
        Seq::empty()
    } else {
        cs[0] + joined(cs.skip(1))
    }
}

/// A line ends at the first carriage return that a line feed follows.
proof fn lemma_line_ends(b: Seq<u8>, i: int, m: int)
    requires
        0 <= i <= m,
        m + 1 < b.len(),
        b[m] == 13,
        b[m + 1] == 10,
        forall|j: int| i <= j < m ==> #[trigger] b[j] != 13,
    ensures
        line_end(b, i) == m,
    decreases m - i,
{
    if i < m {
        assert(b[i] != 13);
        lemma_line_ends(b, i + 1, m);
    }
}

/// The line before a chunk names its size.
proof fn lemma_size_line(n: int)
    requires
        0 <= n <= usize::MAX,
    ensures
        chunk_size(utf8(text::written(n, 16))) == n,
        forall|i: int| 0 <= i < utf8(text::written(n, 16)).len() ==> #[trigger] utf8(
            text::written(n, 16),
        )[i] != 13,
{
    let w = text::written(n, 16);
    text::lemma_written(n, 16);
    assert forall|i: int| 0 <= i < w.len() implies text::is_digit(#[trigger] w[i], 16) && w[i] != ';'
        && !text::is_space(w[i]) && (w[i] as u32) < 128 && w[i] as u32 != 13 && w[i] != '+' by {
        assert(text::is_digit(w[i], 16));
    }
    assert(vstd::utf8::is_ascii_chars(w));
    vstd::utf8::is_ascii_chars_encode_utf8(w);
    vstd::utf8::encode_utf8_valid_utf8(w);
    vstd::utf8::encode_utf8_decode_utf8(w);
    text::lemma_first(w, ';', w.len() as int);
    text::lemma_lead(w, text::spaces(), 0);
    text::lemma_trail(w, text::spaces(), 0);
    assert(text::trimmed(w) =~= w);
}

/// Decoding from a place on gives the chunks back that stand from there on.
proof fn lemma_chunks(b: Seq<u8>, i: int, cs: Seq<Seq<u8>>)
    requires
        0 <= i <= b.len(),
        b.skip(i) == chunked(cs),
        forall|k: int| 0 <= k < cs.len() ==> 0 < (#[trigger] cs[k]).len() <= usize::MAX,
    ensures
        dechunked(b, i) == joined(cs),
    decreases cs.len(),
{
    let rest = b.skip(i);
    assert forall|j: int| i <= j < b.len() implies b[j] == #[trigger] rest[j - i] by {}
    if cs.len() == 0 {
        assert(rest.len() == 5);
        assert(b[i] == rest[0] && b[i + 1] == rest[1] && b[i + 2] == rest[2]);
        lemma_line_ends(b, i, i + 1);
        lemma_size_line(0);
        let w = text::written(0, 16);
        assert(vstd::utf8::is_ascii_chars(w));
        vstd::utf8::is_ascii_chars_encode_utf8(w);
        assert(b.subrange(i, i + 1) =~= utf8(w));
    } else {
        let c = cs[0];
        let n = c.len() as int;
        let line = utf8(text::written(n, 16));
        let tail = chunked(cs.skip(1));
        let m = i + line.len();
        let next = m + 2 + n + 2;
        lemma_size_line(n);
        assert(rest == line + seq![13u8, 10] + c + seq![13u8, 10] + tail);
        assert(rest.len() == line.len() + 2 + n + 2 + tail.len());
        assert forall|j: int| i <= j < m implies #[trigger] b[j] != 13 by {
            assert(b[j] == rest[j - i]);
            assert(rest[j - i] == line[j - i]);
        }
        assert(b[m] == rest[m - i] && b[m + 1] == rest[m + 1 - i]);
        lemma_line_ends(b, i, m);
        assert(b.subrange(i, m) =~= line);
        let l = line.len() as int;
        assert forall|j: int| 0 <= j < n implies b.subrange(m + 2, m + 2 + n)[j] == c[j] by {
            assert(b[m + 2 + j] == rest[l + 2 + j]);
        }
        assert(b.subrange(m + 2, m + 2 + n) =~= c);
        assert forall|j: int| 0 <= j < tail.len() implies b.skip(next)[j] == tail[j] by {
            assert(b[next + j] == rest[l + 4 + n + j]);
        }
        assert(b.skip(next) =~= tail);
        assert(tail.len() > 0);
        assert forall|k: int| 0 <= k < cs.skip(1).len() implies 0 < (#[trigger] cs.skip(1)[k]).len()
            <= usize::MAX by {
            assert(cs.skip(1)[k] == cs[k + 1]);
        }
        lemma_chunks(b, next, cs.skip(1));
    }
}

/// Decoding gives back what was cut into chunks, whatever bytes the chunks hold.
pub proof fn law_chunks_round_trip(cs: Seq<Seq<u8>>)
    requires
        forall|k: int| 0 <= k < cs.len() ==> 0 < (#[trigger] cs[k]).len() <= usize::MAX,
    ensures
        dechunked(chunked(cs), 0) == joined(cs),
{
    assert(chunked(cs).skip(0) =~= chunked(cs));
    lemma_chunks(chunked(cs), 0, cs);
}

} // verus!
