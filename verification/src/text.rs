//! Operations on text, stated over sequences of characters.
//!
//! A `&str` is turned into its characters once, the operations then work on
//! slices of them, and what is kept is turned back into a `String`.

use vstd::prelude::*;
use vstd::slice::slice_subrange;

verus! {

// ---------------------------------------------------------------------------
// Strings and characters
// ---------------------------------------------------------------------------

/// `String::push` appends one character to the end of the string.
pub assume_specification[ String::push ](s: &mut String, ch: char)
    ensures
        final(s)@ == old(s)@.push(ch),
;

/// The characters of a string.
pub fn chars_of(s: &str) -> (r: Vec<char>)
    ensures
        r@ == s@,
{
    let mut out: Vec<char> = Vec::new();
    for c in it: s.chars()
        invariant
            out@ == s@.take(it.index() as int),
            it.seq() == s@,
    {
        out.push(c);
        assert(out@ == s@.take(it.index() + 1));
    }
    assert(out@ == s@);
    out
}

/// A copy of characters.
pub fn copy_chars(cs: &[char]) -> (r: Vec<char>)
    ensures
        r@ == cs@,
{
    let mut out: Vec<char> = Vec::new();
    let mut i: usize = 0;
    while i < cs.len()
        invariant
            i <= cs@.len(),
            out@ == cs@.take(i as int),
        decreases cs@.len() - i,
    {
        out.push(cs[i]);
        i = i + 1;
        assert(out@ =~= cs@.take(i as int));
    }
    assert(out@ =~= cs@);
    out
}

/// Appends characters to a string.
pub fn push_chars(out: &mut String, cs: &[char])
    ensures
        final(out)@ == old(out)@ + cs@,
{
    let mut i: usize = 0;
    let ghost start = out@;
    while i < cs.len()
        invariant
            i <= cs@.len(),
            out@ == start + cs@.take(i as int),
        decreases cs@.len() - i,
    {
        out.push(cs[i]);
        i = i + 1;
        assert(out@ == start + cs@.take(i as int));
    }
    assert(cs@.take(i as int) == cs@);
}

/// The string that holds the given characters.
pub fn str_of(cs: &[char]) -> (r: String)
    ensures
        r@ == cs@,
{
    let mut out = String::new();
    push_chars(&mut out, cs);
    assert(out@ == cs@);
    out
}

/// What `Debug` of std writes for a string: the string in double quotes, with
/// quotes, backslashes and characters that do not print escaped.
pub uninterp spec fn debug_text(s: Seq<char>) -> Seq<char>;

/// `Debug::fmt` of std for `str`, through `format!`. What it writes is a function
/// of the string alone.
#[verifier::external_body]
pub(crate) fn debug_of(s: &str) -> (r: String)
    ensures
        r@ == debug_text(s@),
{
    format!("{:?}", s)
}

/// The texts that a vector of slices holds.
pub open spec fn texts(v: Seq<&[char]>) -> Seq<Seq<char>> {
    Seq::new(v.len(), |i: int| v[i]@)
}

/// The texts that a vector of strings holds.
pub open spec fn strings(v: Seq<String>) -> Seq<Seq<char>> {
    Seq::new(v.len(), |i: int| v[i]@)
}

/// Whether the characters are those of a string.
pub fn same(cs: &[char], lit: &str) -> (r: bool)
    ensures
        r == (cs@ == lit@),
{
    let other = chars_of(lit);
    same_chars(cs, &other)
}

/// Whether two slices hold the same characters.
pub fn same_chars(a: &[char], b: &[char]) -> (r: bool)
    ensures
        r == (a@ == b@),
{
    if a.len() != b.len() {
        return false;
    }
    let mut i: usize = 0;
    while i < a.len()
        invariant
            i <= a@.len(),
            a@.len() == b@.len(),
            a@.take(i as int) == b@.take(i as int),
        decreases a@.len() - i,
    {
        if a[i] != b[i] {
            assert(a@[i as int] != b@[i as int]);
            return false;
        }
        i = i + 1;
        assert(a@.take(i as int) == a@.take(i - 1).push(a@[i - 1]));
        assert(b@.take(i as int) == b@.take(i - 1).push(b@[i - 1]));
    }
    assert(a@.take(i as int) == a@);
    assert(b@.take(i as int) == b@);
    true
}

/// Whether two strings hold the same characters.
pub fn same_str(a: &str, b: &str) -> (r: bool)
    ensures
        r == (a@ == b@),
{
    let cs = chars_of(a);
    same(&cs, b)
}

// ---------------------------------------------------------------------------
// Runs at the ends of a text
// ---------------------------------------------------------------------------

/// White space, as Unicode defines the property.
pub open spec fn is_space(c: char) -> bool {
    ||| ('\u{9}' <= c && c <= '\u{d}')
    ||| c == ' '
    ||| c == '\u{85}'
    ||| c == '\u{a0}'
    ||| c == '\u{1680}'
    ||| ('\u{2000}' <= c && c <= '\u{200a}')
    ||| c == '\u{2028}'
    ||| c == '\u{2029}'
    ||| c == '\u{202f}'
    ||| c == '\u{205f}'
    ||| c == '\u{3000}'
}

/// Whether a character is white space.
pub fn space(c: char) -> (r: bool)
    ensures
        r == is_space(c),
{
    ('\u{9}' <= c && c <= '\u{d}') || c == ' ' || c == '\u{85}' || c == '\u{a0}' || c == '\u{1680}'
        || ('\u{2000}' <= c && c <= '\u{200a}') || c == '\u{2028}' || c == '\u{2029}'
        || c == '\u{202f}' || c == '\u{205f}' || c == '\u{3000}'
}

/// The class of white space characters.
pub open spec fn spaces() -> spec_fn(char) -> bool {
    |c: char| is_space(c)
}

/// The class of all characters that are not white space.
pub open spec fn non_spaces() -> spec_fn(char) -> bool {
    |c: char| !is_space(c)
}

/// The class that holds one character.
pub open spec fn only(c: char) -> spec_fn(char) -> bool {
    |x: char| x == c
}

/// How many characters at the start of a text belong to a class.
pub open spec fn lead(s: Seq<char>, f: spec_fn(char) -> bool) -> int
    decreases s.len(),
{
    if s.len() == 0 || !f(s[0]) {
        0
    } else {
        1 + lead(s.drop_first(), f)
    }
}

/// How many characters at the end of a text belong to a class.
pub open spec fn trail(s: Seq<char>, f: spec_fn(char) -> bool) -> int
    decreases s.len(),
{
    if s.len() == 0 || !f(s.last()) {
        0
    } else {
        1 + trail(s.drop_last(), f)
    }
}

/// A text without the characters of a class at its start.
pub open spec fn trim_start_of(s: Seq<char>, f: spec_fn(char) -> bool) -> Seq<char> {
    s.skip(lead(s, f))
}

/// A text without the characters of a class at its end.
pub open spec fn trim_end_of(s: Seq<char>, f: spec_fn(char) -> bool) -> Seq<char> {
    s.take(s.len() - trail(s, f))
}

/// A text without the characters of a class at either end.
pub open spec fn trim_of(s: Seq<char>, f: spec_fn(char) -> bool) -> Seq<char> {
    trim_end_of(trim_start_of(s, f), f)
}

/// A text without white space at either end.
pub open spec fn trimmed(s: Seq<char>) -> Seq<char> {
    trim_of(s, spaces())
}

/// A run at the start is fixed by where it ends.
pub proof fn lemma_lead(s: Seq<char>, f: spec_fn(char) -> bool, i: int)
    requires
        0 <= i <= s.len(),
        forall|j: int| 0 <= j < i ==> f(#[trigger] s[j]),
        i < s.len() ==> !f(s[i]),
    ensures
        lead(s, f) == i,
    decreases s.len(),
{
    if i > 0 {
        let t = s.drop_first();
        assert forall|j: int| 0 <= j < i - 1 implies f(#[trigger] t[j]) by {
            assert(t[j] == s[j + 1]);
        }
        lemma_lead(t, f, i - 1);
    }
}

/// A run at the end is fixed by where it starts.
pub proof fn lemma_trail(s: Seq<char>, f: spec_fn(char) -> bool, i: int)
    requires
        0 <= i <= s.len(),
        forall|j: int| s.len() - i <= j < s.len() ==> f(#[trigger] s[j]),
        i < s.len() ==> !f(s[s.len() - i - 1]),
    ensures
        trail(s, f) == i,
    decreases s.len(),
{
    if i > 0 {
        let t = s.drop_last();
        assert forall|j: int| t.len() - (i - 1) <= j < t.len() implies f(#[trigger] t[j]) by {
            assert(t[j] == s[j]);
        }
        lemma_trail(t, f, i - 1);
    }
}

/// The length of a run at the start lies within the text, the run is all of the
/// class, and what follows it is not.
pub proof fn lemma_lead_bounds(s: Seq<char>, f: spec_fn(char) -> bool)
    ensures
        0 <= lead(s, f) <= s.len(),
        forall|j: int| 0 <= j < lead(s, f) ==> f(#[trigger] s[j]),
        lead(s, f) < s.len() ==> !f(s[lead(s, f)]),
    decreases s.len(),
{
    if s.len() > 0 && f(s[0]) {
        let t = s.drop_first();
        lemma_lead_bounds(t, f);
        assert forall|j: int| 0 <= j < lead(s, f) implies f(#[trigger] s[j]) by {
            if j > 0 {
                assert(t[j - 1] == s[j]);
            }
        }
        if lead(s, f) < s.len() {
            assert(t[lead(t, f)] == s[lead(s, f)]);
        }
    }
}

/// The length of a run at the end lies within the text, the run is all of the
/// class, and what stands before it is not.
pub proof fn lemma_trail_bounds(s: Seq<char>, f: spec_fn(char) -> bool)
    ensures
        0 <= trail(s, f) <= s.len(),
        forall|j: int| s.len() - trail(s, f) <= j < s.len() ==> f(#[trigger] s[j]),
        trail(s, f) < s.len() ==> !f(s[s.len() - trail(s, f) - 1]),
    decreases s.len(),
{
    if s.len() > 0 && f(s.last()) {
        let t = s.drop_last();
        lemma_trail_bounds(t, f);
        assert forall|j: int| s.len() - trail(s, f) <= j < s.len() implies f(#[trigger] s[j]) by {
            if j < s.len() - 1 {
                assert(t[j] == s[j]);
            }
        }
    }
}

/// Removes white space at the start.
pub fn trim_start(cs: &[char]) -> (r: &[char])
    ensures
        r@ == trim_start_of(cs@, spaces()),
{
    let mut i: usize = 0;
    while i < cs.len() && space(cs[i])
        invariant
            i <= cs@.len(),
            forall|j: int| 0 <= j < i ==> spaces()(#[trigger] cs@[j]),
        decreases cs@.len() - i,
    {
        i = i + 1;
    }
    proof {
        lemma_lead(cs@, spaces(), i as int);
    }
    slice_subrange(cs, i, cs.len())
}

/// Removes white space at the end.
pub fn trim_end(cs: &[char]) -> (r: &[char])
    ensures
        r@ == trim_end_of(cs@, spaces()),
{
    let mut n: usize = cs.len();
    while n > 0 && space(cs[n - 1])
        invariant
            n <= cs@.len(),
            forall|j: int| n <= j < cs@.len() ==> spaces()(#[trigger] cs@[j]),
        decreases n,
    {
        n = n - 1;
    }
    proof {
        lemma_trail(cs@, spaces(), cs@.len() - n);
    }
    slice_subrange(cs, 0, n)
}

/// Removes white space at both ends.
pub fn trim(cs: &[char]) -> (r: &[char])
    ensures
        r@ == trimmed(cs@),
{
    trim_end(trim_start(cs))
}

/// Removes every occurrence of one character at the start.
pub fn trim_start_char(cs: &[char], c: char) -> (r: &[char])
    ensures
        r@ == trim_start_of(cs@, only(c)),
{
    let mut i: usize = 0;
    while i < cs.len() && cs[i] == c
        invariant
            i <= cs@.len(),
            forall|j: int| 0 <= j < i ==> only(c)(#[trigger] cs@[j]),
        decreases cs@.len() - i,
    {
        i = i + 1;
    }
    proof {
        lemma_lead(cs@, only(c), i as int);
    }
    slice_subrange(cs, i, cs.len())
}

/// Removes every occurrence of one character at the end.
pub fn trim_end_char(cs: &[char], c: char) -> (r: &[char])
    ensures
        r@ == trim_end_of(cs@, only(c)),
{
    let mut n: usize = cs.len();
    while n > 0 && cs[n - 1] == c
        invariant
            n <= cs@.len(),
            forall|j: int| n <= j < cs@.len() ==> only(c)(#[trigger] cs@[j]),
        decreases n,
    {
        n = n - 1;
    }
    proof {
        lemma_trail(cs@, only(c), cs@.len() - n);
    }
    slice_subrange(cs, 0, n)
}

/// Removes every occurrence of one character at both ends.
pub fn trim_char(cs: &[char], c: char) -> (r: &[char])
    ensures
        r@ == trim_of(cs@, only(c)),
{
    trim_end_char(trim_start_char(cs, c), c)
}

// ---------------------------------------------------------------------------
// Searching and cutting
// ---------------------------------------------------------------------------

/// Where a value first occurs, or the length where it does not.
pub open spec fn first<T>(s: Seq<T>, x: T) -> int
    decreases s.len(),
{
    if s.len() == 0 || s[0] == x {
        0
    } else {
        1 + first(s.drop_first(), x)
    }
}

/// Where a value last occurs, or -1 where it does not.
pub open spec fn last<T>(s: Seq<T>, x: T) -> int
    decreases s.len(),
{
    if s.len() == 0 {
        -1
    } else if s.last() == x {
        s.len() - 1
    } else {
        last(s.drop_last(), x)
    }
}

/// The first occurrence is fixed by what stands before it.
pub proof fn lemma_first<T>(s: Seq<T>, x: T, i: int)
    requires
        0 <= i <= s.len(),
        forall|j: int| 0 <= j < i ==> #[trigger] s[j] != x,
        i < s.len() ==> s[i] == x,
    ensures
        first(s, x) == i,
    decreases s.len(),
{
    if i > 0 {
        let t = s.drop_first();
        assert forall|j: int| 0 <= j < i - 1 implies #[trigger] t[j] != x by {
            assert(t[j] == s[j + 1]);
        }
        lemma_first(t, x, i - 1);
    }
}

/// The first occurrence lies within the text, and the value does not stand before it.
pub proof fn lemma_first_bounds<T>(s: Seq<T>, x: T)
    ensures
        0 <= first(s, x) <= s.len(),
        forall|j: int| 0 <= j < first(s, x) ==> #[trigger] s[j] != x,
        first(s, x) < s.len() ==> s[first(s, x)] == x,
    decreases s.len(),
{
    if s.len() > 0 && s[0] != x {
        let t = s.drop_first();
        lemma_first_bounds(t, x);
        assert forall|j: int| 0 <= j < first(s, x) implies #[trigger] s[j] != x by {
            if j > 0 {
                assert(t[j - 1] == s[j]);
            }
        }
        if first(s, x) < s.len() {
            assert(t[first(t, x)] == s[first(s, x)]);
        }
    }
}

/// The last occurrence is fixed by what follows it.
pub proof fn lemma_last<T>(s: Seq<T>, x: T, i: int)
    requires
        -1 <= i < s.len(),
        forall|j: int| i < j < s.len() ==> #[trigger] s[j] != x,
        i >= 0 ==> s[i] == x,
    ensures
        last(s, x) == i,
    decreases s.len(),
{
    if s.len() > 0 && i < s.len() - 1 {
        let t = s.drop_last();
        assert forall|j: int| i < j < t.len() implies #[trigger] t[j] != x by {
            assert(t[j] == s[j]);
        }
        lemma_last(t, x, i);
    }
}

/// The index of the first occurrence of a character.
pub fn find(cs: &[char], c: char) -> (r: Option<usize>)
    ensures
        match r {
            Some(i) => i < cs@.len() && i == first(cs@, c),
            None => first(cs@, c) == cs@.len(),
        },
{
    let mut i: usize = 0;
    while i < cs.len()
        invariant
            i <= cs@.len(),
            forall|j: int| 0 <= j < i ==> #[trigger] cs@[j] != c,
        decreases cs@.len() - i,
    {
        if cs[i] == c {
            proof {
                lemma_first(cs@, c, i as int);
            }
            return Some(i);
        }
        i = i + 1;
    }
    proof {
        lemma_first(cs@, c, cs@.len() as int);
    }
    None
}

/// The index of the last occurrence of a character.
pub fn rfind(cs: &[char], c: char) -> (r: Option<usize>)
    ensures
        match r {
            Some(i) => i < cs@.len() && i == last(cs@, c),
            None => last(cs@, c) == -1,
        },
{
    let mut n: usize = cs.len();
    while n > 0
        invariant
            n <= cs@.len(),
            forall|j: int| n <= j < cs@.len() ==> #[trigger] cs@[j] != c,
        decreases n,
    {
        if cs[n - 1] == c {
            proof {
                lemma_last(cs@, c, n - 1);
            }
            return Some(n - 1);
        }
        n = n - 1;
    }
    proof {
        lemma_last(cs@, c, -1);
    }
    None
}

/// The parts of a text before and after the first occurrence of a character.
pub open spec fn cut(s: Seq<char>, c: char) -> Option<(Seq<char>, Seq<char>)> {
    let i = first(s, c);
    if i < s.len() {
        Some((s.take(i), s.skip(i + 1)))
    } else {
        None
    }
}

/// The parts of a text before and after the last occurrence of a character.
pub open spec fn rcut(s: Seq<char>, c: char) -> Option<(Seq<char>, Seq<char>)> {
    let i = last(s, c);
    if i >= 0 {
        Some((s.take(i), s.skip(i + 1)))
    } else {
        None
    }
}

/// The views of an optional pair of slices.
pub open spec fn pair(p: Option<(&[char], &[char])>) -> Option<(Seq<char>, Seq<char>)> {
    match p {
        Some((a, b)) => Some((a@, b@)),
        None => None,
    }
}

/// Cuts a text at the first occurrence of a character.
pub fn split_once(cs: &[char], c: char) -> (r: Option<(&[char], &[char])>)
    ensures
        pair(r) == cut(cs@, c),
{
    let n: usize = cs.len();
    match find(cs, c) {
        Some(i) => Some((slice_subrange(cs, 0, i), slice_subrange(cs, i + 1, n))),
        None => None,
    }
}

/// Cuts a text at the last occurrence of a character.
pub fn rsplit_once(cs: &[char], c: char) -> (r: Option<(&[char], &[char])>)
    ensures
        pair(r) == rcut(cs@, c),
{
    let n: usize = cs.len();
    match rfind(cs, c) {
        Some(i) => Some((slice_subrange(cs, 0, i), slice_subrange(cs, i + 1, n))),
        None => None,
    }
}

/// Whether a text starts with another.
pub open spec fn starts(s: Seq<char>, p: Seq<char>) -> bool {
    p.len() <= s.len() && s.take(p.len() as int) == p
}

/// Whether a text ends with another.
pub open spec fn ends(s: Seq<char>, p: Seq<char>) -> bool {
    p.len() <= s.len() && s.skip(s.len() - p.len()) == p
}

/// What follows a prefix.
pub open spec fn after(s: Seq<char>, p: Seq<char>) -> Option<Seq<char>> {
    if starts(s, p) {
        Some(s.skip(p.len() as int))
    } else {
        None
    }
}

/// The view of an optional slice.
pub open spec fn opt(p: Option<&[char]>) -> Option<Seq<char>> {
    match p {
        Some(a) => Some(a@),
        None => None,
    }
}

/// The view of an optional string.
pub open spec fn opt_string(p: Option<String>) -> Option<Seq<char>> {
    match p {
        Some(a) => Some(a@),
        None => None,
    }
}

/// The view of an optional string slice.
pub open spec fn opt_str(p: Option<&str>) -> Option<Seq<char>> {
    match p {
        Some(a) => Some(a@),
        None => None,
    }
}

/// Whether a text starts with a string.
pub fn starts_with(cs: &[char], p: &str) -> (r: bool)
    ensures
        r == starts(cs@, p@),
{
    let pre = chars_of(p);
    if pre.len() > cs.len() {
        return false;
    }
    same_chars(slice_subrange(cs, 0, pre.len()), &pre)
}

/// Whether a text ends with a string.
pub fn ends_with(cs: &[char], p: &str) -> (r: bool)
    ensures
        r == ends(cs@, p@),
{
    let suf = chars_of(p);
    if suf.len() > cs.len() {
        return false;
    }
    same_chars(slice_subrange(cs, cs.len() - suf.len(), cs.len()), &suf)
}

/// What follows a prefix, where the text starts with it.
pub fn strip_prefix<'a>(cs: &'a [char], p: &str) -> (r: Option<&'a [char]>)
    ensures
        opt(r) == after(cs@, p@),
{
    let pre = chars_of(p);
    if pre.len() > cs.len() {
        return None;
    }
    if same_chars(slice_subrange(cs, 0, pre.len()), &pre) {
        Some(slice_subrange(cs, pre.len(), cs.len()))
    } else {
        None
    }
}

/// Whether a text holds another somewhere.
pub open spec fn holds(s: Seq<char>, p: Seq<char>) -> bool {
    exists|i: int| 0 <= i <= s.len() && starts(#[trigger] s.skip(i), p)
}

/// Whether a text holds a string somewhere.
pub fn contains(cs: &[char], p: &str) -> (r: bool)
    ensures
        r == holds(cs@, p@),
{
    let n: usize = cs.len();
    let mut i: usize = 0;
    while i < n
        invariant
            n == cs@.len(),
            i <= n,
            forall|j: int| 0 <= j < i ==> !starts(#[trigger] cs@.skip(j), p@),
        decreases n - i,
    {
        if starts_with(slice_subrange(cs, i, n), p) {
            assert(starts(cs@.skip(i as int), p@));
            return true;
        }
        assert(!starts(cs@.skip(i as int), p@));
        i = i + 1;
    }
    let r = starts_with(slice_subrange(cs, n, n), p);
    assert(r == starts(cs@.skip(n as int), p@));
    r
}

/// The first place from `i` on at which a text holds another, or a place behind
/// its end.
pub open spec fn sub_from(s: Seq<char>, p: Seq<char>, i: int) -> int
    decreases s.len() + 1 - i,
{
    if i < 0 || i > s.len() {
        (s.len() + 1) as int
    } else if starts(s.skip(i), p) {
        i
    } else {
        sub_from(s, p, i + 1)
    }
}

/// What stands before and behind the first place at which a text holds another.
pub open spec fn cut_str(s: Seq<char>, p: Seq<char>) -> Option<(Seq<char>, Seq<char>)> {
    let i = sub_from(s, p, 0);
    if i <= s.len() {
        Some((s.take(i), s.skip(i + p.len())))
    } else {
        None
    }
}

/// The first place lies where the text holds the other, and none lies before it.
pub proof fn lemma_sub_from(s: Seq<char>, p: Seq<char>, i: int, k: int)
    requires
        0 <= i <= k <= s.len(),
        starts(s.skip(k), p),
        forall|j: int| i <= j < k ==> !starts(#[trigger] s.skip(j), p),
    ensures
        sub_from(s, p, i) == k,
    decreases k - i,
{
    if i < k {
        assert(!starts(s.skip(i), p));
        lemma_sub_from(s, p, i + 1, k);
    }
}

/// What stands before and behind the first place at which a text holds a string.
pub fn split_once_str<'a>(cs: &'a [char], p: &str) -> (r: Option<(&'a [char], &'a [char])>)
    ensures
        pair(r) == cut_str(cs@, p@),
{
    let n: usize = cs.len();
    let pat = chars_of(p);
    let mut i: usize = 0;
    let mut more = true;
    while more
        invariant
            n == cs@.len(),
            pat@ == p@,
            i <= n,
            more ==> sub_from(cs@, p@, 0) == sub_from(cs@, p@, i as int),
            !more ==> sub_from(cs@, p@, 0) > n,
        decreases n - i, if more { 1int } else { 0int },
    {
        let rest = slice_subrange(cs, i, n);
        assert(rest@ =~= cs@.skip(i as int));
        if starts_with(rest, p) {
            let m: usize = pat.len();
            return Some((slice_subrange(cs, 0, i), slice_subrange(cs, i + m, n)));
        }
        if i == n {
            assert(sub_from(cs@, p@, n + 1) == n + 1);
            more = false;
        } else {
            i = i + 1;
        }
    }
    None
}

/// Whether a text holds a character.
pub fn contains_char(cs: &[char], c: char) -> (r: bool)
    ensures
        r == cs@.contains(c),
{
    match find(cs, c) {
        Some(i) => {
            proof {
                lemma_first_bounds(cs@, c);
                assert(cs@[i as int] == c);
            }
            true
        },
        None => {
            proof {
                lemma_first_bounds(cs@, c);
            }
            false
        },
    }
}

// ---------------------------------------------------------------------------
// Pieces
// ---------------------------------------------------------------------------

/// The pieces of a text between occurrences of a character.
pub open spec fn split(s: Seq<char>, c: char) -> Seq<Seq<char>>
    decreases s.len(),
{
    proof {
        lemma_first_bounds(s, c);
    }
    let i = first(s, c);
    if i < s.len() {
        seq![s.take(i)] + split(s.skip(i + 1), c)
    } else {
        seq![s]
    }
}

/// Cuts a text into the pieces between occurrences of a character.
pub fn split_char(cs: &[char], c: char) -> (r: Vec<&[char]>)
    ensures
        texts(r@) == split(cs@, c),
{
    let mut out: Vec<&[char]> = Vec::new();
    let mut rest: &[char] = cs;
    loop
        invariant
            texts(out@) + split(rest@, c) == split(cs@, c),
        decreases rest@.len(),
    {
        let ghost before = texts(out@);
        match split_once(rest, c) {
            Some((a, b)) => {
                proof {
                    lemma_first_bounds(rest@, c);
                    assert(split(rest@, c) == seq![a@] + split(b@, c));
                }
                out.push(a);
                assert(texts(out@) == before.push(a@));
                assert(before + (seq![a@] + split(b@, c)) == before.push(a@) + split(b@, c));
                rest = b;
            },
            None => {
                assert(split(rest@, c) == seq![rest@]);
                out.push(rest);
                assert(texts(out@) == before + seq![rest@]);
                return out;
            },
        }
    }
}

/// A line without the carriage return at its end.
pub open spec fn without_cr(s: Seq<char>) -> Seq<char> {
    if s.len() > 0 && s.last() == '\r' {
        s.drop_last()
    } else {
        s
    }
}

/// The lines of a text: each ends at a line feed, a carriage return before the
/// line feed belongs to the line ending, and text after the last line feed is a
/// line of its own.
pub open spec fn lines(s: Seq<char>) -> Seq<Seq<char>>
    decreases s.len(),
{
    proof {
        lemma_first_bounds(s, '\n');
    }
    let i = first(s, '\n');
    if s.len() == 0 {
        seq![]
    } else if i < s.len() {
        seq![without_cr(s.take(i))] + lines(s.skip(i + 1))
    } else {
        seq![s]
    }
}

/// A line that is put behind a text is the last one of the whole.
pub proof fn lemma_line_behind(s: Seq<char>, l: Seq<char>)
    requires
        s.len() > 0,
        s.last() != '\n',
        s.last() != '\r',
        l.len() > 0,
        forall|i: int| 0 <= i < l.len() ==> #[trigger] l[i] != '\n',
    ensures
        lines(s + seq!['\n'] + l) == lines(s).push(l),
    decreases s.len(),
{
    let t = s + seq!['\n'] + l;
    let i = first(s, '\n');
    lemma_first_bounds(s, '\n');
    lemma_first_bounds(l, '\n');
    assert(lines(l) =~= seq![l]);
    if i < s.len() {
        assert(s[i] == '\n');
        assert(i < s.len() - 1);
        assert(t[i] == '\n');
        lemma_first(t, '\n', i);
        assert(t.take(i) =~= s.take(i));
        assert(t.skip(i + 1) =~= s.skip(i + 1) + seq!['\n'] + l);
        lemma_line_behind(s.skip(i + 1), l);
        assert(lines(t) =~= lines(s).push(l));
    } else {
        assert(t[s.len() as int] == '\n');
        lemma_first(t, '\n', s.len() as int);
        assert(t.take(s.len() as int) =~= s);
        assert(t.skip(s.len() as int + 1) =~= l);
        assert(lines(t) =~= lines(s).push(l));
    }
}

/// Cuts a text into its lines.
pub fn lines_of(cs: &[char]) -> (r: Vec<&[char]>)
    ensures
        texts(r@) == lines(cs@),
{
    let mut out: Vec<&[char]> = Vec::new();
    let mut rest: &[char] = cs;
    while rest.len() > 0
        invariant
            texts(out@) + lines(rest@) == lines(cs@),
        decreases rest@.len(),
    {
        let ghost before = texts(out@);
        match split_once(rest, '\n') {
            Some((a, b)) => {
                let n: usize = a.len();
                let line = if n > 0 && a[n - 1] == '\r' {
                    slice_subrange(a, 0, n - 1)
                } else {
                    a
                };
                proof {
                    lemma_first_bounds(rest@, '\n');
                    assert(line@ == without_cr(a@));
                    assert(lines(rest@) == seq![line@] + lines(b@));
                }
                out.push(line);
                assert(texts(out@) == before.push(line@));
                assert(before + (seq![line@] + lines(b@)) == before.push(line@) + lines(b@));
                rest = b;
            },
            None => {
                assert(lines(rest@) == seq![rest@]);
                out.push(rest);
                assert(texts(out@) == before + seq![rest@]);
                return out;
            },
        }
    }
    assert(lines(rest@) == Seq::<Seq<char>>::empty());
    assert(texts(out@) == texts(out@) + lines(rest@));
    out
}

/// The runs of characters that are not white space.
pub open spec fn words(s: Seq<char>) -> Seq<Seq<char>>
    decreases s.len(),
{
    proof {
        lemma_lead_bounds(s, spaces());
        lemma_lead_bounds(trim_start_of(s, spaces()), non_spaces());
    }
    let t = trim_start_of(s, spaces());
    if t.len() == 0 {
        seq![]
    } else {
        let n = lead(t, non_spaces());
        seq![t.take(n)] + words(t.skip(n))
    }
}

/// Cuts a text into its words.
pub fn words_of(cs: &[char]) -> (r: Vec<&[char]>)
    ensures
        texts(r@) == words(cs@),
{
    let mut out: Vec<&[char]> = Vec::new();
    let mut rest: &[char] = cs;
    loop
        invariant
            texts(out@) + words(rest@) == words(cs@),
        decreases rest@.len(),
    {
        let ghost before = texts(out@);
        let ghost from = rest@;
        let t = trim_start(rest);
        proof {
            lemma_lead_bounds(rest@, spaces());
        }
        if t.len() == 0 {
            assert(words(rest@) == Seq::<Seq<char>>::empty());
            assert(texts(out@) == texts(out@) + words(rest@));
            return out;
        }
        let mut n: usize = 0;
        while n < t.len() && !space(t[n])
            invariant
                n <= t@.len(),
                forall|j: int| 0 <= j < n ==> non_spaces()(#[trigger] t@[j]),
            decreases t@.len() - n,
        {
            n = n + 1;
        }
        proof {
            lemma_lead(t@, non_spaces(), n as int);
            assert(n > 0) by {
                assert(!spaces()(t@[0]));
            }
        }
        let w = slice_subrange(t, 0, n);
        let b = slice_subrange(t, n, t.len());
        assert(words(from) == seq![w@] + words(b@));
        out.push(w);
        assert(texts(out@) == before.push(w@));
        assert(before + (seq![w@] + words(b@)) == before.push(w@) + words(b@));
        rest = b;
    }
}

/// A word at the start of a text is its first word.
pub proof fn lemma_first_word(w: Seq<char>, s: Seq<char>)
    requires
        w.len() > 0,
        forall|i: int| 0 <= i < w.len() ==> !is_space(#[trigger] w[i]),
        s.len() == 0 || is_space(s[0]),
    ensures
        words(w + s) == seq![w] + words(s),
{
    let t = w + s;
    assert(!spaces()(t[0])) by {
        assert(t[0] == w[0]);
    }
    lemma_lead(t, spaces(), 0);
    assert(trim_start_of(t, spaces()) =~= t);
    assert forall|j: int| 0 <= j < w.len() implies non_spaces()(#[trigger] t[j]) by {
        assert(t[j] == w[j]);
    }
    if s.len() > 0 {
        assert(t[w.len() as int] == s[0]);
    }
    lemma_lead(t, non_spaces(), w.len() as int);
    assert(t.take(w.len() as int) =~= w);
    assert(t.skip(w.len() as int) =~= s);
}

/// A space at the start of a text does not change its words.
pub proof fn lemma_space_first(c: char, s: Seq<char>)
    requires
        is_space(c),
    ensures
        words(seq![c] + s) == words(s),
{
    let t = seq![c] + s;
    assert(t.skip(1) =~= s);
    assert(t[0] == c);
    lemma_lead_bounds(s, spaces());
    assert(lead(t, spaces()) == 1 + lead(s, spaces()));
    assert(trim_start_of(t, spaces()) =~= trim_start_of(s, spaces()));
}

/// Texts joined by a separator.
pub open spec fn joined(parts: Seq<Seq<char>>, sep: Seq<char>) -> Seq<char>
    decreases parts.len(),
{
    if parts.len() == 0 {
        seq![]
    } else if parts.len() == 1 {
        parts[0]
    } else {
        joined(parts.drop_last(), sep) + sep + parts.last()
    }
}

/// Joins strings by a separator.
pub fn join(parts: &[String], sep: &str) -> (r: String)
    ensures
        r@ == joined(strings(parts@), sep@),
{
    let mut out = String::new();
    let mut i: usize = 0;
    assert(strings(parts@.take(0)) == Seq::<Seq<char>>::empty());
    while i < parts.len()
        invariant
            i <= parts@.len(),
            out@ == joined(strings(parts@).take(i as int), sep@),
        decreases parts@.len() - i,
    {
        let ghost prev = strings(parts@).take(i as int);
        if i > 0 {
            out.append(sep);
        }
        out.append(parts[i].as_str());
        i = i + 1;
        proof {
            let now = strings(parts@).take(i as int);
            assert(now.drop_last() == prev);
            assert(now.last() == parts@[i - 1]@);
            if i == 1 {
                assert(now.len() == 1);
                assert(Seq::<char>::empty() + parts@[0]@ == parts@[0]@);
            }
        }
    }
    assert(strings(parts@).take(i as int) == strings(parts@));
    out
}

// ---------------------------------------------------------------------------
// ASCII case
// ---------------------------------------------------------------------------

/// A character with an ASCII capital letter made small.
pub open spec fn lower(c: char) -> char {
    if 'A' <= c && c <= 'Z' {
        ((c as u32 + 32) as u32) as char
    } else {
        c
    }
}

/// A text with its ASCII capital letters made small.
pub open spec fn lowered(s: Seq<char>) -> Seq<char> {
    Seq::new(s.len(), |i: int| lower(s[i]))
}

/// Makes an ASCII capital letter small.
pub fn lower_char(c: char) -> (r: char)
    ensures
        r == lower(c),
{
    if 'A' <= c && c <= 'Z' {
        ((c as u8) + 32) as char
    } else {
        c
    }
}

/// Makes the ASCII capital letters of a text small.
pub fn to_lower(cs: &[char]) -> (r: Vec<char>)
    ensures
        r@ == lowered(cs@),
{
    let mut out: Vec<char> = Vec::new();
    let mut i: usize = 0;
    while i < cs.len()
        invariant
            i <= cs@.len(),
            out@ == lowered(cs@).take(i as int),
        decreases cs@.len() - i,
    {
        out.push(lower_char(cs[i]));
        i = i + 1;
        assert(out@ == lowered(cs@).take(i as int));
    }
    assert(lowered(cs@).take(i as int) == lowered(cs@));
    out
}

/// Whether two texts are equal but for the case of ASCII letters.
pub open spec fn same_nocase(a: Seq<char>, b: Seq<char>) -> bool {
    lowered(a) == lowered(b)
}

/// Whether a text equals a string but for the case of ASCII letters.
pub fn eq_nocase(cs: &[char], lit: &str) -> (r: bool)
    ensures
        r == same_nocase(cs@, lit@),
{
    let other = chars_of(lit);
    let a = to_lower(cs);
    let b = to_lower(&other);
    same_chars(&a, &b)
}

// ---------------------------------------------------------------------------
// Numbers
// ---------------------------------------------------------------------------

/// The value of a digit in a base of at most sixteen, or -1 for another character.
pub open spec fn digit(c: char) -> int {
    if '0' <= c && c <= '9' {
        c as int - '0' as int
    } else if 'a' <= c && c <= 'f' {
        c as int - 'a' as int + 10
    } else if 'A' <= c && c <= 'F' {
        c as int - 'A' as int + 10
    } else {
        -1
    }
}

/// Whether a character is a digit of a base.
pub open spec fn is_digit(c: char, base: int) -> bool {
    0 <= digit(c) < base
}

/// Whether a text is made of digits of a base alone.
pub open spec fn all_digits(s: Seq<char>, base: int) -> bool {
    forall|i: int| 0 <= i < s.len() ==> is_digit(#[trigger] s[i], base)
}

/// The number that digits of a base write.
pub open spec fn value(s: Seq<char>, base: int) -> int
    decreases s.len(),
{
    if s.len() == 0 {
        0
    } else {
        value(s.drop_last(), base) * base + digit(s.last())
    }
}

/// A text without one plus sign at its start.
pub open spec fn unsigned(s: Seq<char>) -> Seq<char> {
    if s.len() > 0 && s[0] == '+' {
        s.skip(1)
    } else {
        s
    }
}

/// The number that a text writes in a base: an optional plus sign and then at
/// least one digit, nothing else, and no more than `max`.
pub open spec fn number(s: Seq<char>, base: int, max: int) -> Option<int> {
    let d = unsigned(s);
    if d.len() > 0 && all_digits(d, base) && value(d, base) <= max {
        Some(value(d, base))
    } else {
        None
    }
}

/// The number that a text writes with an optional sign, within the bounds of 64
/// bits.
pub open spec fn signed_number(s: Seq<char>) -> Option<int> {
    if s.len() > 0 && s[0] == '-' {
        let d = s.skip(1);
        if d.len() > 0 && all_digits(d, 10) && value(d, 10) <= 0x8000_0000_0000_0000 {
            Some(-value(d, 10))
        } else {
            None
        }
    } else {
        number(s, 10, i64::MAX as int)
    }
}

/// Digits write a number that is not negative.
pub proof fn lemma_value_nonneg(s: Seq<char>, base: int)
    requires
        all_digits(s, base),
        base >= 0,
    ensures
        value(s, base) >= 0,
    decreases s.len(),
{
    if s.len() > 0 {
        assert(all_digits(s.drop_last(), base)) by {
            assert forall|i: int| 0 <= i < s.drop_last().len() implies is_digit(
                #[trigger] s.drop_last()[i],
                base,
            ) by {
                assert(s.drop_last()[i] == s[i]);
            }
        }
        lemma_value_nonneg(s.drop_last(), base);
        assert(is_digit(s.last(), base));
        let v = value(s.drop_last(), base);
        assert(v * base >= 0) by (nonlinear_arith)
            requires
                v >= 0,
                base >= 0,
        ;
    }
}

/// A longer run of digits writes no smaller number than its start.
pub proof fn lemma_value_grows(s: Seq<char>, base: int, n: int)
    requires
        all_digits(s, base),
        base >= 1,
        0 <= n <= s.len(),
    ensures
        value(s.take(n), base) <= value(s, base),
    decreases s.len(),
{
    if n == s.len() {
        assert(s.take(n) == s);
    } else {
        let t = s.drop_last();
        assert forall|i: int| 0 <= i < t.len() implies is_digit(#[trigger] t[i], base) by {
            assert(t[i] == s[i]);
        }
        lemma_value_grows(t, base, n);
        assert(t.take(n) == s.take(n));
        lemma_value_nonneg(t, base);
        assert(is_digit(s.last(), base));
        let v = value(t, base);
        assert(v * base >= v) by (nonlinear_arith)
            requires
                v >= 0,
                base >= 1,
        ;
    }
}

/// The value of a digit.
fn digit_of(c: char) -> (r: Option<u8>)
    ensures
        match r {
            Some(d) => d == digit(c) && d < 16,
            None => digit(c) == -1,
        },
{
    if '0' <= c && c <= '9' {
        Some((c as u8) - 48)
    } else if 'a' <= c && c <= 'f' {
        Some((c as u8) - 87)
    } else if 'A' <= c && c <= 'F' {
        Some((c as u8) - 55)
    } else {
        None
    }
}

/// Whether a character is a decimal digit.
pub fn decimal_digit(c: char) -> (r: bool)
    ensures
        r == is_digit(c, 10),
{
    '0' <= c && c <= '9'
}

/// Reads digits of a base that write no more than `max`.
fn read_digits(cs: &[char], base: u64, max: u64) -> (r: Option<u64>)
    requires
        2 <= base <= 16,
    ensures
        match r {
            Some(v) => cs@.len() > 0 && all_digits(cs@, base as int) && value(cs@, base as int) == v
                && v <= max,
            None => !(cs@.len() > 0 && all_digits(cs@, base as int) && value(cs@, base as int)
                <= max),
        },
{
    let n: usize = cs.len();
    if n == 0 {
        return None;
    }
    let mut acc: u64 = 0;
    let mut i: usize = 0;
    while i < n
        invariant
            n == cs@.len(),
            i <= n,
            2 <= base <= 16,
            acc <= max,
            all_digits(cs@.take(i as int), base as int),
            value(cs@.take(i as int), base as int) == acc,
        decreases n - i,
    {
        let ghost cur = cs@.take(i as int);
        let ghost next = cs@.take(i + 1);
        proof {
            assert(next.drop_last() == cur);
            assert(next.last() == cs@[i as int]);
        }
        let d: u64 = match digit_of(cs[i]) {
            Some(d) => d as u64,
            None => {
                assert(!is_digit(cs@[i as int], base as int));
                return None;
            },
        };
        if d >= base {
            assert(!is_digit(cs@[i as int], base as int));
            return None;
        }
        assert(acc * base <= 0xffff_ffff_ffff_ffff * 16) by (nonlinear_arith)
            requires
                acc <= 0xffff_ffff_ffff_ffff,
                base <= 16,
        ;
        let step: u128 = (acc as u128) * (base as u128) + (d as u128);
        assert(value(next, base as int) == acc * base + d);
        if step > max as u128 {
            proof {
                if all_digits(cs@, base as int) {
                    lemma_value_grows(cs@, base as int, i + 1);
                }
            }
            return None;
        }
        acc = step as u64;
        i = i + 1;
        assert forall|j: int| 0 <= j < next.len() implies is_digit(
            #[trigger] next[j],
            base as int,
        ) by {
            if j < cur.len() {
                assert(next[j] == cur[j]);
            }
        }
    }
    assert(cs@.take(n as int) == cs@);
    Some(acc)
}

/// Reads a number of 128 bits in decimal.
pub fn parse_wide(cs: &[char]) -> (r: Option<u128>)
    ensures
        match r {
            Some(v) => number(cs@, 10, u128::MAX as int) == Some(v as int),
            None => number(cs@, 10, u128::MAX as int) is None,
        },
{
    let all: usize = cs.len();
    let ds = if all > 0 && cs[0] == '+' {
        slice_subrange(cs, 1, all)
    } else {
        cs
    };
    let n: usize = ds.len();
    if n == 0 {
        return None;
    }
    let mut acc: u128 = 0;
    let mut i: usize = 0;
    while i < n
        invariant
            ds@ == unsigned(cs@),
            n == ds@.len(),
            i <= n,
            all_digits(ds@.take(i as int), 10),
            value(ds@.take(i as int), 10) == acc,
        decreases n - i,
    {
        let ghost cur = ds@.take(i as int);
        let ghost next = ds@.take(i + 1);
        proof {
            assert(next.drop_last() == cur);
            assert(next.last() == ds@[i as int]);
        }
        let d: u128 = match digit_of(ds[i]) {
            Some(d) => d as u128,
            None => {
                assert(!is_digit(ds@[i as int], 10));
                return None;
            },
        };
        if d >= 10 {
            assert(!is_digit(ds@[i as int], 10));
            return None;
        }
        assert(value(next, 10) == acc * 10 + d);
        if acc > u128::MAX / 10 || (acc == u128::MAX / 10 && d > u128::MAX % 10) {
            proof {
                if all_digits(ds@, 10) {
                    lemma_value_grows(ds@, 10, i + 1);
                }
            }
            return None;
        }
        acc = acc * 10 + d;
        i = i + 1;
        assert forall|j: int| 0 <= j < next.len() implies is_digit(#[trigger] next[j], 10) by {
            if j < cur.len() {
                assert(next[j] == cur[j]);
            }
        }
    }
    assert(ds@.take(n as int) == ds@);
    Some(acc)
}

/// An optional machine number as a mathematical one.
pub open spec fn opt_int(v: Option<u64>) -> Option<int> {
    match v {
        Some(x) => Some(x as int),
        None => None,
    }
}

/// Reads a number in a base that is at most `max`.
pub fn parse_number(cs: &[char], base: u64, max: u64) -> (r: Option<u64>)
    requires
        2 <= base <= 16,
    ensures
        opt_int(r) == number(cs@, base as int, max as int),
{
    let n: usize = cs.len();
    if n > 0 && cs[0] == '+' {
        read_digits(slice_subrange(cs, 1, n), base, max)
    } else {
        read_digits(cs, base, max)
    }
}

/// Reads a decimal number with an optional sign.
pub fn parse_i64(cs: &[char]) -> (r: Option<i64>)
    ensures
        match r {
            Some(v) => signed_number(cs@) == Some(v as int),
            None => signed_number(cs@) is None,
        },
{
    let n: usize = cs.len();
    if n > 0 && cs[0] == '-' {
        match read_digits(slice_subrange(cs, 1, n), 10, 0x8000_0000_0000_0000) {
            Some(v) => Some((-(v as i128)) as i64),
            None => None,
        }
    } else {
        match parse_number(cs, 10, i64::MAX as u64) {
            Some(v) => Some(v as i64),
            None => None,
        }
    }
}

/// The character that writes a digit.
pub open spec fn digit_char(d: int) -> char {
    if d < 10 {
        ((d + 48) as u32) as char
    } else {
        ((d + 87) as u32) as char
    }
}

/// A number written in a base, without leading zeros.
pub open spec fn written(n: int, base: int) -> Seq<char>
    decreases n,
{
    if n < base || base < 2 {
        seq![digit_char(n)]
    } else {
        proof {
            assert(0 <= n / base < n) by (nonlinear_arith)
                requires
                    n >= base,
                    base >= 2,
            ;
        }
        written(n / base, base).push(digit_char(n % base))
    }
}

/// A number in decimal.
pub open spec fn decimal(n: int) -> Seq<char> {
    written(n, 10)
}

/// The digits of a number write it.
pub proof fn lemma_written(n: int, base: int)
    requires
        n >= 0,
        2 <= base <= 16,
    ensures
        written(n, base).len() > 0,
        all_digits(written(n, base), base),
        value(written(n, base), base) == n,
    decreases n,
{
    let w = written(n, base);
    if n < base {
        assert(w.drop_last() =~= Seq::<char>::empty());
        assert(value(w.drop_last(), base) == 0);
        assert(0 * base == 0);
    } else {
        assert(0 <= n / base < n && 0 <= n % base < base && (n / base) * base + n % base == n)
            by (nonlinear_arith)
            requires
                n >= base,
                base >= 2,
        ;
        lemma_written(n / base, base);
        let v = written(n / base, base);
        assert(w.drop_last() =~= v);
        assert forall|i: int| 0 <= i < w.len() implies is_digit(#[trigger] w[i], base) by {
            if i < v.len() {
                assert(w[i] == v[i]);
            }
        }
    }
}

/// A number is read back from its decimal digits.
pub proof fn law_number_round_trip(n: int, max: int)
    requires
        0 <= n <= max,
    ensures
        number(decimal(n), 10, max) == Some(n),
        forall|i: int| 0 <= i < decimal(n).len() ==> !is_space(#[trigger] decimal(n)[i]),
        decimal(n).len() > 0,
{
    lemma_written(n, 10);
    assert(is_digit(decimal(n)[0], 10));
    assert forall|i: int| 0 <= i < decimal(n).len() implies !is_space(#[trigger] decimal(n)[i]) by {
        assert(is_digit(decimal(n)[i], 10));
    }
}

/// A text filled up with zeros on the left to a width.
pub open spec fn zero_padded(s: Seq<char>, width: int) -> Seq<char> {
    if s.len() < width {
        Seq::new((width - s.len()) as nat, |i: int| '0') + s
    } else {
        s
    }
}

/// Writes a digit.
pub fn digit_char_of(d: u8) -> (r: char)
    requires
        d < 16,
    ensures
        r == digit_char(d as int),
{
    if d < 10 {
        (d + 48) as char
    } else {
        (d + 87) as char
    }
}

/// Writes a number in a base.
pub fn write_number(n: u64, base: u64) -> (r: Vec<char>)
    requires
        2 <= base <= 16,
    ensures
        r@ == written(n as int, base as int),
    decreases n,
{
    if n < base {
        let mut out: Vec<char> = Vec::new();
        out.push(digit_char_of(n as u8));
        assert(out@ == seq![digit_char(n as int)]);
        out
    } else {
        assert(n / base < n) by (nonlinear_arith)
            requires
                n >= base,
                base >= 2,
        ;
        assert(n % base < base) by (nonlinear_arith)
            requires
                base >= 2,
        ;
        let mut out = write_number(n / base, base);
        out.push(digit_char_of((n % base) as u8));
        out
    }
}

/// Appends a number of 128 bits in decimal.
pub fn push_wide(out: &mut String, n: u128)
    ensures
        final(out)@ == old(out)@ + decimal(n as int),
    decreases n,
{
    if n >= 10 {
        push_wide(out, n / 10);
    }
    out.push(digit_char_of((n % 10) as u8));
    assert(out@ =~= old(out)@ + decimal(n as int));
}

/// Appends a number in decimal.
pub fn push_decimal(out: &mut String, n: u64)
    ensures
        final(out)@ == old(out)@ + decimal(n as int),
{
    let d = write_number(n, 10);
    push_chars(out, &d);
}

/// Appends a number in a base, filled up with zeros to a width.
pub fn push_padded(out: &mut String, n: u64, base: u64, width: usize)
    requires
        2 <= base <= 16,
    ensures
        final(out)@ == old(out)@ + zero_padded(written(n as int, base as int), width as int),
{
    let d = write_number(n, base);
    let ghost start = out@;
    let mut k: usize = d.len();
    while k < width
        invariant
            d@.len() <= k,
            k <= width || d@.len() == k,
            out@ == start + Seq::new((k - d@.len()) as nat, |i: int| '0'),
        decreases width - k,
    {
        out.push('0');
        k = k + 1;
        assert(out@ == start + Seq::new((k - d@.len()) as nat, |i: int| '0'));
    }
    push_chars(out, &d);
    assert(out@ == start + zero_padded(d@, width as int));
}

/// The decimal text of a number.
pub fn decimal_of(n: u64) -> (r: String)
    ensures
        r@ == decimal(n as int),
{
    let d = write_number(n, 10);
    str_of(&d)
}

/// A number in decimal with a minus sign where it is negative.
pub open spec fn signed_decimal(n: int) -> Seq<char> {
    if n < 0 {
        "-"@ + decimal(-n)
    } else {
        decimal(n)
    }
}

/// Appends a number in decimal with a minus sign where it is negative.
pub fn push_signed(out: &mut String, n: i64)
    ensures
        final(out)@ == old(out)@ + signed_decimal(n as int),
{
    let ghost start = out@;
    if n < 0 {
        out.append("-");
        push_decimal(out, (-(n as i128)) as u64);
        assert(out@ == start + signed_decimal(n as int));
    } else {
        push_decimal(out, n as u64);
    }
}

/// A text is cut at the first place where the character stands.
pub proof fn lemma_cut_first(a: Seq<char>, b: Seq<char>, c: char)
    requires
        forall|i: int| 0 <= i < a.len() ==> #[trigger] a[i] != c,
    ensures
        cut(a + seq![c] + b, c) == Some((a, b)),
{
    let s = a + seq![c] + b;
    assert forall|i: int| 0 <= i < a.len() implies #[trigger] s[i] != c by {
        assert(s[i] == a[i]);
    }
    lemma_first(s, c, a.len() as int);
    assert(s.take(a.len() as int) =~= a);
    assert(s.skip(a.len() as int + 1) =~= b);
}

/// The first piece of a text ends where the character first stands.
pub proof fn lemma_split_first(a: Seq<char>, b: Seq<char>, c: char)
    requires
        forall|i: int| 0 <= i < a.len() ==> #[trigger] a[i] != c,
    ensures
        split(a + seq![c] + b, c) == seq![a] + split(b, c),
{
    let s = a + seq![c] + b;
    assert forall|i: int| 0 <= i < a.len() implies #[trigger] s[i] != c by {
        assert(s[i] == a[i]);
    }
    lemma_first(s, c, a.len() as int);
    assert(s.take(a.len() as int) =~= a);
    assert(s.skip(a.len() as int + 1) =~= b);
}

/// A text without the character is one piece.
pub proof fn lemma_split_last(a: Seq<char>, c: char)
    requires
        forall|i: int| 0 <= i < a.len() ==> #[trigger] a[i] != c,
    ensures
        split(a, c) == seq![a],
{
    lemma_first(a, c, a.len() as int);
}

/// A text is cut at the last place where the character stands.
pub proof fn lemma_rcut_last(a: Seq<char>, b: Seq<char>, c: char)
    requires
        forall|i: int| 0 <= i < b.len() ==> #[trigger] b[i] != c,
    ensures
        rcut(a + seq![c] + b, c) == Some((a, b)),
{
    let s = a + seq![c] + b;
    let n = a.len() as int;
    assert forall|i: int| n < i < s.len() implies #[trigger] s[i] != c by {
        assert(s[i] == b[i - n - 1]);
    }
    lemma_last(s, c, n);
    assert(s.take(n) =~= a);
    assert(s.skip(n + 1) =~= b);
}

/// A text that does not hold the character is not cut.
pub proof fn lemma_no_cut(s: Seq<char>, c: char)
    requires
        forall|i: int| 0 <= i < s.len() ==> #[trigger] s[i] != c,
    ensures
        cut(s, c) is None,
        rcut(s, c) is None,
{
    lemma_first(s, c, s.len() as int);
    lemma_last(s, c, -1);
}

/// What stands behind the start of a text.
pub proof fn lemma_after(p: Seq<char>, s: Seq<char>)
    ensures
        starts(p + s, p),
        after(p + s, p) == Some(s),
{
    assert((p + s).take(p.len() as int) =~= p);
    assert((p + s).skip(p.len() as int) =~= s);
}

/// Digits in front of something else are those that lead.
pub proof fn lemma_lead_digits(d: Seq<char>, rest: Seq<char>, base: int, f: spec_fn(char) -> bool)
    requires
        all_digits(d, base),
        rest.len() > 0 ==> !is_digit(rest[0], base),
        forall|c: char| #[trigger] f(c) == is_digit(c, base),
    ensures
        lead(d + rest, f) == d.len(),
{
    let s = d + rest;
    assert forall|j: int| 0 <= j < d.len() implies f(#[trigger] s[j]) by {
        assert(is_digit(d[j], base));
        assert(s[j] == d[j]);
    }
    lemma_lead(s, f, d.len() as int);
}

/// A number is written without needless zeros, and a small one in few digits.
pub proof fn lemma_decimal_shape(n: int)
    requires
        n >= 0,
    ensures
        n > 0 ==> decimal(n)[0] != '0',
        n == 0 ==> decimal(n) == seq!['0'],
        n < 10 ==> decimal(n).len() == 1,
        n < 100 ==> decimal(n).len() <= 2,
        n < 1000 ==> decimal(n).len() <= 3,
        decimal(n).len() > 0,
    decreases n,
{
    if n >= 10 {
        assert(0 <= n / 10 < n);
        lemma_decimal_shape(n / 10);
        assert(decimal(n) == decimal(n / 10).push(digit_char(n % 10)));
        assert(decimal(n)[0] == decimal(n / 10)[0]);
    }
}

/// Removing white space at either end takes nothing from a text that has none there, and
/// all of it from one that has.
pub proof fn law_trimming(a: Seq<char>, s: Seq<char>, b: Seq<char>)
    requires
        s.len() > 0 ==> !is_space(s[0]) && !is_space(s.last()),
        forall|i: int| 0 <= i < a.len() ==> is_space(#[trigger] a[i]),
        forall|i: int| 0 <= i < b.len() ==> is_space(#[trigger] b[i]),
    ensures
        trimmed(a + s + b) == s,
        trimmed(s) == s,
{
    lemma_trim_around(a, s, b, spaces());
    let e = Seq::<char>::empty();
    lemma_trim_around(e, s, e, spaces());
    assert(e + s + e =~= s);
}

/// What stands between characters of a class is left when those are taken away.
pub proof fn lemma_trim_around(
    a: Seq<char>,
    s: Seq<char>,
    b: Seq<char>,
    f: spec_fn(char) -> bool,
)
    requires
        s.len() > 0 ==> !f(s[0]) && !f(s.last()),
        forall|i: int| 0 <= i < a.len() ==> f(#[trigger] a[i]),
        forall|i: int| 0 <= i < b.len() ==> f(#[trigger] b[i]),
    ensures
        trim_of(a + s + b, f) == s,
{
    let t = a + s + b;
    if s.len() > 0 {
        assert forall|j: int| 0 <= j < a.len() implies f(#[trigger] t[j]) by {
            assert(t[j] == a[j]);
        }
        assert(t[a.len() as int] == s[0]);
        lemma_lead(t, f, a.len() as int);
        let u = t.skip(a.len() as int);
        assert(u =~= s + b);
        assert forall|j: int| u.len() - b.len() <= j < u.len() implies f(#[trigger] u[j]) by {
            assert(u[j] == b[j - s.len()]);
        }
        assert(u[u.len() - b.len() - 1] == s.last());
        lemma_trail(u, f, b.len() as int);
        assert(u.take(s.len() as int) =~= s);
    } else {
        assert forall|j: int| 0 <= j < t.len() implies f(#[trigger] t[j]) by {
            if j < a.len() {
                assert(t[j] == a[j]);
            } else {
                assert(t[j] == b[j - a.len()]);
            }
        }
        lemma_lead(t, f, t.len() as int);
        assert(t.skip(t.len() as int) =~= s);
        assert(trail(s, f) == 0);
        assert(s.take(0) =~= s);
    }
}

/// A text is cut at the first place of a part; what stands before it and behind it is what
/// is left.
pub proof fn lemma_cut_str(a: Seq<char>, p: Seq<char>, b: Seq<char>)
    requires
        p.len() > 0,
        forall|i: int| 0 <= i < a.len() ==> #[trigger] a[i] != p[0],
    ensures
        cut_str(a + p + b, p) == Some((a, b)),
        holds(a + p + b, p),
{
    let s = a + p + b;
    let n = a.len() as int;
    assert(s.skip(n).take(p.len() as int) =~= p);
    assert forall|j: int| 0 <= j < n implies !starts(#[trigger] s.skip(j), p) by {
        if starts(s.skip(j), p) {
            assert(s.skip(j).take(p.len() as int)[0] == a[j]);
        }
    }
    lemma_sub_from(s, p, 0, n);
    assert(s.take(n) =~= a);
    assert(s.skip(n + p.len()) =~= b);
    assert(starts(s.skip(n), p));
}

/// A line ends where the next one begins, with or without a return before the end; a last
/// line needs no end, and an empty text has no line.
pub proof fn law_lines(l: Seq<char>, rest: Seq<char>)
    requires
        forall|i: int| 0 <= i < l.len() ==> #[trigger] l[i] != '\n',
        l.len() > 0 ==> l.last() != '\r',
    ensures
        lines(l + (seq!['\n'] + rest)) == seq![l] + lines(rest),
        lines(l + (seq!['\r', '\n'] + rest)) == seq![l] + lines(rest),
        l.len() > 0 ==> lines(l) == seq![l],
        lines(Seq::<char>::empty()) == Seq::<Seq<char>>::empty(),
{
    let n = l.len() as int;
    let a = l + (seq!['\n'] + rest);
    let b = l + (seq!['\r', '\n'] + rest);
    assert forall|i: int| 0 <= i < n implies #[trigger] a[i] != '\n' by {
        assert(a[i] == l[i]);
    }
    assert forall|i: int| 0 <= i < n + 1 implies #[trigger] b[i] != '\n' by {
        if i < n {
            assert(b[i] == l[i]);
        }
    }
    lemma_first(a, '\n', n);
    lemma_first(b, '\n', n + 1);
    assert(a.take(n) =~= l);
    assert(b.take(n + 1) =~= l.push('\r'));
    assert(a.skip(n + 1) =~= rest);
    assert(b.skip(n + 2) =~= rest);
    assert(l.push('\r').drop_last() =~= l);
    assert(l.push('\r').take(n) =~= l);
    lemma_first_bounds(l, '\n');
}

} // verus!
