//! Sets of texts, kept in their order.

use crate::text;
use vstd::prelude::*;

verus! {

/// Whether a text comes before another: by the first character in which they
/// differ, the shorter one first where there is none.
pub open spec fn before(a: Seq<char>, b: Seq<char>) -> bool
    decreases a.len(),
{
    if b.len() == 0 {
        false
    } else if a.len() == 0 {
        true
    } else if a[0] != b[0] {
        a[0] < b[0]
    } else {
        before(a.subrange(1, a.len() as int), b.subrange(1, b.len() as int))
    }
}

/// Of two different texts one comes before the other, and none before itself.
pub proof fn lemma_total(a: Seq<char>, b: Seq<char>)
    ensures
        a == b <==> !before(a, b) && !before(b, a),
        !(before(a, b) && before(b, a)),
    decreases a.len(),
{
    if a.len() > 0 && b.len() > 0 {
        let x = a.subrange(1, a.len() as int);
        let y = b.subrange(1, b.len() as int);
        lemma_total(x, y);
        if a[0] == b[0] {
            if x == y {
                assert(a =~= seq![a[0]] + x);
                assert(b =~= seq![b[0]] + y);
            }
            if a == b {
                assert(x == y);
            }
        }
    } else if a.len() == 0 && b.len() == 0 {
        assert(a =~= b);
    }
}

/// The order carries over.
pub proof fn lemma_order(a: Seq<char>, b: Seq<char>, c: Seq<char>)
    requires
        before(a, b),
        before(b, c),
    ensures
        before(a, c),
    decreases a.len(),
{
    if a.len() > 0 && a[0] == b[0] && b[0] == c[0] {
        lemma_order(
            a.subrange(1, a.len() as int),
            b.subrange(1, b.len() as int),
            c.subrange(1, c.len() as int),
        );
    }
}

/// Whether a text comes before another.
pub(crate) fn comes_before(a: &[char], b: &[char]) -> (r: bool)
    ensures
        r == before(a@, b@),
{
    let n: usize = a.len();
    let m: usize = b.len();
    let mut i: usize = 0;
    assert(a@.subrange(0, n as int) =~= a@);
    assert(b@.subrange(0, m as int) =~= b@);
    while i < n && i < m
        invariant
            i <= n,
            i <= m,
            n == a@.len(),
            m == b@.len(),
            before(a@, b@) == before(a@.subrange(i as int, n as int), b@.subrange(i as int, m as int)),
        decreases n - i,
    {
        if a[i] != b[i] {
            return a[i] < b[i];
        }
        assert(a@.subrange(i as int, n as int).subrange(1, n - i) =~= a@.subrange(i + 1, n as int));
        assert(b@.subrange(i as int, m as int).subrange(1, m - i) =~= b@.subrange(i + 1, m as int));
        i = i + 1;
    }
    i < m
}

/// A set of texts.
pub struct Names {
    items: Vec<String>,
}

impl View for Names {
    type V = Set<Seq<char>>;

    closed spec fn view(&self) -> Set<Seq<char>> {
        text::strings(self.items@).to_set()
    }
}

impl Names {
    /// The texts in their order.
    pub closed spec fn order(&self) -> Seq<Seq<char>> {
        text::strings(self.items@)
    }

    /// Each text comes before those after it.
    pub open spec fn wf(&self) -> bool {
        forall|i: int, j: int|
            0 <= i < j < self.order().len() ==> before(
                #[trigger] self.order()[i],
                #[trigger] self.order()[j],
            )
    }

    /// The set is that of the texts in their order.
    pub proof fn lemma_order(&self)
        ensures
            self@ == self.order().to_set(),
    {
    }

    /// The empty set.
    pub fn new() -> (r: Names)
        ensures
            r.wf(),
            r@ == Set::<Seq<char>>::empty(),
            r.order() == Seq::<Seq<char>>::empty(),
    {
        let r = Names { items: Vec::new() };
        assert(r.order() =~= Seq::<Seq<char>>::empty());
        assert(r@ =~= Set::<Seq<char>>::empty());
        r
    }

    /// How many texts there are.
    pub fn len(&self) -> (r: usize)
        ensures
            r == self.order().len(),
    {
        self.items.len()
    }

    /// Whether there is no text.
    pub fn is_empty(&self) -> (r: bool)
        ensures
            r == (self@ == Set::<Seq<char>>::empty()),
    {
        proof {
            if self.order().len() == 0 {
                assert(self@ =~= Set::<Seq<char>>::empty());
            } else {
                assert(self.order().contains(self.order()[0]));
                assert(self@.contains(self.order()[0]));
            }
        }
        self.items.len() == 0
    }

    /// The texts in their order.
    pub fn items(&self) -> (r: &Vec<String>)
        ensures
            text::strings(r@) == self.order(),
            self@ == self.order().to_set(),
    {
        &self.items
    }

    /// Whether a text is in the set.
    pub fn contains(&self, s: &str) -> (r: bool)
        ensures
            r == self@.contains(s@),
    {
        let mut i: usize = 0;
        while i < self.items.len()
            invariant
                i <= self.items@.len(),
                forall|j: int| 0 <= j < i ==> (#[trigger] self.items@[j])@ != s@,
            decreases self.items@.len() - i,
        {
            if text::same_str(self.items[i].as_str(), s) {
                proof {
                    assert(self.order()[i as int] == s@);
                    assert(self.order().contains(s@));
                }
                return true;
            }
            i = i + 1;
        }
        proof {
            if self.order().contains(s@) {
                let j = choose|j: int| 0 <= j < self.order().len() && self.order()[j] == s@;
                assert(self.items@[j]@ == s@);
            }
        }
        false
    }

    /// Puts a text into the set.
    pub fn insert(&mut self, s: String)
        requires
            old(self).wf(),
        ensures
            final(self).wf(),
            final(self)@ == old(self)@.insert(s@),
    {
        let ghost o = self.order();
        let ghost x = s@;
        let cs = text::chars_of(s.as_str());
        let n: usize = self.items.len();
        let mut i: usize = 0;
        let mut go = true;
        while go && i < n
            invariant
                i <= n,
                n == self.items@.len(),
                o == text::strings(self.items@),
                x == cs@,
                forall|j: int| 0 <= j < i ==> before(#[trigger] o[j], x),
                !go ==> i < n && !before(o[i as int], x),
            decreases n - i, if go { 1int } else { 0int },
        {
            let it = text::chars_of(self.items[i].as_str());
            assert(it@ == o[i as int]);
            if comes_before(it.as_slice(), cs.as_slice()) {
                i = i + 1;
            } else {
                go = false;
            }
        }
        if i < n && text::same_str(self.items[i].as_str(), s.as_str()) {
            proof {
                assert(o[i as int] == x);
                assert(o.contains(x));
                assert(self@ =~= old(self)@.insert(x));
            }
            return ;
        }
        self.items.insert(i, s);
        proof {
            let p = self.order();
            assert(p =~= o.insert(i as int, x));
            if i < n {
                assert(o[i as int] != x);
                lemma_total(o[i as int], x);
            }
            assert forall|a: int, b: int| 0 <= a < b < p.len() implies before(
                #[trigger] p[a],
                #[trigger] p[b],
            ) by {
                if a < i && b < i {
                    assert(before(o[a], o[b]));
                } else if a < i && b == i {
                    assert(before(o[a], x));
                } else if a < i {
                    assert(before(o[a], o[b - 1]));
                } else if a == i {
                    if b - 1 > i {
                        assert(before(o[i as int], o[b - 1]));
                        lemma_order(x, o[i as int], o[b - 1]);
                    }
                } else {
                    assert(before(o[a - 1], o[b - 1]));
                }
            }
            assert(self@ =~= old(self)@.insert(x)) by {
                assert forall|k: Seq<char>| p.contains(k) <==> (o.contains(k) || k == x) by {
                    if p.contains(k) {
                        let j = choose|j: int| 0 <= j < p.len() && p[j] == k;
                        if j < i {
                            assert(o[j] == k);
                        } else if j > i {
                            assert(o[j - 1] == k);
                        }
                    }
                    if o.contains(k) {
                        let j = choose|j: int| 0 <= j < o.len() && o[j] == k;
                        if j < i {
                            assert(p[j] == k);
                        } else {
                            assert(p[j + 1] == k);
                        }
                    }
                    if k == x {
                        assert(p[i as int] == k);
                    }
                }
            }
        }
    }

    /// Whether two sets hold the same texts.
    pub fn same(&self, other: &Names) -> (r: bool)
        requires
            self.wf(),
            other.wf(),
        ensures
            r == (self@ == other@),
    {
        let ghost a = self.order();
        let ghost b = other.order();
        if self.items.len() != other.items.len() {
            proof {
                if self@ == other@ {
                    law_one_order(*self, *other);
                }
            }
            return false;
        }
        let mut i: usize = 0;
        while i < self.items.len()
            invariant
                i <= self.items@.len(),
                self.items@.len() == other.items@.len(),
                a == text::strings(self.items@),
                b == text::strings(other.items@),
                a == self.order(),
                b == other.order(),
                self.wf(),
                other.wf(),
                forall|j: int| 0 <= j < i ==> #[trigger] a[j] == b[j],
            decreases self.items@.len() - i,
        {
            assert(a[i as int] == self.items@[i as int]@);
            assert(b[i as int] == other.items@[i as int]@);
            if !text::same_str(self.items[i].as_str(), other.items[i].as_str()) {
                proof {
                    if self@ == other@ {
                        law_one_order(*self, *other);
                    }
                }
                return false;
            }
            i = i + 1;
        }
        assert(a =~= b);
        true
    }
}

/// Two sets with the same texts hold them in the same order.
pub proof fn law_one_order(a: Names, b: Names)
    requires
        a.wf(),
        b.wf(),
        a@ == b@,
    ensures
        a.order() == b.order(),
{
    lemma_one_order(a.order(), b.order());
}

/// Two ascending sequences with the same texts are the same.
proof fn lemma_one_order(p: Seq<Seq<char>>, q: Seq<Seq<char>>)
    requires
        forall|i: int, j: int| 0 <= i < j < p.len() ==> before(#[trigger] p[i], #[trigger] p[j]),
        forall|i: int, j: int| 0 <= i < j < q.len() ==> before(#[trigger] q[i], #[trigger] q[j]),
        p.to_set() == q.to_set(),
    ensures
        p == q,
    decreases p.len(),
{
    if p.len() == 0 {
        if q.len() > 0 {
            assert(q.to_set().contains(q[0]));
            assert(p.to_set().contains(q[0]));
        }
        assert(p =~= q);
    } else {
        let x = p.last();
        assert(q.to_set().contains(x));
        assert(q.contains(x));
        let y = q.last();
        assert(p.to_set().contains(y));
        assert(p.contains(y));
        let i = choose|i: int| 0 <= i < p.len() && p[i] == y;
        let j = choose|j: int| 0 <= j < q.len() && q[j] == x;
        if x != y {
            assert(before(p[i], p[p.len() - 1]));
            assert(before(q[j], q[q.len() - 1]));
            lemma_total(x, y);
        }
        let p2 = p.drop_last();
        let q2 = q.drop_last();
        assert(p2.to_set() =~= q2.to_set()) by {
            assert forall|k: Seq<char>| p2.to_set().contains(k) implies q2.to_set().contains(k) by {
                lemma_rest(p, q, k);
            }
            assert forall|k: Seq<char>| q2.to_set().contains(k) implies p2.to_set().contains(k) by {
                lemma_rest(q, p, k);
            }
        }
        lemma_one_order(p2, q2);
        assert(p =~= p2.push(x));
        assert(q =~= q2.push(y));
    }
}

/// A text before the last of one sequence stands before the last of the other.
proof fn lemma_rest(p: Seq<Seq<char>>, q: Seq<Seq<char>>, k: Seq<char>)
    requires
        p.len() > 0,
        q.len() > 0,
        forall|i: int, j: int| 0 <= i < j < p.len() ==> before(#[trigger] p[i], #[trigger] p[j]),
        p.to_set() == q.to_set(),
        p.last() == q.last(),
        p.drop_last().to_set().contains(k),
    ensures
        q.drop_last().to_set().contains(k),
{
    let p2 = p.drop_last();
    assert(p2.contains(k));
    let i = choose|i: int| 0 <= i < p2.len() && p2[i] == k;
    assert(p[i] == k);
    assert(before(p[i], p[p.len() - 1]));
    lemma_total(k, k);
    assert(p.contains(k));
    assert(p.to_set().contains(k));
    assert(q.to_set().contains(k));
    assert(q.contains(k));
    let j = choose|j: int| 0 <= j < q.len() && q[j] == k;
    assert(j < q.len() - 1);
    assert(q.drop_last()[j] == k);
    assert(q.drop_last().contains(k));
}

/// A name stands before another where it is the shorter of two that begin alike, or has the
/// smaller letter in the first place where they differ.
pub proof fn law_order_of_names(p: Seq<char>, a: Seq<char>, b: Seq<char>)
    requires
        b.len() > 0,
        a.len() == 0 || a[0] < b[0],
    ensures
        before(p + a, p + b),
        !before(p + b, p + a),
    decreases p.len(),
{
    if p.len() == 0 {
        assert(p + a =~= a);
        assert(p + b =~= b);
    } else {
        let q = p.subrange(1, p.len() as int);
        law_order_of_names(q, a, b);
        assert((p + a).subrange(1, (p + a).len() as int) =~= q + a);
        assert((p + b).subrange(1, (p + b).len() as int) =~= q + b);
    }
}

} // verus!
