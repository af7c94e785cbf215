//! JSON values.

use crate::text;
use vstd::prelude::*;

verus! {

/// A JSON value.
pub enum Json {
    Null,
    Bool(bool),
    /// A number: its text and, where it is a whole number that fits, its value.
    Number { text: String, unsigned: Option<u64> },
    Text(String),
    List(Vec<Json>),
    /// The fields of an object.
    Object(Vec<(String, Json)>),
}

/// What a value is, whatever holds it.
#[verifier::ext_equal]
pub enum Shape {
    Null,
    Bool(bool),
    Number(Seq<char>, Option<u64>),
    Text(Seq<char>),
    List(Seq<Shape>),
    Object(Seq<(Seq<char>, Shape)>),
}

/// What a value is.
pub open spec fn shape(j: Json) -> Shape
    decreases j,
{
    match j {
        Json::Null => Shape::Null,
        Json::Bool(b) => Shape::Bool(b),
        Json::Number { text, unsigned } => Shape::Number(text@, unsigned),
        Json::Text(s) => Shape::Text(s@),
        Json::List(a) => Shape::List(shapes(a@)),
        Json::Object(es) => Shape::Object(entries(es@)),
    }
}

/// What values are.
pub open spec fn shapes(a: Seq<Json>) -> Seq<Shape>
    decreases a,
{
    if a.len() == 0 {
        Seq::empty()
    } else {
        shapes(a.drop_last()).push(shape(a.last()))
    }
}

/// What fields are.
pub open spec fn entries(es: Seq<(String, Json)>) -> Seq<(Seq<char>, Shape)>
    decreases es,
{
    if es.len() == 0 {
        Seq::empty()
    } else {
        entries(es.drop_last()).push((es.last().0@, shape(es.last().1)))
    }
}

impl View for Json {
    type V = Shape;

    open spec fn view(&self) -> Shape {
        shape(*self)
    }
}

/// A whole number.
pub open spec fn whole_shape(n: int) -> Shape {
    Shape::Number(text::decimal(n), Some(n as u64))
}

/// A text.
pub fn words_of(s: &str) -> (r: Json)
    ensures
        r@ == Shape::Text(s@),
{
    Json::Text(s.to_owned())
}

/// A whole number.
pub fn whole_of(n: u64) -> (r: Json)
    ensures
        r@ == whole_shape(n as int),
{
    Json::Number { text: text::decimal_of(n), unsigned: Some(n) }
}

/// A whole number that may be missing.
pub fn opt_whole(n: Option<u64>) -> (r: Json)
    ensures
        r@ == match n {
            Some(x) => whole_shape(x as int),
            None => Shape::Null,
        },
{
    match n {
        Some(x) => whole_of(x),
        None => Json::Null,
    }
}

/// A number of tenths.
pub open spec fn tenths_shape(n: int) -> Shape {
    Shape::Number(text::decimal(n / 10) + "."@ + text::decimal(n % 10), None)
}

/// A number of tenths.
pub fn tenths_of(n: u64) -> (r: Json)
    ensures
        r@ == tenths_shape(n as int),
{
    let mut out = text::decimal_of(n / 10);
    out.append(".");
    text::push_decimal(&mut out, n % 10);
    Json::Number { text: out, unsigned: None }
}

/// Texts.
pub open spec fn text_shapes(v: Seq<Seq<char>>) -> Seq<Shape> {
    v.map_values(|s: Seq<char>| Shape::Text(s))
}

/// A list of texts.
pub fn list_of_words(v: &Vec<String>) -> (r: Json)
    ensures
        r@ == Shape::List(text_shapes(text::strings(v@))),
{
    let mut out: Vec<Json> = Vec::new();
    let mut i: usize = 0;
    assert(text_shapes(text::strings(v@)).take(0) =~= Seq::<Shape>::empty());
    while i < v.len()
        invariant
            i <= v@.len(),
            shapes(out@) == text_shapes(text::strings(v@)).take(i as int),
        decreases v@.len() - i,
    {
        push(&mut out, words_of(v[i].as_str()));
        assert(text_shapes(text::strings(v@)).take(i + 1) =~= text_shapes(text::strings(v@)).take(
            i as int,
        ).push(Shape::Text(v@[i as int]@)));
        i = i + 1;
    }
    assert(text_shapes(text::strings(v@)).take(i as int) =~= text_shapes(text::strings(v@)));
    Json::List(out)
}

/// Appends an item.
pub fn push(out: &mut Vec<Json>, v: Json)
    ensures
        shapes(final(out)@) == shapes(old(out)@).push(v@),
        final(out)@ == old(out)@.push(v),
{
    out.push(v);
    assert(out@.drop_last() =~= old(out)@);
}

/// Appends a field.
pub fn add_field(out: &mut Vec<(String, Json)>, key: &str, v: Json)
    ensures
        entries(final(out)@) == entries(old(out)@).push((key@, v@)),
{
    let name = key.to_owned();
    out.push((name, v));
    assert(out@.drop_last() =~= old(out)@);
}

/// The value of a field; `None` where there is no object or no such field.
pub open spec fn field(j: Shape, k: Seq<char>) -> Option<Shape> {
    match j {
        Shape::Object(es) => if spot(es, k) < es.len() {
            Some(es[spot(es, k)].1)
        } else {
            None
        },
        _ => None,
    }
}

/// The whole number that a value is.
pub open spec fn whole(j: Shape) -> Option<u64> {
    match j {
        Shape::Number(_, unsigned) => unsigned,
        _ => None,
    }
}

/// The text that a value is.
pub open spec fn words(j: Shape) -> Option<Seq<char>> {
    match j {
        Shape::Text(s) => Some(s),
        _ => None,
    }
}

/// The truth value that a value is.
pub open spec fn truth(j: Shape) -> Option<bool> {
    match j {
        Shape::Bool(b) => Some(b),
        _ => None,
    }
}

/// The items of the list that a value is.
pub open spec fn items(j: Shape) -> Option<Seq<Shape>> {
    match j {
        Shape::List(a) => Some(a),
        _ => None,
    }
}

/// The whole number in a field.
pub open spec fn whole_at(j: Shape, k: Seq<char>) -> Option<u64> {
    match field(j, k) {
        Some(v) => whole(v),
        None => None,
    }
}

/// The text in a field.
pub open spec fn words_at(j: Shape, k: Seq<char>) -> Option<Seq<char>> {
    match field(j, k) {
        Some(v) => words(v),
        None => None,
    }
}

/// The truth value in a field.
pub open spec fn truth_at(j: Shape, k: Seq<char>) -> Option<bool> {
    match field(j, k) {
        Some(v) => truth(v),
        None => None,
    }
}

/// The list in a field.
pub open spec fn items_at(j: Shape, k: Seq<char>) -> Option<Seq<Shape>> {
    match field(j, k) {
        Some(v) => items(v),
        None => None,
    }
}

/// Items are what each of them is.
pub proof fn lemma_shapes(a: Seq<Json>)
    ensures
        shapes(a).len() == a.len(),
        forall|i: int| 0 <= i < a.len() ==> #[trigger] shapes(a)[i] == shape(a[i]),
    decreases a.len(),
{
    if a.len() > 0 {
        let less = a.drop_last();
        lemma_shapes(less);
        assert forall|i: int| 0 <= i < a.len() implies #[trigger] shapes(a)[i] == shape(a[i]) by {
            if i < less.len() {
                assert(shapes(a)[i] == shapes(less)[i]);
                assert(less[i] == a[i]);
            }
        }
    }
}

/// Fields are what each of them is.
pub proof fn lemma_entries(es: Seq<(String, Json)>)
    ensures
        entries(es).len() == es.len(),
        forall|i: int|
            0 <= i < es.len() ==> #[trigger] entries(es)[i] == (es[i].0@, shape(es[i].1)),
    decreases es.len(),
{
    if es.len() > 0 {
        let less = es.drop_last();
        lemma_entries(less);
        assert forall|i: int| 0 <= i < es.len() implies #[trigger] entries(es)[i] == (
            es[i].0@,
            shape(es[i].1),
        ) by {
            if i < less.len() {
                assert(entries(es)[i] == entries(less)[i]);
                assert(less[i] == es[i]);
            }
        }
    }
}

/// Where a field first stands, or the number of the fields.
pub open spec fn spot(es: Seq<(Seq<char>, Shape)>, k: Seq<char>) -> int
    decreases es.len(),
{
    if es.len() == 0 {
        0
    } else if es[0].0 == k {
        0
    } else {
        1 + spot(es.skip(1), k)
    }
}

/// The value of a field; nothing where there is no such field.
pub open spec fn value_at(es: Seq<(Seq<char>, Shape)>, k: Seq<char>) -> Shape {
    if spot(es, k) < es.len() {
        es[spot(es, k)].1
    } else {
        Shape::Null
    }
}

/// Fields with one of them set. A new one comes last.
pub open spec fn with_field(es: Seq<(Seq<char>, Shape)>, k: Seq<char>, v: Shape) -> Seq<
    (Seq<char>, Shape),
> {
    if spot(es, k) < es.len() {
        es.update(spot(es, k), (k, v))
    } else {
        es.push((k, v))
    }
}

/// A value with the fields of another put into it, at any depth. What is no object gives
/// way.
pub open spec fn merged(a: Shape, b: Shape) -> Shape
    decreases b, 0int,
{
    match (a, b) {
        (Shape::Object(am), Shape::Object(bm)) => Shape::Object(
            merged_run(am, bm, bm.len() as int),
        ),
        _ => b,
    }
}

/// Fields with the first `n` of others put into them.
pub open spec fn merged_run(
    am: Seq<(Seq<char>, Shape)>,
    bm: Seq<(Seq<char>, Shape)>,
    n: int,
) -> Seq<(Seq<char>, Shape)>
    decreases bm, n,
{
    if n <= 0 || n > bm.len() {
        am
    } else {
        let so_far = merged_run(am, bm, n - 1);
        let k = bm[n - 1].0;
        with_field(so_far, k, merged(value_at(so_far, k), bm[n - 1].1))
    }
}

/// Where a field first stands, by what stands before it.
proof fn lemma_spot(es: Seq<(Seq<char>, Shape)>, k: Seq<char>, i: int)
    requires
        0 <= i <= es.len(),
        forall|j: int| 0 <= j < i ==> (#[trigger] es[j]).0 != k,
        i == es.len() || es[i].0 == k,
    ensures
        spot(es, k) == i,
    decreases i,
{
    if i > 0 {
        let rest = es.skip(1);
        assert(es[0].0 != k);
        assert forall|j: int| 0 <= j < i - 1 implies (#[trigger] rest[j]).0 != k by {
            assert(rest[j] == es[j + 1]);
        }
        if i < es.len() {
            assert(rest[i - 1] == es[i]);
        }
        lemma_spot(rest, k, i - 1);
    }
}

/// Two lists of fields are the same where each of them is.
proof fn lemma_entries_same(es: Seq<(String, Json)>, want: Seq<(Seq<char>, Shape)>)
    requires
        es.len() == want.len(),
        forall|i: int| 0 <= i < es.len() ==> #[trigger] want[i] == (es[i].0@, shape(es[i].1)),
    ensures
        entries(es) == want,
{
    lemma_entries(es);
    assert forall|i: int| 0 <= i < es.len() implies entries(es)[i] == #[trigger] want[i] by {
        assert(entries(es)[i] == (es[i].0@, shape(es[i].1)));
    }
    assert(entries(es) =~= want);
}

/// The place of a field.
fn find_place(es: &Vec<(String, Json)>, key: &str) -> (r: Option<usize>)
    ensures
        match r {
            Some(i) => i < es@.len() && spot(entries(es@), key@) == i && es@[i as int].0@ == key@,
            None => spot(entries(es@), key@) == entries(es@).len(),
        },
        entries(es@).len() == es@.len(),
{
    proof {
        lemma_entries(es@);
    }
    let mut i: usize = 0;
    while i < es.len()
        invariant
            i <= es@.len(),
            entries(es@).len() == es@.len(),
            forall|j: int|
                0 <= j < es@.len() ==> #[trigger] entries(es@)[j] == (es@[j].0@, shape(es@[j].1)),
            forall|j: int| 0 <= j < i ==> (#[trigger] entries(es@)[j]).0 != key@,
        decreases es@.len() - i,
    {
        assert(entries(es@)[i as int] == (es@[i as int].0@, shape(es@[i as int].1)));
        if text::same_str(es[i].0.as_str(), key) {
            proof {
                lemma_spot(entries(es@), key@, i as int);
            }
            return Some(i);
        }
        i = i + 1;
    }
    proof {
        lemma_spot(entries(es@), key@, i as int);
    }
    None
}

/// Whether a field of an object is a list.
pub fn has_list(es: &Vec<(String, Json)>, key: &str) -> (r: bool)
    ensures
        r == (items_at(Shape::Object(entries(es@)), key@) is Some),
{
    proof {
        lemma_entries(es@);
    }
    match find_place(es, key) {
        Some(i) => {
            assert(entries(es@)[i as int] == (es@[i as int].0@, shape(es@[i as int].1)));
            match &es[i].1 {
                Json::List(_) => true,
                _ => false,
            }
        },
        None => false,
    }
}

/// The fields of an object with one of them set.
pub fn put(es: Vec<(String, Json)>, key: &str, v: Json) -> (r: Vec<(String, Json)>)
    ensures
        entries(r@) == with_field(entries(es@), key@, v@),
{
    let mut out = es;
    let ghost before = out@;
    let ghost value = v@;
    proof {
        lemma_entries(before);
    }
    match find_place(&out, key) {
        Some(i) => {
            let (name, _) = out.remove(i);
            out.insert(i, (name, v));
            proof {
                let want = entries(before).update(i as int, (key@, value));
                assert(out@ =~= before.update(i as int, (name, v)));
                assert forall|j: int| 0 <= j < out@.len() implies #[trigger] want[j] == (
                    out@[j].0@,
                    shape(out@[j].1),
                ) by {
                    if j != i {
                        assert(entries(before)[j] == (before[j].0@, shape(before[j].1)));
                    }
                }
                lemma_entries_same(out@, want);
            }
        },
        None => {
            let name = key.to_owned();
            out.push((name, v));
            assert(out@.drop_last() =~= before);
        },
    }
    out
}

/// The fields of an object, with the value of one of them taken out and nothing left in
/// its place.
pub fn take(es: Vec<(String, Json)>, key: &str) -> (r: (Option<Json>, Vec<(String, Json)>))
    ensures
        match r.0 {
            Some(v) => field(Shape::Object(entries(es@)), key@) == Some(v@) && entries(r.1@)
                == with_field(entries(es@), key@, Shape::Null),
            None => field(Shape::Object(entries(es@)), key@) is None && entries(r.1@) == entries(
                es@,
            ),
        },
{
    let mut out = es;
    let ghost before = out@;
    proof {
        lemma_entries(before);
    }
    match find_place(&out, key) {
        Some(i) => {
            let (name, v) = out.remove(i);
            assert(entries(before)[i as int] == (name@, shape(v)));
            out.insert(i, (name, Json::Null));
            proof {
                let want = entries(before).update(i as int, (key@, Shape::Null));
                assert(out@ =~= before.update(i as int, (name, Json::Null)));
                assert forall|j: int| 0 <= j < out@.len() implies #[trigger] want[j] == (
                    out@[j].0@,
                    shape(out@[j].1),
                ) by {
                    if j != i {
                        assert(entries(before)[j] == (before[j].0@, shape(before[j].1)));
                    }
                }
                lemma_entries_same(out@, want);
            }
            (Some(v), out)
        },
        None => (None, out),
    }
}

/// Setting a field twice comes to setting it the second time.
pub proof fn law_last_value_stays(es: Seq<(Seq<char>, Shape)>, k: Seq<char>, a: Shape, b: Shape)
    ensures
        with_field(with_field(es, k, a), k, b) == with_field(es, k, b),
{
    let once = with_field(es, k, a);
    lemma_spot_bounds(es, k);
    let i = spot(es, k);
    assert forall|j: int| 0 <= j < i implies (#[trigger] once[j]).0 != k by {
        assert(once[j] == es[j]);
    }
    lemma_spot(once, k, i);
    assert(with_field(once, k, b) =~= with_field(es, k, b));
}

impl Json {
    /// The value of a field.
    pub fn get(&self, key: &str) -> (r: Option<&Json>)
        ensures
            match r {
                Some(v) => field(self@, key@) == Some(v@),
                None => field(self@, key@) is None,
            },
    {
        match self {
            Json::Object(es) => {
                proof {
                    lemma_entries(es@);
                }
                match find_place(es, key) {
                    Some(i) => {
                        assert(entries(es@)[i as int] == (es@[i as int].0@, shape(es@[i as int].1)));
                        Some(&es[i].1)
                    },
                    None => None,
                }
            },
            _ => None,
        }
    }

    /// The whole number in a field.
    pub fn u64_at(&self, key: &str) -> (r: Option<u64>)
        ensures
            r == whole_at(self@, key@),
    {
        match self.get(key) {
            Some(Json::Number { text: _, unsigned }) => *unsigned,
            _ => None,
        }
    }

    /// The text in a field.
    pub fn str_at(&self, key: &str) -> (r: Option<&str>)
        ensures
            text::opt_str(r) == words_at(self@, key@),
    {
        match self.get(key) {
            Some(Json::Text(s)) => Some(s.as_str()),
            _ => None,
        }
    }

    /// The truth value in a field.
    pub fn bool_at(&self, key: &str) -> (r: Option<bool>)
        ensures
            r == truth_at(self@, key@),
    {
        match self.get(key) {
            Some(Json::Bool(b)) => Some(*b),
            _ => None,
        }
    }

    /// The list in a field.
    pub fn list_at(&self, key: &str) -> (r: Option<&Vec<Json>>)
        ensures
            match r {
                Some(v) => items_at(self@, key@) == Some(shapes(v@)),
                None => items_at(self@, key@) is None,
            },
    {
        match self.get(key) {
            Some(Json::List(a)) => Some(a),
            _ => None,
        }
    }
}

/// The place of a field lies at the first one that has its name.
proof fn lemma_spot_bounds(es: Seq<(Seq<char>, Shape)>, k: Seq<char>)
    ensures
        0 <= spot(es, k) <= es.len(),
        spot(es, k) < es.len() ==> es[spot(es, k)].0 == k,
        forall|j: int| 0 <= j < spot(es, k) ==> (#[trigger] es[j]).0 != k,
    decreases es.len(),
{
    if es.len() > 0 && es[0].0 != k {
        let rest = es.skip(1);
        lemma_spot_bounds(rest, k);
        assert forall|j: int| 0 <= j < spot(es, k) implies (#[trigger] es[j]).0 != k by {
            if j > 0 {
                assert(rest[j - 1] == es[j]);
            }
        }
        if spot(es, k) < es.len() {
            assert(rest[spot(rest, k)] == es[spot(es, k)]);
        }
    }
}

/// A field that is set has its value, and the others keep theirs.
pub proof fn law_one_field_set(es: Seq<(Seq<char>, Shape)>, k: Seq<char>, v: Shape, other: Seq<char>)
    requires
        other != k,
    ensures
        value_at(with_field(es, k, v), k) == v,
        value_at(with_field(es, k, v), other) == value_at(es, other),
{
    let now = with_field(es, k, v);
    lemma_spot_bounds(es, k);
    lemma_spot_bounds(es, other);
    let i = spot(es, k);
    let j = spot(es, other);
    assert forall|m: int| 0 <= m < i implies (#[trigger] now[m]).0 != k by {
        assert(now[m] == es[m]);
    }
    lemma_spot(now, k, i);
    let at: int = if j < es.len() {
        j
    } else {
        now.len() as int
    };
    assert forall|m: int| 0 <= m < at implies (#[trigger] now[m]).0 != other by {
        if m < es.len() && m != i {
            assert(now[m] == es[m]);
        }
    }
    lemma_spot(now, other, at);
}

/// A field that the other value does not have stays as it is when the two are merged.
pub proof fn law_merge_keeps(
    am: Seq<(Seq<char>, Shape)>,
    bm: Seq<(Seq<char>, Shape)>,
    n: int,
    k: Seq<char>,
)
    requires
        0 <= n <= bm.len(),
        forall|i: int| 0 <= i < n ==> (#[trigger] bm[i]).0 != k,
    ensures
        value_at(merged_run(am, bm, n), k) == value_at(am, k),
    decreases n,
{
    if n > 0 {
        law_merge_keeps(am, bm, n - 1, k);
        let so_far = merged_run(am, bm, n - 1);
        let name = bm[n - 1].0;
        law_one_field_set(so_far, name, merged(value_at(so_far, name), bm[n - 1].1), k);
    }
}

/// Puts the fields of a value into another.
pub fn merge_json(a: Json, b: Json) -> (r: Json)
    ensures
        r@ == merged(a@, b@),
    decreases b,
{
    match (a, b) {
        (Json::Object(am), Json::Object(bm)) => {
            let ghost orig = bm@;
            let ghost whole = b;
            let ghost start = entries(am@);
            let ghost given = entries(bm@);
            proof {
                lemma_entries(orig);
            }
            let mut left = bm;
            let mut back: Vec<(String, Json)> = Vec::new();
            while left.len() > 0
                invariant
                    left@.len() + back@.len() == orig.len(),
                    forall|i: int| 0 <= i < left@.len() ==> left@[i] == orig[i],
                    forall|i: int|
                        0 <= i < back@.len() ==> #[trigger] back@[i] == orig[orig.len() - 1 - i],
                decreases left@.len(),
            {
                match left.pop() {
                    Some(e) => {
                        back.push(e);
                    },
                    None => {},
                }
            }
            let mut out = am;
            let ghost mut n: int = 0;
            while back.len() > 0
                invariant
                    0 <= n <= orig.len(),
                    back@.len() == orig.len() - n,
                    forall|i: int|
                        0 <= i < back@.len() ==> #[trigger] back@[i] == orig[orig.len() - 1 - i],
                    given == entries(orig),
                    given.len() == orig.len(),
                    forall|i: int|
                        0 <= i < orig.len() ==> #[trigger] given[i] == (
                            orig[i].0@,
                            shape(orig[i].1),
                        ),
                    entries(out@) == merged_run(start, given, n),
                    whole == b,
                    b matches Json::Object(v) && v@ == orig,
                decreases back@.len(),
            {
                match back.pop() {
                    Some((k, v)) => {
                        let ghost before = out@;
                        assert((k, v) == orig[n]);
                        assert(given[n] == (k@, shape(v)));
                        proof {
                            lemma_entries(before);
                            assert(decreases_to!(b => v));
                        }
                        match find_place(&out, k.as_str()) {
                            Some(i) => {
                                let (name, was) = out.remove(i);
                                assert(entries(before)[i as int] == (name@, shape(was)));
                                let now = merge_json(was, v);
                                let ghost shown = now@;
                                out.insert(i, (name, now));
                                proof {
                                    let want = entries(before).update(i as int, (k@, shown));
                                    assert(out@ =~= before.update(i as int, (name, now)));
                                    assert forall|j: int| 0 <= j < out@.len() implies #[trigger] want[j]
                                        == (out@[j].0@, shape(out@[j].1)) by {
                                        if j != i {
                                            assert(entries(before)[j] == (
                                                before[j].0@,
                                                shape(before[j].1),
                                            ));
                                        }
                                    }
                                    lemma_entries_same(out@, want);
                                }
                            },
                            None => {
                                let now = merge_json(Json::Null, v);
                                let ghost shown = now@;
                                out.push((k, now));
                                proof {
                                    assert(out@.drop_last() =~= before);
                                    assert(entries(out@) =~= entries(before).push((k@, shown)));
                                }
                            },
                        }
                        proof {
                            n = n + 1;
                        }
                    },
                    None => {},
                }
            }
            Json::Object(out)
        },
        (_, other) => other,
    }
}

/// A value that may be missing.
pub open spec fn opt_view(j: Option<Json>) -> Option<Shape> {
    match j {
        Some(v) => Some(v@),
        None => None,
    }
}

/// The value that a text writes in JSON, or `None` where it writes none.
pub uninterp spec fn json_value(s: Seq<char>) -> Option<Shape>;

/// The text that writes a value in JSON.
pub uninterp spec fn json_text(j: Shape) -> Seq<char>;

/// The `Value` of the crate `serde_json`, which carries what was read.
#[verifier::external_type_specification]
#[verifier::external_body]
pub struct ExValue(serde_json::Value);

/// Turns a `Value` of the crate `serde_json` into a value of this module, one for
/// one: `Number::as_u64` tells whether a number is a whole one of 64 bits.
#[verifier::external_body]
fn from_value(v: serde_json::Value) -> (r: Json) {
    match v {
        serde_json::Value::Null => Json::Null,
        serde_json::Value::Bool(b) => Json::Bool(b),
        serde_json::Value::Number(n) => Json::Number { text: n.to_string(), unsigned: n.as_u64() },
        serde_json::Value::String(s) => Json::Text(s),
        serde_json::Value::Array(a) => Json::List(a.into_iter().map(from_value).collect()),
        serde_json::Value::Object(o) => {
            Json::Object(o.into_iter().map(|(k, x)| (k, from_value(x))).collect())
        },
    }
}

/// Turns a value of this module into a `Value` of the crate `serde_json`, one for
/// one.
#[verifier::external_body]
fn to_value(j: &Json) -> (r: serde_json::Value) {
    match j {
        Json::Null => serde_json::Value::Null,
        Json::Bool(b) => serde_json::Value::Bool(*b),
        Json::Number { text, unsigned: _ } => serde_json::from_str(text).unwrap_or_default(),
        Json::Text(s) => serde_json::Value::String(s.clone()),
        Json::List(a) => serde_json::Value::Array(a.iter().map(to_value).collect()),
        Json::Object(o) => {
            serde_json::Value::Object(o.iter().map(|(k, x)| (k.clone(), to_value(x))).collect())
        },
    }
}

/// `from_str` of the crate `serde_json` reads a `Value`. What it returns, or that
/// it fails, rests on the text alone.
#[verifier::external_body]
pub(crate) fn parse(s: &str) -> (r: Option<Json>)
    ensures
        opt_view(r) == json_value(s@),
{
    match serde_json::from_str::<serde_json::Value>(s) {
        Ok(v) => Some(from_value(v)),
        Err(_) => None,
    }
}

/// `to_string` of the crate `serde_json` writes a `Value`. What it returns rests
/// on the value alone.
#[verifier::external_body]
pub(crate) fn write(j: &Json) -> (r: String)
    ensures
        r@ == json_text(j@),
{
    to_value(j).to_string()
}

/// What an object holds under a key is the value of the first entry with that key, and
/// nothing where no entry has it. Nothing else than an object holds anything under a key.
pub proof fn law_fields_by_their_keys(es: Seq<(Seq<char>, Shape)>, k: Seq<char>, i: int)
    ensures
        0 <= i < es.len() && es[i].0 == k && (forall|j: int| 0 <= j < i ==> (#[trigger] es[j]).0 != k)
            ==> field(Shape::Object(es), k) == Some(es[i].1),
        (forall|j: int| 0 <= j < es.len() ==> (#[trigger] es[j]).0 != k) ==> field(
            Shape::Object(es),
            k,
        ) is None,
        forall|j: Shape| !(j is Object) ==> #[trigger] field(j, k) is None,
{
    if 0 <= i < es.len() && es[i].0 == k && (forall|j: int|
        0 <= j < i ==> (#[trigger] es[j]).0 != k) {
        lemma_spot(es, k, i);
    }
    lemma_spot_bounds(es, k);
}

/// A value is read as what it is and as nothing else.
pub proof fn law_what_a_value_is(
    j: Shape,
    k: Seq<char>,
    n: u64,
    s: Seq<char>,
    b: bool,
    a: Seq<Shape>,
)
    ensures
        field(j, k) == Some(Shape::Number(text::decimal(n as int), Some(n))) ==> whole_at(j, k)
            == Some(n),
        field(j, k) == Some(Shape::Text(s)) ==> words_at(j, k) == Some(s),
        field(j, k) == Some(Shape::Bool(b)) ==> truth_at(j, k) == Some(b),
        field(j, k) == Some(Shape::List(a)) ==> items_at(j, k) == Some(a),
        whole_shape(n as int) == Shape::Number(text::decimal(n as int), Some(n)),
        tenths_shape(n as int) == Shape::Number(
            text::decimal(n as int / 10) + "."@ + text::decimal(n as int % 10),
            None,
        ),
        field(j, k) is None || field(j, k) == Some(Shape::Null) ==> {
            &&& whole_at(j, k) is None
            &&& words_at(j, k) is None
            &&& truth_at(j, k) is None
            &&& items_at(j, k) is None
        },
{
}

/// What is laid over a value replaces it, but an object laid over an object replaces only
/// what stands under its own keys, each time in the same way.
pub proof fn law_laid_over(
    a: Shape,
    b: Shape,
    am: Seq<(Seq<char>, Shape)>,
    k: Seq<char>,
    v: Shape,
    other: Seq<char>,
)
    ensures
        !(a is Object) || !(b is Object) ==> merged(a, b) == b,
        merged(Shape::Object(am), Shape::Object(seq![])) == Shape::Object(am),
        merged(Shape::Object(am), Shape::Object(seq![(k, v)])) is Object,
        ({
            let r = merged(Shape::Object(am), Shape::Object(seq![(k, v)]))->Object_0;
            &&& value_at(r, k) == merged(value_at(am, k), v)
            &&& other != k ==> value_at(r, other) == value_at(am, other)
        }),
{
    let bm = seq![(k, v)];
    reveal_with_fuel(merged_run, 2);
    reveal_with_fuel(merged, 2);
    assert(bm[0] == (k, v));
    let w = merged(value_at(am, k), v);
    if other != k {
        law_one_field_set(am, k, w, other);
    }
    assert(k.push('x').len() != k.len());
    law_one_field_set(am, k, w, k.push('x'));
}

} // verus!
