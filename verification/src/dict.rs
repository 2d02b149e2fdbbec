//! A map from texts to values that is walked in the order of its keys, and the
//! exact copies that maps and lists are made of.

use vstd::prelude::*;
use vstd::utf8::*;
use crate::text::{lemma_encoding_is_one_to_one, same_text};

verus! {

// ── copies ──────────────────────────────────────────────────────────────

/// A type whose values can be copied so that nothing shows in the view.
pub trait Copied: View + Sized {
    /// A copy with the same view.
    fn copied(&self) -> (r: Self)
        ensures
            r@ == self@,
    ;
}

impl Copied for String {
    fn copied(&self) -> (r: Self) {
        self.clone()
    }
}

/// The views of a sequence of values.
pub open spec fn views<T: View>(items: Seq<T>) -> Seq<T::V> {
    Seq::new(items.len(), |i: int| items[i]@)
}

/// A copy of each of `items`.
pub fn copied_all<T: Copied>(items: &Vec<T>) -> (r: Vec<T>)
    ensures
        views(r@) == views(items@),
{
    let mut r: Vec<T> = Vec::new();
    let mut i: usize = 0;
    while i < items.len()
        invariant
            i <= items@.len(),
            r@.len() == i,
            forall|k: int| 0 <= k < i ==> (#[trigger] r@[k])@ == items@[k]@,
        decreases items@.len() - i,
    {
        r.push(items[i].copied());
        i = i + 1;
    }
    assert(views(r@) =~= views(items@));
    r
}

// ── lists ───────────────────────────────────────────────────────────────

/// Whether `i` is the first place in `items` that `pred` holds of.
pub open spec fn is_first<A>(items: Seq<A>, pred: spec_fn(A) -> bool, i: int) -> bool {
    &&& 0 <= i < items.len()
    &&& pred(items[i])
    &&& forall|k: int| 0 <= k < i ==> !pred(#[trigger] items[k])
}

/// The first of `items` that `pred` holds of.
pub open spec fn first_where<A>(items: Seq<A>, pred: spec_fn(A) -> bool) -> Option<A>
    decreases items.len(),
{
    if items.len() == 0 {
        None
    } else if pred(items[0]) {
        Some(items[0])
    } else {
        first_where(items.drop_first(), pred)
    }
}

/// `items` with the first one that `pred` holds of changed by `change`.
pub open spec fn change_first<A>(items: Seq<A>, pred: spec_fn(A) -> bool, change: spec_fn(A) -> A) -> Seq<A>
    decreases items.len(),
{
    if items.len() == 0 {
        items
    } else if pred(items[0]) {
        items.update(0, change(items[0]))
    } else {
        seq![items[0]] + change_first(items.drop_first(), pred, change)
    }
}

/// The first item that `pred` holds of is what a search finds, and what a change
/// changes.
pub proof fn lemma_first_where<A>(items: Seq<A>, pred: spec_fn(A) -> bool, change: spec_fn(A) -> A, i: int)
    requires
        is_first(items, pred, i),
    ensures
        first_where(items, pred) == Some(items[i]),
        change_first(items, pred, change) == items.update(i, change(items[i])),
    decreases items.len(),
{
    if i > 0 {
        let rest = items.drop_first();
        assert(!pred(items[0]));
        assert forall|k: int| 0 <= k < i - 1 implies !pred(#[trigger] rest[k]) by {
            assert(!pred(items[k + 1]));
        }
        lemma_first_where(rest, pred, change, i - 1);
        assert(change_first(items, pred, change) =~= items.update(i, change(items[i])));
    }
}

/// Where `pred` holds of nothing, a search finds nothing, and a change changes
/// nothing.
pub proof fn lemma_none_where<A>(items: Seq<A>, pred: spec_fn(A) -> bool, change: spec_fn(A) -> A)
    requires
        forall|k: int| 0 <= k < items.len() ==> !pred(#[trigger] items[k]),
    ensures
        first_where(items, pred) is None,
        change_first(items, pred, change) == items,
    decreases items.len(),
{
    if items.len() > 0 {
        let rest = items.drop_first();
        assert forall|k: int| 0 <= k < rest.len() implies !pred(#[trigger] rest[k]) by {
            assert(!pred(items[k + 1]));
        }
        assert(!pred(items[0]));
        lemma_none_where(rest, pred, change);
        assert(change_first(items, pred, change) =~= items);
    }
}

/// A search finds the first item that `pred` holds of.
pub proof fn lemma_first<A>(items: Seq<A>, pred: spec_fn(A) -> bool, k: int)
    requires
        0 <= k < items.len(),
        pred(items[k]),
        forall|j: int| 0 <= j < k ==> !pred(#[trigger] items[j]),
    ensures
        first_where(items, pred) == Some(items[k]),
    decreases k,
{
    if k > 0 {
        assert(!pred(items[0]));
        let rest = items.drop_first();
        assert forall|j: int| 0 <= j < k - 1 implies !pred(#[trigger] rest[j]) by {
            assert(!pred(items[j + 1]));
        }
        lemma_first(rest, pred, k - 1);
    }
}

/// The first item that `pred` holds of is the only one to change.
pub proof fn lemma_changed<A>(items: Seq<A>, pred: spec_fn(A) -> bool, change: spec_fn(A) -> A, k: int)
    requires
        0 <= k < items.len(),
        pred(items[k]),
        forall|j: int| 0 <= j < k ==> !pred(#[trigger] items[j]),
    ensures
        change_first(items, pred, change) == items.update(k, change(items[k])),
    decreases k,
{
    if k == 0 {
        assert(change_first(items, pred, change) =~= items.update(0, change(items[0])));
    } else {
        assert(!pred(items[0]));
        let rest = items.drop_first();
        assert forall|j: int| 0 <= j < k - 1 implies !pred(#[trigger] rest[j]) by {
            assert(!pred(items[j + 1]));
        }
        lemma_changed(rest, pred, change, k - 1);
        assert(change_first(items, pred, change) =~= items.update(k, change(items[k])));
    }
}

/// Where `pred` holds of no item, none changes.
pub proof fn lemma_unchanged<A>(items: Seq<A>, pred: spec_fn(A) -> bool, change: spec_fn(A) -> A)
    requires
        forall|j: int| 0 <= j < items.len() ==> !pred(#[trigger] items[j]),
    ensures
        change_first(items, pred, change) == items,
    decreases items.len(),
{
    if items.len() > 0 {
        assert(!pred(items[0]));
        let rest = items.drop_first();
        assert forall|j: int| 0 <= j < rest.len() implies !pred(#[trigger] rest[j]) by {
            assert(!pred(items[j + 1]));
        }
        lemma_unchanged(rest, pred, change);
        assert(change_first(items, pred, change) =~= items);
    }
}

/// A search that `pred` holds of no item for finds nothing.
pub proof fn lemma_none<A>(items: Seq<A>, pred: spec_fn(A) -> bool)
    requires
        forall|j: int| 0 <= j < items.len() ==> !pred(#[trigger] items[j]),
    ensures
        first_where(items, pred) is None,
{
    lemma_found(items, pred);
    if let Some(item) = first_where(items, pred) {
        assert(!pred(items[items.index_of(item)]));
    }
}

/// What a search finds is one of the items, and `pred` holds of it.
pub proof fn lemma_found<A>(items: Seq<A>, pred: spec_fn(A) -> bool)
    ensures
        first_where(items, pred) matches Some(item) ==> pred(item) && items.contains(item),
        first_where(items, pred) is None ==> forall|k: int| 0 <= k < items.len() ==> !pred(#[trigger] items[k]),
    decreases items.len(),
{
    if items.len() > 0 {
        if pred(items[0]) {
            assert(items.contains(items[0]));
        } else {
            let rest = items.drop_first();
            lemma_found(rest, pred);
            if let Some(item) = first_where(rest, pred) {
                let k = rest.index_of(item);
                assert(items[k + 1] == item);
            } else {
                assert forall|k: int| 0 <= k < items.len() implies !pred(#[trigger] items[k]) by {
                    if k > 0 {
                        assert(!pred(rest[k - 1]));
                    }
                }
            }
        }
    }
}

/// A filter that every item passes keeps the sequence.
pub proof fn lemma_filter_keeps_all<A>(s: Seq<A>, pred: spec_fn(A) -> bool)
    requires
        forall|i: int| 0 <= i < s.len() ==> pred(#[trigger] s[i]),
    ensures
        s.filter(pred) == s,
    decreases s.len(),
{
    reveal(Seq::filter);
    if s.len() > 0 {
        let short = s.drop_last();
        assert forall|i: int| 0 <= i < short.len() implies pred(#[trigger] short[i]) by {
            assert(pred(s[i]));
        }
        lemma_filter_keeps_all(short, pred);
        assert(pred(s[s.len() - 1]));
    }
    assert(s.filter(pred) =~= s);
}

/// A filter on one item keeps it, or leaves nothing.
pub proof fn lemma_filter_one<A>(item: A, pred: spec_fn(A) -> bool)
    ensures
        seq![item].filter(pred) == (if pred(item) {
            seq![item]
        } else {
            Seq::empty()
        }),
{
    reveal_with_fuel(Seq::filter, 2);
    assert(seq![item].drop_last() =~= Seq::empty());
    assert(seq![item].filter(pred) =~= (if pred(item) {
        seq![item]
    } else {
        Seq::empty()
    }));
}

/// A filter does not see an item taken out that does not pass it.
pub proof fn lemma_filter_skips<A>(s: Seq<A>, i: int, pred: spec_fn(A) -> bool)
    requires
        0 <= i < s.len(),
        !pred(s[i]),
    ensures
        s.remove(i).filter(pred) == s.filter(pred),
{
    let a = s.take(i);
    let b = s.skip(i + 1);
    let m = seq![s[i]];
    assert(s =~= a + m + b);
    assert(s.remove(i) =~= a + b);
    Seq::filter_distributes_over_add(a + m, b, pred);
    Seq::filter_distributes_over_add(a, m, pred);
    Seq::filter_distributes_over_add(a, b, pred);
    lemma_filter_one(s[i], pred);
    assert(a.filter(pred) + m.filter(pred) =~= a.filter(pred));
}

/// What a filter leaves was there before, and passes.
pub proof fn lemma_filtered<A>(s: Seq<A>, pred: spec_fn(A) -> bool)
    ensures
        forall|i: int|
            0 <= i < s.filter(pred).len() ==> s.contains(#[trigger] s.filter(pred)[i]) && pred(s.filter(pred)[i]),
        forall|i: int| 0 <= i < s.len() && pred(#[trigger] s[i]) ==> s.filter(pred).contains(s[i]),
    decreases s.len(),
{
    reveal(Seq::filter);
    if s.len() > 0 {
        let short = s.drop_last();
        lemma_filtered(short, pred);
        let f = s.filter(pred);
        let g = short.filter(pred);
        assert forall|i: int| 0 <= i < f.len() implies s.contains(#[trigger] f[i]) && pred(f[i]) by {
            if i < g.len() {
                assert(short.contains(g[i]));
                let k = short.index_of(g[i]);
                assert(s[k] == g[i]);
            } else {
                assert(f[i] == s.last());
            }
        }
        assert forall|i: int| 0 <= i < s.len() && pred(#[trigger] s[i]) implies f.contains(s[i]) by {
            if i < short.len() {
                assert(short[i] == s[i]);
                assert(g.contains(s[i]));
                let k = g.index_of(s[i]);
                assert(f[k] == s[i]);
            } else {
                assert(f[f.len() - 1] == s[i]);
            }
        }
    }
}

/// The first place in `items` that `wanted` accepts. `pred` is what it accepts.
pub(crate) fn find_first<T: View, F: Fn(&T) -> bool>(
    items: &Vec<T>,
    wanted: F,
    Ghost(pred): Ghost<spec_fn(T::V) -> bool>,
) -> (r: Option<usize>)
    requires
        forall|t: &T| call_requires(wanted, (t,)),
        forall|t: &T, b: bool| call_ensures(wanted, (t,), b) ==> b == pred(t@),
    ensures
        match r {
            Some(i) => is_first(views(items@), pred, i as int) && first_where(views(items@), pred) == Some(
                items@[i as int]@,
            ),
            None => first_where(views(items@), pred) is None && forall|k: int|
                0 <= k < items@.len() ==> !pred(#[trigger] views(items@)[k]),
        },
{
    let ghost same = |v: T::V| v;
    let mut i: usize = 0;
    while i < items.len()
        invariant
            i <= items@.len(),
            forall|t: &T| call_requires(wanted, (t,)),
            forall|t: &T, b: bool| call_ensures(wanted, (t,), b) ==> b == pred(t@),
            forall|k: int| 0 <= k < i ==> !pred(#[trigger] views(items@)[k]),
        decreases items@.len() - i,
    {
        assert(views(items@)[i as int] == items@[i as int]@);
        if wanted(&items[i]) {
            proof {
                lemma_first_where(views(items@), pred, same, i as int);
            }
            return Some(i);
        }
        i = i + 1;
    }
    proof {
        lemma_none_where(views(items@), pred, same);
    }
    None
}

/// How many of `items` are accepted by `wanted`. `pred` is what it accepts.
pub(crate) fn count_where<T: View, F: Fn(&T) -> bool>(
    items: &Vec<T>,
    wanted: F,
    Ghost(pred): Ghost<spec_fn(T::V) -> bool>,
) -> (r: usize)
    requires
        forall|t: &T| call_requires(wanted, (t,)),
        forall|t: &T, b: bool| call_ensures(wanted, (t,), b) ==> b == pred(t@),
    ensures
        r == views(items@).filter(pred).len(),
{
    let ghost all = views(items@);
    let mut i: usize = 0;
    let mut n: usize = 0;
    proof {
        reveal(Seq::filter);
        assert(all.take(0) =~= Seq::empty());
    }
    while i < items.len()
        invariant
            i <= items@.len(),
            all == views(items@),
            forall|t: &T| call_requires(wanted, (t,)),
            forall|t: &T, b: bool| call_ensures(wanted, (t,), b) ==> b == pred(t@),
            n == all.take(i as int).filter(pred).len(),
            n <= i,
        decreases items@.len() - i,
    {
        proof {
            reveal(Seq::filter);
            assert(all.take(i + 1).drop_last() =~= all.take(i as int));
            assert(all.take(i + 1).last() == items@[i as int]@);
        }
        if wanted(&items[i]) {
            n = n + 1;
        }
        i = i + 1;
    }
    assert(all.take(i as int) =~= all);
    n
}

/// Drops the items that `keep` does not accept. `pred` is what it accepts.
pub(crate) fn retain<T: View, F: Fn(&T) -> bool>(
    items: &mut Vec<T>,
    keep: F,
    Ghost(pred): Ghost<spec_fn(T::V) -> bool>,
)
    requires
        forall|t: &T| call_requires(keep, (t,)),
        forall|t: &T, b: bool| call_ensures(keep, (t,), b) ==> b == pred(t@),
    ensures
        views(final(items)@) == views(old(items)@).filter(pred),
{
    let ghost before = views(items@);
    let mut i: usize = 0;
    while i < items.len()
        invariant
            i <= items@.len(),
            forall|t: &T| call_requires(keep, (t,)),
            forall|t: &T, b: bool| call_ensures(keep, (t,), b) ==> b == pred(t@),
            views(items@).filter(pred) == before.filter(pred),
            forall|k: int| 0 <= k < i ==> pred(#[trigger] views(items@)[k]),
        decreases items@.len() - i,
    {
        assert(views(items@)[i as int] == items@[i as int]@);
        if keep(&items[i]) {
            i = i + 1;
        } else {
            let ghost was = views(items@);
            proof {
                lemma_filter_skips(was, i as int, pred);
            }
            let _ = items.remove(i);
            proof {
                assert(views(items@) =~= was.remove(i as int));
                assert forall|k: int| 0 <= k < i implies pred(#[trigger] views(items@)[k]) by {
                    assert(pred(was[k]));
                }
            }
        }
    }
    proof {
        lemma_filter_keeps_all(views(items@), pred);
    }
}

/// Whether `texts` hold `s`.
pub fn contains_text(texts: &Vec<String>, s: &str) -> (r: bool)
    ensures
        r == views(texts@).contains(s@),
{
    let ghost pred = |t: Seq<char>| t == s@;
    let found = find_first(
        texts,
        |t: &String| -> (b: bool) ensures b == (t@ == s@) { same_text(t.as_str(), s) },
        Ghost(pred),
    );
    proof {
        if let Some(i) = found {
            assert(views(texts@)[i as int] == s@);
        } else if views(texts@).contains(s@) {
            let k = views(texts@).index_of(s@);
            assert(!pred(views(texts@)[k]));
        }
    }
    found.is_some()
}

// ── the order of texts ──────────────────────────────────────────────────

/// Whether the bytes `a` come before the bytes `b`, as words in a dictionary.
pub open spec fn bytes_before(a: Seq<u8>, b: Seq<u8>) -> bool
    decreases a.len(),
{
    if b.len() == 0 {
        false
    } else if a.len() == 0 {
        true
    } else {
        a[0] < b[0] || (a[0] == b[0] && bytes_before(a.drop_first(), b.drop_first()))
    }
}

/// Whether the text `a` comes before the text `b`: by their bytes.
pub open spec fn text_before(a: Seq<char>, b: Seq<char>) -> bool {
    bytes_before(encode_utf8(a), encode_utf8(b))
}

/// How two texts stand to each other.
#[derive(Clone, Copy, Debug, PartialEq, Eq, Structural)]
pub enum Rank {
    Before,
    Same,
    After,
}

proof fn lemma_not_before_self(a: Seq<u8>)
    ensures
        !bytes_before(a, a),
    decreases a.len(),
{
    if a.len() > 0 {
        lemma_not_before_self(a.drop_first());
    }
}

proof fn lemma_before_is_transitive(a: Seq<u8>, b: Seq<u8>, c: Seq<u8>)
    requires
        bytes_before(a, b),
        bytes_before(b, c),
    ensures
        bytes_before(a, c),
    decreases a.len(),
{
    if a.len() > 0 && a[0] == b[0] && b[0] == c[0] {
        lemma_before_is_transitive(a.drop_first(), b.drop_first(), c.drop_first());
    }
}

/// Skipping what two words have in common does not change their order.
proof fn lemma_before_past_prefix(a: Seq<u8>, b: Seq<u8>, n: int)
    requires
        0 <= n <= a.len(),
        n <= b.len(),
        a.take(n) == b.take(n),
    ensures
        bytes_before(a, b) == bytes_before(a.skip(n), b.skip(n)),
    decreases n,
{
    if n == 0 {
        assert(a.skip(0) =~= a);
        assert(b.skip(0) =~= b);
    } else {
        let a1 = a.drop_first();
        let b1 = b.drop_first();
        assert(a[0] == a.take(n)[0]);
        assert(b[0] == b.take(n)[0]);
        assert(a1.take(n - 1) =~= a.take(n).drop_first());
        assert(b1.take(n - 1) =~= b.take(n).drop_first());
        lemma_before_past_prefix(a1, b1, n - 1);
        assert(a1.skip(n - 1) =~= a.skip(n));
        assert(b1.skip(n - 1) =~= b.skip(n));
    }
}

/// How `a` stands to `b` in the order of texts.
pub fn rank(a: &str, b: &str) -> (r: Rank)
    ensures
        r == Rank::Before <==> text_before(a@, b@),
        r == Rank::Same <==> a@ == b@,
        r == Rank::After <==> text_before(b@, a@),
{
    let x: &[u8] = a.as_bytes();
    let y: &[u8] = b.as_bytes();
    let mut i: usize = 0;
    while i < x.len() && i < y.len() && x[i] == y[i]
        invariant
            i <= x@.len(),
            i <= y@.len(),
            x@.take(i as int) == y@.take(i as int),
        decreases x@.len() - i,
    {
        assert(x@.take(i + 1) =~= x@.take(i as int).push(x@[i as int]));
        assert(y@.take(i + 1) =~= y@.take(i as int).push(y@[i as int]));
        i = i + 1;
    }
    proof {
        lemma_before_past_prefix(x@, y@, i as int);
        lemma_before_past_prefix(y@, x@, i as int);
        lemma_not_before_self(x@);
        if i == x@.len() && i == y@.len() {
            assert(x@.take(i as int) =~= x@);
            assert(y@.take(i as int) =~= y@);
            lemma_encoding_is_one_to_one(a@, b@);
        }
    }
    if i == x.len() && i == y.len() {
        Rank::Same
    } else if i == x.len() {
        Rank::Before
    } else if i == y.len() {
        Rank::After
    } else if x[i] < y[i] {
        Rank::Before
    } else {
        Rank::After
    }
}

/// Whether the texts of `keys` stand in order, none twice.
pub open spec fn in_order(keys: Seq<Seq<char>>) -> bool {
    forall|i: int, j: int| 0 <= i < j < keys.len() ==> text_before(#[trigger] keys[i], #[trigger] keys[j])
}

/// Texts in order are all different.
pub proof fn lemma_in_order_differ(keys: Seq<Seq<char>>, i: int, j: int)
    requires
        in_order(keys),
        0 <= i < keys.len(),
        0 <= j < keys.len(),
        keys[i] == keys[j],
    ensures
        i == j,
{
    lemma_not_before_self(encode_utf8(keys[i]));
}

// ── the map ─────────────────────────────────────────────────────────────

#[derive(Debug, PartialEq)]
struct Entry<V> {
    key: String,
    value: V,
}

/// A map from texts to values.
#[derive(Debug, PartialEq)]
pub struct Dict<V> {
    entries: Vec<Entry<V>>,
}

impl<V> Dict<V> {
    /// The keys, in order.
    pub closed spec fn keys_in_order(&self) -> Seq<Seq<char>> {
        Seq::new(self.entries@.len(), |i: int| self.entries@[i].key@)
    }

    #[verifier::type_invariant]
    closed spec fn inv(&self) -> bool {
        in_order(self.keys_in_order())
    }
}

impl<V: View> View for Dict<V> {
    type V = Map<Seq<char>, V::V>;

    closed spec fn view(&self) -> Map<Seq<char>, V::V> {
        let keys = self.keys_in_order();
        Map::new(|k: Seq<char>| keys.contains(k), |k: Seq<char>| self.entries@[keys.index_of(k)].value@)
    }
}

impl<V: View> Dict<V> {
    proof fn lemma_at(&self, i: int)
        requires
            self.inv(),
            0 <= i < self.entries@.len(),
        ensures
            self@.dom().contains(self.entries@[i].key@),
            self@[self.entries@[i].key@] == self.entries@[i].value@,
    {
        let keys = self.keys_in_order();
        let k = self.entries@[i].key@;
        assert(keys[i] == k);
        assert(keys.contains(k));
        let j = keys.index_of(k);
        lemma_in_order_differ(keys, i, j);
    }

    pub fn new() -> (r: Self)
        ensures
            r@ == Map::<Seq<char>, V::V>::empty(),
    {
        let r = Dict { entries: Vec::new() };
        assert(r@ =~= Map::<Seq<char>, V::V>::empty());
        r
    }

    /// The keys, in order, are those of the view.
    pub proof fn lemma_keys(&self)
        requires
            in_order(self.keys_in_order()),
        ensures
            self.keys_in_order().to_set() == self@.dom(),
            self@.dom().finite(),
            self@.dom().len() == self.keys_in_order().len(),
    {
        let keys = self.keys_in_order();
        assert(keys.to_set() =~= self@.dom());
        assert forall|i: int, j: int| 0 <= i < keys.len() && 0 <= j < keys.len() && i != j implies keys[i] != keys[j] by {
            if keys[i] == keys[j] {
                lemma_in_order_differ(keys, i, j);
            }
        }
        keys.unique_seq_to_set();
    }

    pub fn len(&self) -> (r: usize)
        ensures
            r == self@.dom().len(),
            self@.dom().finite(),
    {
        proof {
            use_type_invariant(self);
            self.lemma_keys();
        }
        self.entries.len()
    }

    pub fn is_empty(&self) -> (r: bool)
        ensures
            r == (self@ == Map::<Seq<char>, V::V>::empty()),
    {
        proof {
            if self.entries@.len() == 0 {
                assert(self@ =~= Map::<Seq<char>, V::V>::empty());
            } else {
                assert(self.keys_in_order().contains(self.keys_in_order()[0]));
                assert(self@.dom().contains(self.keys_in_order()[0]));
            }
        }
        self.entries.len() == 0
    }

    /// The keys, in order.
    pub fn keys(&self) -> (r: Vec<String>)
        ensures
            in_order(views(r@)),
            views(r@).to_set() == self@.dom(),
    {
        proof {
            use_type_invariant(self);
            self.lemma_keys();
        }
        let mut r: Vec<String> = Vec::new();
        let mut i: usize = 0;
        while i < self.entries.len()
            invariant
                i <= self.entries@.len(),
                r@.len() == i,
                forall|k: int| 0 <= k < i ==> (#[trigger] r@[k])@ == self.entries@[k].key@,
            decreases self.entries@.len() - i,
        {
            r.push(self.entries[i].key.clone());
            i = i + 1;
        }
        assert(views(r@) =~= self.keys_in_order());
        r
    }

    /// The place of `key`, or the place that it would have.
    fn find(&self, key: &str) -> (r: (bool, usize))
        requires
            self.inv(),
        ensures
            r.0 == self@.dom().contains(key@),
            r.1 <= self.entries@.len(),
            r.0 ==> r.1 < self.entries@.len() && self.entries@[r.1 as int].key@ == key@
                && self.entries@[r.1 as int].value@ == self@[key@],
            !r.0 ==> {
                &&& forall|k: int| 0 <= k < r.1 ==> text_before(#[trigger] self.keys_in_order()[k], key@)
                &&& forall|k: int|
                    r.1 <= k < self.entries@.len() ==> text_before(key@, #[trigger] self.keys_in_order()[k])
            },
    {
        let ghost keys = self.keys_in_order();
        let mut i: usize = 0;
        while i < self.entries.len()
            invariant
                i <= self.entries@.len(),
                self.inv(),
                keys == self.keys_in_order(),
                forall|k: int| 0 <= k < i ==> text_before(#[trigger] keys[k], key@),
            decreases self.entries@.len() - i,
        {
            let place = rank(self.entries[i].key.as_str(), key);
            assert(keys[i as int] == self.entries@[i as int].key@);
            match place {
                Rank::Same => {
                    proof {
                        self.lemma_at(i as int);
                    }
                    return (true, i);
                },
                Rank::After => {
                    proof {
                        self.lemma_absent(key@, i as int);
                    }
                    return (false, i);
                },
                Rank::Before => {},
            }
            i = i + 1;
        }
        proof {
            self.lemma_absent(key@, i as int);
        }
        (false, i)
    }

    proof fn lemma_absent(&self, key: Seq<char>, at: int)
        requires
            self.inv(),
            0 <= at <= self.entries@.len(),
            forall|k: int| 0 <= k < at ==> text_before(#[trigger] self.keys_in_order()[k], key),
            at < self.entries@.len() ==> text_before(key, self.keys_in_order()[at]),
        ensures
            !self@.dom().contains(key),
            forall|k: int| at <= k < self.entries@.len() ==> text_before(key, #[trigger] self.keys_in_order()[k]),
    {
        let keys = self.keys_in_order();
        assert forall|k: int| at <= k < self.entries@.len() implies text_before(key, #[trigger] keys[k]) by {
            if k > at {
                lemma_before_is_transitive(encode_utf8(key), encode_utf8(keys[at]), encode_utf8(keys[k]));
            }
        }
        if keys.contains(key) {
            let k = keys.index_of(key);
            assert(keys[k] == key);
            lemma_not_before_self(encode_utf8(key));
            assert(false);
        }
    }

    pub fn contains_key(&self, key: &str) -> (r: bool)
        ensures
            r == self@.dom().contains(key@),
    {
        proof {
            use_type_invariant(self);
        }
        self.find(key).0
    }

    pub fn get(&self, key: &str) -> (r: Option<&V>)
        ensures
            match r {
                Some(v) => self@.dom().contains(key@) && v@ == self@[key@],
                None => !self@.dom().contains(key@),
            },
    {
        proof {
            use_type_invariant(self);
        }
        let (found, i): (bool, usize) = self.find(key);
        if found {
            Some(&self.entries[i].value)
        } else {
            None
        }
    }

    /// Takes the value of `key` out.
    pub fn remove(&mut self, key: &str) -> (r: Option<V>)
        ensures
            match r {
                Some(v) => old(self)@.dom().contains(key@) && v@ == old(self)@[key@] && final(self)@ == old(
                    self,
                )@.remove(key@),
                None => !old(self)@.dom().contains(key@) && final(self)@ == old(self)@,
            },
    {
        proof {
            use_type_invariant(&*self);
        }
        let (found, i): (bool, usize) = self.find(key);
        if !found {
            return None;
        }
        let ghost before = *self;
        let mut entries: Vec<Entry<V>> = Vec::new();
        std::mem::swap(&mut entries, &mut self.entries);
        let entry = entries.remove(i);
        proof {
            let keys = Seq::new(entries@.len(), |k: int| entries@[k].key@);
            assert(keys =~= before.keys_in_order().remove(i as int));
            assert(in_order(keys)) by {
                assert forall|a: int, b: int| 0 <= a < b < keys.len() implies text_before(
                    #[trigger] keys[a],
                    #[trigger] keys[b],
                ) by {
                    let a0 = if a < i {
                        a
                    } else {
                        a + 1
                    };
                    let b0 = if b < i {
                        b
                    } else {
                        b + 1
                    };
                    assert(text_before(before.keys_in_order()[a0], before.keys_in_order()[b0]));
                }
            }
        }
        self.entries = entries;
        proof {
            assert(self@ =~= before@.remove(key@)) by {
                assert forall|k: Seq<char>| self@.dom().contains(k) == before@.remove(key@).dom().contains(k) by {
                    if self@.dom().contains(k) {
                        let j = self.keys_in_order().index_of(k);
                        let j0 = if j < i {
                            j
                        } else {
                            j + 1
                        };
                        before.lemma_at(j0);
                        if k == key@ {
                            lemma_in_order_differ(before.keys_in_order(), j0, i as int);
                        }
                    }
                    if before@.dom().contains(k) && k != key@ {
                        let j0 = before.keys_in_order().index_of(k);
                        let j = if j0 < i {
                            j0
                        } else {
                            j0 - 1
                        };
                        self.lemma_at(j);
                    }
                }
                assert forall|k: Seq<char>| self@.dom().contains(k) implies self@[k] == before@.remove(key@)[k] by {
                    let j = self.keys_in_order().index_of(k);
                    let j0 = if j < i {
                        j
                    } else {
                        j + 1
                    };
                    self.lemma_at(j);
                    before.lemma_at(j0);
                }
            }
        }
        Some(entry.value)
    }

    /// Gives `key` the value `value`.
    pub fn insert(&mut self, key: String, value: V)
        ensures
            final(self)@ == old(self)@.insert(key@, value@),
    {
        let _ = self.remove(key.as_str());
        proof {
            use_type_invariant(&*self);
        }
        let ghost before = *self;
        let (_, i): (bool, usize) = self.find(key.as_str());
        let mut entries: Vec<Entry<V>> = Vec::new();
        std::mem::swap(&mut entries, &mut self.entries);
        let ghost entry = Entry { key, value };
        entries.insert(i, Entry { key, value });
        proof {
            let keys = Seq::new(entries@.len(), |k: int| entries@[k].key@);
            let was = before.keys_in_order();
            assert(keys =~= was.insert(i as int, key@));
            assert(in_order(keys)) by {
                assert forall|a: int, b: int| 0 <= a < b < keys.len() implies text_before(
                    #[trigger] keys[a],
                    #[trigger] keys[b],
                ) by {
                    let a0 = if a < i {
                        a
                    } else {
                        a - 1
                    };
                    let b0 = if b < i {
                        b
                    } else {
                        b - 1
                    };
                    if a != i && b != i {
                        assert(text_before(was[a0], was[b0]));
                    } else if a == i {
                        assert(text_before(key@, was[b0]));
                    } else {
                        assert(text_before(was[a0], key@));
                    }
                }
            }
        }
        self.entries = entries;
        proof {
            self.lemma_at(i as int);
            assert(self@ =~= before@.insert(key@, value@)) by {
                assert forall|k: Seq<char>| self@.dom().contains(k) == before@.insert(key@, value@).dom().contains(
                    k,
                ) by {
                    if self@.dom().contains(k) && k != key@ {
                        let j = self.keys_in_order().index_of(k);
                        let j0 = if j < i {
                            j
                        } else {
                            j - 1
                        };
                        before.lemma_at(j0);
                    }
                    if before@.dom().contains(k) {
                        let j0 = before.keys_in_order().index_of(k);
                        let j = if j0 < i {
                            j0
                        } else {
                            j0 + 1
                        };
                        self.lemma_at(j);
                    }
                }
                assert forall|k: Seq<char>| self@.dom().contains(k) implies self@[k] == before@.insert(
                    key@,
                    value@,
                )[k] by {
                    if k != key@ {
                        let j = self.keys_in_order().index_of(k);
                        let j0 = if j < i {
                            j
                        } else {
                            j - 1
                        };
                        self.lemma_at(j);
                        before.lemma_at(j0);
                    }
                }
            }
        }
    }
}

impl<V: Copied> Copied for Dict<V> {
    fn copied(&self) -> (r: Self) {
        proof {
            use_type_invariant(self);
        }
        let mut r: Dict<V> = Dict::new();
        let mut i: usize = 0;
        while i < self.entries.len()
            invariant
                i <= self.entries@.len(),
                self.inv(),
                forall|k: Seq<char>| #[trigger]
                    r@.dom().contains(k) <==> exists|j: int| 0 <= j < i && #[trigger] self.keys_in_order()[j] == k,
                forall|k: Seq<char>| #[trigger] r@.dom().contains(k) ==> r@[k] == self@[k],
            decreases self.entries@.len() - i,
        {
            proof {
                self.lemma_at(i as int);
                assert(self.keys_in_order()[i as int] == self.entries@[i as int].key@);
            }
            let ghost was = r@;
            r.insert(self.entries[i].key.clone(), self.entries[i].value.copied());
            i = i + 1;
            proof {
                assert forall|k: Seq<char>| #[trigger]
                    r@.dom().contains(k) <==> exists|j: int| 0 <= j < i && #[trigger] self.keys_in_order()[j] == k by {
                    if was.dom().contains(k) {
                        let j = choose|j: int| 0 <= j < i - 1 && #[trigger] self.keys_in_order()[j] == k;
                        assert(self.keys_in_order()[j] == k);
                    }
                }
            }
        }
        proof {
            assert(r@ =~= self@) by {
                assert forall|k: Seq<char>| self@.dom().contains(k) == r@.dom().contains(k) by {
                    if self@.dom().contains(k) {
                        let j = self.keys_in_order().index_of(k);
                        assert(self.keys_in_order()[j] == k);
                    }
                    if r@.dom().contains(k) {
                        let j = choose|j: int| 0 <= j < i && #[trigger] self.keys_in_order()[j] == k;
                        assert(self.keys_in_order().contains(k));
                    }
                }
            }
        }
        r
    }
}

impl<V: Copied> Clone for Dict<V> {
    fn clone(&self) -> (r: Self)
        ensures
            r@ == self@,
    {
        self.copied()
    }
}

} // verus!
