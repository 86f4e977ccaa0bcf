//! Sets and maps of texts that keep their members in order.
//!
//! Texts are ordered lexicographically by their characters. A [`StringSet`]
//! holds no text twice and a [`StringMap`] no key twice; both hand out their
//! members from the least to the greatest.

use vstd::prelude::*;

use crate::text;
use crate::text::{chars_of, same_text};

verus! {

/// Whether `a` comes before `b` in lexicographic order.
pub open spec fn lex_lt(a: Seq<char>, b: Seq<char>) -> bool
    decreases a.len(),
{
    if b.len() == 0 {
        false
    } else if a.len() == 0 {
        true
    } else if a[0] != b[0] {
        a[0] < b[0]
    } else {
        lex_lt(a.drop_first(), b.drop_first())
    }
}

/// Whether each text of `keys` comes before every later one.
pub open spec fn strictly_sorted(keys: Seq<Seq<char>>) -> bool {
    forall|i: int, j: int| 0 <= i < j < keys.len() ==> lex_lt(#[trigger] keys[i], #[trigger] keys[j])
}

/// No text comes before itself.
pub proof fn lemma_lex_irreflexive(a: Seq<char>)
    ensures
        !lex_lt(a, a),
    decreases a.len(),
{
    if a.len() > 0 {
        lemma_lex_irreflexive(a.drop_first());
    }
}

/// The order is transitive.
pub proof fn lemma_lex_transitive(a: Seq<char>, b: Seq<char>, c: Seq<char>)
    requires
        lex_lt(a, b),
        lex_lt(b, c),
    ensures
        lex_lt(a, c),
    decreases a.len(),
{
    if a.len() > 0 && b.len() > 0 && c.len() > 0 && a[0] == b[0] && b[0] == c[0] {
        lemma_lex_transitive(a.drop_first(), b.drop_first(), c.drop_first());
    }
}

/// Of two different texts one comes before the other.
pub proof fn lemma_lex_total(a: Seq<char>, b: Seq<char>)
    ensures
        a == b || lex_lt(a, b) || lex_lt(b, a),
    decreases a.len(),
{
    if a.len() == 0 && b.len() == 0 {
        assert(a =~= b);
    } else if a.len() > 0 && b.len() > 0 && a[0] == b[0] {
        lemma_lex_total(a.drop_first(), b.drop_first());
        if a.drop_first() == b.drop_first() {
            assert(a =~= seq![a[0]] + a.drop_first());
            assert(b =~= seq![b[0]] + b.drop_first());
        }
    }
}

/// No two texts come each before the other.
pub proof fn lemma_lex_asymmetric(a: Seq<char>, b: Seq<char>)
    requires
        lex_lt(a, b),
    ensures
        !lex_lt(b, a),
        a != b,
{
    lemma_lex_irreflexive(a);
    if lex_lt(b, a) {
        lemma_lex_transitive(a, b, a);
    }
}

/// A strictly sorted sequence holds no text twice.
pub proof fn lemma_sorted_distinct(keys: Seq<Seq<char>>, i: int, j: int)
    requires
        strictly_sorted(keys),
        0 <= i < keys.len(),
        0 <= j < keys.len(),
        keys[i] == keys[j],
    ensures
        i == j,
{
    lemma_lex_irreflexive(keys[i]);
    if i < j {
        assert(lex_lt(keys[i], keys[j]));
    } else if j < i {
        assert(lex_lt(keys[j], keys[i]));
    }
}

/// Two strictly sorted sequences with the same members are the same sequence.
pub proof fn lemma_sorted_unique(a: Seq<Seq<char>>, b: Seq<Seq<char>>)
    requires
        strictly_sorted(a),
        strictly_sorted(b),
        a.to_set() == b.to_set(),
    ensures
        a == b,
    decreases a.len(),
{
    assert forall|x: Seq<char>| a.contains(x) == b.contains(x) by {
        assert(a.to_set().contains(x) == a.contains(x));
        assert(b.to_set().contains(x) == b.contains(x));
    }
    if a.len() == 0 {
        if b.len() > 0 {
            assert(b.contains(b[0]));
        }
        assert(a =~= b);
    } else {
        assert(a.contains(a[0]));
        let j = choose|j: int| 0 <= j < b.len() && b[j] == a[0];
        assert(b.contains(b[0]));
        let i = choose|i: int| 0 <= i < a.len() && a[i] == b[0];
        if j > 0 {
            assert(lex_lt(b[0], b[j]));
            if i > 0 {
                assert(lex_lt(a[0], a[i]));
                lemma_lex_asymmetric(a[0], a[i]);
            }
            lemma_lex_irreflexive(a[0]);
        }
        assert(a[0] == b[0]);
        let ra = a.drop_first();
        let rb = b.drop_first();
        assert forall|x: Seq<char>| ra.to_set().contains(x) == rb.to_set().contains(x) by {
            if ra.contains(x) {
                let k = choose|k: int| 0 <= k < ra.len() && ra[k] == x;
                assert(a[k + 1] == x);
                assert(lex_lt(a[0], a[k + 1]));
                lemma_lex_irreflexive(a[0]);
                assert(a.contains(x));
                let m = choose|m: int| 0 <= m < b.len() && b[m] == x;
                assert(rb[m - 1] == x);
            }
            if rb.contains(x) {
                let k = choose|k: int| 0 <= k < rb.len() && rb[k] == x;
                assert(b[k + 1] == x);
                assert(lex_lt(b[0], b[k + 1]));
                lemma_lex_irreflexive(b[0]);
                assert(b.contains(x));
                let m = choose|m: int| 0 <= m < a.len() && a[m] == x;
                assert(ra[m - 1] == x);
            }
        }
        assert(ra.to_set() =~= rb.to_set());
        assert forall|p: int, q: int| 0 <= p < q < ra.len() implies lex_lt(
            #[trigger] ra[p],
            #[trigger] ra[q],
        ) by {
            assert(lex_lt(a[p + 1], a[q + 1]));
        }
        assert forall|p: int, q: int| 0 <= p < q < rb.len() implies lex_lt(
            #[trigger] rb[p],
            #[trigger] rb[q],
        ) by {
            assert(lex_lt(b[p + 1], b[q + 1]));
        }
        lemma_sorted_unique(ra, rb);
        assert(a =~= seq![a[0]] + ra);
        assert(b =~= seq![b[0]] + rb);
    }
}

/// The members of a set of texts, from the least to the greatest.
pub open spec fn in_order(s: Set<Seq<char>>) -> Seq<Seq<char>> {
    choose|q: Seq<Seq<char>>| strictly_sorted(q) && q.to_set() == s
}

/// A strictly sorted sequence is its members in order.
pub proof fn lemma_in_order(q: Seq<Seq<char>>)
    requires
        strictly_sorted(q),
    ensures
        in_order(q.to_set()) == q,
{
    let c = in_order(q.to_set());
    assert(strictly_sorted(q) && q.to_set() == q.to_set());
    assert(strictly_sorted(c) && c.to_set() == q.to_set());
    lemma_sorted_unique(c, q);
}

/// A text put between the smaller and the greater ones leaves the sequence
/// sorted.
proof fn lemma_insert_sorted(keys: Seq<Seq<char>>, at: int, key: Seq<char>)
    requires
        strictly_sorted(keys),
        0 <= at <= keys.len(),
        forall|j: int| 0 <= j < at ==> lex_lt(#[trigger] keys[j], key),
        forall|j: int| at <= j < keys.len() ==> lex_lt(key, #[trigger] keys[j]),
    ensures
        strictly_sorted(keys.insert(at, key)),
{
    let new = keys.insert(at, key);
    assert forall|i: int, j: int| 0 <= i < j < new.len() implies lex_lt(
        #[trigger] new[i],
        #[trigger] new[j],
    ) by {
        if i < at {
            assert(new[i] == keys[i]);
        } else if i > at {
            assert(new[i] == keys[i - 1]);
        }
        if j < at {
            assert(new[j] == keys[j]);
        } else if j > at {
            assert(new[j] == keys[j - 1]);
        }
    }
}

/// A place for `key` among `keys`: behind the smaller ones, and before the
/// greater ones.
proof fn lemma_place(keys: Seq<Seq<char>>, key: Seq<char>) -> (at: int)
    requires
        strictly_sorted(keys),
        !keys.contains(key),
    ensures
        0 <= at <= keys.len(),
        forall|j: int| 0 <= j < at ==> lex_lt(#[trigger] keys[j], key),
        forall|j: int| at <= j < keys.len() ==> lex_lt(key, #[trigger] keys[j]),
    decreases keys.len(),
{
    if keys.len() == 0 {
        0
    } else {
        let last = keys.len() - 1;
        lemma_lex_total(keys[last], key);
        assert(keys.contains(keys[last]));
        if lex_lt(keys[last], key) {
            assert forall|j: int| 0 <= j < keys.len() implies lex_lt(#[trigger] keys[j], key) by {
                if j < last {
                    assert(lex_lt(keys[j], keys[last]));
                    lemma_lex_transitive(keys[j], keys[last], key);
                }
            }
            keys.len() as int
        } else {
            let rest = keys.drop_last();
            assert forall|i: int, j: int| 0 <= i < j < rest.len() implies lex_lt(
                #[trigger] rest[i],
                #[trigger] rest[j],
            ) by {
                assert(lex_lt(keys[i], keys[j]));
            }
            assert(!rest.contains(key)) by {
                if rest.contains(key) {
                    let j = choose|j: int| 0 <= j < rest.len() && rest[j] == key;
                    assert(keys[j] == key);
                }
            }
            let at = lemma_place(rest, key);
            assert forall|j: int| 0 <= j < at implies lex_lt(#[trigger] keys[j], key) by {
                assert(keys[j] == rest[j]);
            }
            assert forall|j: int| at <= j < keys.len() implies lex_lt(key, #[trigger] keys[j]) by {
                if j < last {
                    assert(keys[j] == rest[j]);
                }
            }
            at
        }
    }
}

/// Every finite set of texts has an order.
proof fn lemma_has_order(s: Set<Seq<char>>) -> (q: Seq<Seq<char>>)
    requires
        s.finite(),
    ensures
        strictly_sorted(q),
        q.to_set() == s,
    decreases s.len(),
{
    if s.len() == 0 {
        let q = Seq::<Seq<char>>::empty();
        assert(q.to_set() =~= s);
        q
    } else {
        let x = s.choose();
        let rest = lemma_has_order(s.remove(x));
        assert(rest.to_set().contains(x) == rest.contains(x));
        let at = lemma_place(rest, x);
        lemma_insert_sorted(rest, at, x);
        let q = rest.insert(at, x);
        assert forall|y: Seq<char>| q.to_set().contains(y) == s.contains(y) by {
            assert(q.to_set().contains(y) == q.contains(y));
            assert(rest.to_set().contains(y) == rest.contains(y));
            if q.contains(y) {
                let j = choose|j: int| 0 <= j < q.len() && q[j] == y;
                if j < at {
                    assert(rest[j] == y);
                } else if j > at {
                    assert(rest[j - 1] == y);
                }
            }
            if rest.contains(y) {
                let j = choose|j: int| 0 <= j < rest.len() && rest[j] == y;
                assert(q[if j < at { j } else { j + 1 }] == y);
            }
            assert(q[at] == x);
        }
        assert(q.to_set() =~= s);
        q
    }
}

/// The members of a finite set in order are its members, each once.
pub proof fn lemma_in_order_is_order(s: Set<Seq<char>>)
    requires
        s.finite(),
    ensures
        strictly_sorted(in_order(s)),
        in_order(s).to_set() == s,
{
    let q = lemma_has_order(s);
    lemma_in_order(q);
}

/// Whether `a` comes before `b`.
pub fn less(a: &str, b: &str) -> (r: bool)
    ensures
        r == lex_lt(a@, b@),
{
    let x = chars_of(a);
    let y = chars_of(b);
    let mut i: usize = 0;
    proof {
        assert(x@.skip(0) =~= a@);
        assert(y@.skip(0) =~= b@);
    }
    while i < x.len() && i < y.len()
        invariant
            i <= x@.len(),
            i <= y@.len(),
            lex_lt(a@, b@) == lex_lt(x@.skip(i as int), y@.skip(i as int)),
        decreases x@.len() - i,
    {
        if x[i] != y[i] {
            return x[i] < y[i];
        }
        proof {
            assert(x@.skip(i as int).drop_first() =~= x@.skip(i + 1));
            assert(y@.skip(i as int).drop_first() =~= y@.skip(i + 1));
        }
        i = i + 1;
    }
    i < y.len()
}

/// A set of texts, held in order.
#[derive(Debug)]
pub struct StringSet {
    items: Vec<String>,
}

impl View for StringSet {
    type V = Set<Seq<char>>;

    closed spec fn view(&self) -> Set<Seq<char>> {
        text::views(self.items@).to_set()
    }
}

impl StringSet {
    /// The members, from the least to the greatest.
    pub closed spec fn ordered(&self) -> Seq<Seq<char>> {
        text::views(self.items@)
    }

    #[verifier::type_invariant]
    spec fn inv(self) -> bool {
        strictly_sorted(text::views(self.items@))
    }

    /// The set without members.
    pub fn new() -> (r: StringSet)
        ensures
            r@ == Set::<Seq<char>>::empty(),
            r.ordered() == Seq::<Seq<char>>::empty(),
    {
        let items: Vec<String> = Vec::new();
        proof {
            assert(text::views(items@) =~= Seq::<Seq<char>>::empty());
            assert(text::views(items@).to_set() =~= Set::<Seq<char>>::empty());
        }
        StringSet { items }
    }

    /// The members, from the least to the greatest.
    pub fn items(&self) -> (r: &Vec<String>)
        ensures
            text::views(r@) == self.ordered(),
            text::views(r@) == in_order(self@),
            strictly_sorted(self.ordered()),
            self.ordered().to_set() == self@,
    {
        proof {
            use_type_invariant(self);
            lemma_in_order(self.ordered());
        }
        &self.items
    }

    /// Whether the set has no members.
    pub fn is_empty(&self) -> (r: bool)
        ensures
            r == (self@ == Set::<Seq<char>>::empty()),
            r == (self.ordered().len() == 0),
    {
        proof {
            if self.items@.len() == 0 {
                assert(self@ =~= Set::<Seq<char>>::empty());
            } else {
                assert(text::views(self.items@).contains(text::views(self.items@)[0]));
                assert(self@.contains(text::views(self.items@)[0]));
            }
        }
        self.items.len() == 0
    }

    /// Whether `s` is a member.
    pub fn contains(&self, s: &str) -> (r: bool)
        ensures
            r == self@.contains(s@),
    {
        crate::text::contains_text(&self.items, s)
    }

    /// Makes `s` a member, and says whether it was none before.
    pub fn insert(&mut self, s: String) -> (r: bool)
        ensures
            final(self)@ == old(self)@.insert(s@),
            r == !old(self)@.contains(s@),
            strictly_sorted(final(self).ordered()),
            final(self).ordered().to_set() == final(self)@,
    {
        proof {
            use_type_invariant(&*self);
        }
        let mut items: Vec<String> = Vec::new();
        std::mem::swap(&mut items, &mut self.items);
        let ghost before = text::views(items@);
        let mut i: usize = 0;
        while i < items.len() && less(items[i].as_str(), s.as_str())
            invariant
                i <= items@.len(),
                before == text::views(items@),
                forall|j: int| 0 <= j < i ==> lex_lt(#[trigger] before[j], s@),
            decreases items@.len() - i,
        {
            i = i + 1;
        }
        if i < items.len() && same_text(items[i].as_str(), s.as_str()) {
            proof {
                assert(before[i as int] == s@);
                assert(before.contains(s@));
                assert(before.to_set().insert(s@) =~= before.to_set());
            }
            self.items = items;
            return false;
        }
        proof {
            if i < items@.len() {
                lemma_lex_total(before[i as int], s@);
                assert forall|j: int| i <= j < before.len() implies lex_lt(
                    s@,
                    #[trigger] before[j],
                ) by {
                    if j > i {
                        lemma_lex_transitive(s@, before[i as int], before[j]);
                    }
                }
            }
            assert forall|j: int| 0 <= j < before.len() implies before[j] != s@ by {
                lemma_lex_irreflexive(s@);
            }
            lemma_insert_sorted(before, i as int, s@);
        }
        items.insert(i, s);
        proof {
            assert(text::views(items@) =~= before.insert(i as int, s@));
            let new = before.insert(i as int, s@);
            assert forall|x: Seq<char>| new.to_set().contains(x) == before.to_set().insert(
                s@,
            ).contains(x) by {
                if before.contains(x) {
                    let k = choose|k: int| 0 <= k < before.len() && before[k] == x;
                    if k < i {
                        assert(new[k] == x);
                    } else {
                        assert(new[k + 1] == x);
                    }
                }
                if x == s@ {
                    assert(new[i as int] == x);
                }
                if new.contains(x) && x != s@ {
                    let k = choose|k: int| 0 <= k < new.len() && new[k] == x;
                    if k < i {
                        assert(before[k] == x);
                    } else {
                        assert(before[k - 1] == x);
                    }
                }
            }
            assert(new.to_set() =~= before.to_set().insert(s@));
        }
        self.items = items;
        true
    }

    /// The set of the texts in `list`.
    pub fn from_list(list: &Vec<String>) -> (r: StringSet)
        ensures
            r@ == text::views(list@).to_set(),
            strictly_sorted(r.ordered()),
            r.ordered().to_set() == r@,
    {
        let mut out = StringSet::new();
        let mut i: usize = 0;
        proof {
            assert(text::views(list@).take(0).to_set() =~= Set::<Seq<char>>::empty());
            assert(out.ordered().to_set() =~= Set::<Seq<char>>::empty());
        }
        while i < list.len()
            invariant
                i <= list@.len(),
                out@ == text::views(list@).take(i as int).to_set(),
                strictly_sorted(out.ordered()),
                out.ordered().to_set() == out@,
            decreases list@.len() - i,
        {
            out.insert(list[i].clone());
            proof {
                let v = text::views(list@);
                crate::sorted::lemma_take_to_set(v, i as int);
            }
            i = i + 1;
        }
        proof {
            assert(text::views(list@).take(list@.len() as int) =~= text::views(list@));
        }
        out
    }

    /// Adds the members of `other`.
    pub fn union(&mut self, other: &StringSet)
        ensures
            final(self)@ == old(self)@.union(other@),
    {
        let list = other.items();
        let ghost all = text::views(list@);
        let mut i: usize = 0;
        proof {
            assert(self@ =~= old(self)@.union(all.take(0).to_set()));
        }
        while i < list.len()
            invariant
                i <= list@.len(),
                all == text::views(list@),
                all.to_set() == other@,
                self@ == old(self)@.union(all.take(i as int).to_set()),
            decreases list@.len() - i,
        {
            self.insert(list[i].clone());
            proof {
                lemma_take_to_set(all, i as int);
                assert(self@ =~= old(self)@.union(all.take(i + 1).to_set()));
            }
            i = i + 1;
        }
        proof {
            assert(all.take(i as int) =~= all);
        }
    }

    /// A copy of the set.
    pub fn copy(&self) -> (r: StringSet)
        ensures
            r@ == self@,
            r.ordered() == self.ordered(),
    {
        proof {
            use_type_invariant(self);
        }
        let items = crate::text::copy_texts(&self.items);
        StringSet { items }
    }
}

/// One more text of `v` is one more member.
pub proof fn lemma_take_to_set(v: Seq<Seq<char>>, i: int)
    requires
        0 <= i < v.len(),
    ensures
        v.take(i + 1).to_set() == v.take(i).to_set().insert(v[i]),
{
    let a = v.take(i + 1);
    let b = v.take(i);
    assert forall|x: Seq<char>| a.to_set().contains(x) == b.to_set().insert(v[i]).contains(x) by {
        if a.contains(x) {
            let k = choose|k: int| 0 <= k < a.len() && a[k] == x;
            if k < i {
                assert(b[k] == x);
            }
        }
        if b.contains(x) {
            let k = choose|k: int| 0 <= k < b.len() && b[k] == x;
            assert(a[k] == x);
        }
        if x == v[i] {
            assert(a[i] == x);
        }
    }
    assert(a.to_set() =~= b.to_set().insert(v[i]));
}

/// A map from texts to values, held in the order of its keys.
#[derive(Debug)]
pub struct StringMap<V> {
    entries: Vec<(String, V)>,
}

/// The keys of a sequence of entries.
pub open spec fn entry_keys<V>(e: Seq<(String, V)>) -> Seq<Seq<char>> {
    Seq::new(e.len(), |i: int| e[i].0@)
}

/// A position at which `k` stands among the keys of `e`.
pub open spec fn key_index<V>(e: Seq<(String, V)>, k: Seq<char>) -> int {
    choose|i: int| 0 <= i < e.len() && entry_keys(e)[i] == k
}

/// The map that a sequence of entries with distinct keys stands for.
pub open spec fn entry_map<V>(e: Seq<(String, V)>) -> Map<Seq<char>, V> {
    Map::new(
        |k: Seq<char>| entry_keys(e).contains(k),
        |k: Seq<char>| e[key_index(e, k)].1,
    )
}

proof fn lemma_entry_at<V>(e: Seq<(String, V)>, i: int)
    requires
        strictly_sorted(entry_keys(e)),
        0 <= i < e.len(),
    ensures
        entry_map(e).contains_key(e[i].0@),
        entry_map(e)[e[i].0@] == e[i].1,
{
    let k = e[i].0@;
    assert(entry_keys(e)[i] == k);
    assert(entry_keys(e).contains(k));
    let c = key_index(e, k);
    assert(0 <= c < e.len() && entry_keys(e)[c] == k);
    lemma_sorted_distinct(entry_keys(e), c, i);
}

impl<V> View for StringMap<V> {
    type V = Map<Seq<char>, V>;

    closed spec fn view(&self) -> Map<Seq<char>, V> {
        entry_map(self.entries@)
    }
}

impl<V> StringMap<V> {
    /// The keys, from the least to the greatest.
    pub closed spec fn keys(&self) -> Seq<Seq<char>> {
        entry_keys(self.entries@)
    }

    #[verifier::type_invariant]
    spec fn inv(self) -> bool {
        strictly_sorted(entry_keys(self.entries@))
    }

    /// The map without entries.
    pub fn new() -> (r: StringMap<V>)
        ensures
            r@ == Map::<Seq<char>, V>::empty(),
            r.keys() == Seq::<Seq<char>>::empty(),
    {
        let entries: Vec<(String, V)> = Vec::new();
        proof {
            assert(entry_keys(entries@) =~= Seq::<Seq<char>>::empty());
            assert(entry_map(entries@) =~= Map::<Seq<char>, V>::empty());
        }
        StringMap { entries }
    }

    /// The number of entries.
    pub fn len(&self) -> (r: usize)
        ensures
            r == self.keys().len(),
            strictly_sorted(self.keys()),
            self@.dom() == self.keys().to_set(),
    {
        proof {
            use_type_invariant(self);
            assert(self@.dom() =~= self.keys().to_set());
        }
        self.entries.len()
    }

    /// The key that stands at `i` in the order of the keys.
    pub fn key_at(&self, i: usize) -> (r: &String)
        requires
            i < self.keys().len(),
        ensures
            r@ == self.keys()[i as int],
            self@.contains_key(r@),
    {
        proof {
            use_type_invariant(self);
            lemma_entry_at(self.entries@, i as int);
        }
        &self.entries[i].0
    }

    /// The value of the key that stands at `i` in the order of the keys.
    pub fn value_at(&self, i: usize) -> (r: &V)
        requires
            i < self.keys().len(),
        ensures
            self@.contains_key(self.keys()[i as int]),
            *r == self@[self.keys()[i as int]],
    {
        proof {
            use_type_invariant(self);
            lemma_entry_at(self.entries@, i as int);
        }
        &self.entries[i].1
    }

    /// The position of `key` among the keys, or that of the first greater one.
    fn locate(entries: &Vec<(String, V)>, key: &str) -> (r: usize)
        requires
            strictly_sorted(entry_keys(entries@)),
        ensures
            r <= entries@.len(),
            forall|j: int| 0 <= j < r ==> lex_lt(#[trigger] entry_keys(entries@)[j], key@),
            r < entries@.len() ==> !lex_lt(entry_keys(entries@)[r as int], key@),
            entry_keys(entries@).contains(key@) ==> r < entries@.len() && entry_keys(
                entries@,
            )[r as int] == key@,
    {
        let mut i: usize = 0;
        while i < entries.len() && less(entries[i].0.as_str(), key)
            invariant
                i <= entries@.len(),
                forall|j: int| 0 <= j < i ==> lex_lt(#[trigger] entry_keys(entries@)[j], key@),
            decreases entries@.len() - i,
        {
            i = i + 1;
        }
        proof {
            let keys = entry_keys(entries@);
            if keys.contains(key@) {
                let k = choose|k: int| 0 <= k < keys.len() && keys[k] == key@;
                lemma_lex_irreflexive(key@);
                if i < k {
                    assert(lex_lt(keys[i as int], keys[k]));
                }
            }
        }
        i
    }

    /// The value of `key`.
    pub fn get(&self, key: &str) -> (r: Option<&V>)
        ensures
            r is Some <==> self@.contains_key(key@),
            r matches Some(v) ==> *v == self@[key@],
    {
        proof {
            use_type_invariant(self);
        }
        let i = Self::locate(&self.entries, key);
        if i < self.entries.len() && same_text(self.entries[i].0.as_str(), key) {
            proof {
                lemma_entry_at(self.entries@, i as int);
            }
            Some(&self.entries[i].1)
        } else {
            None
        }
    }

    /// Whether `key` has a value.
    pub fn contains_key(&self, key: &str) -> (r: bool)
        ensures
            r == self@.contains_key(key@),
    {
        self.get(key).is_some()
    }

    /// Gives `key` the value `value`.
    pub fn insert(&mut self, key: String, value: V)
        ensures
            final(self)@ == old(self)@.insert(key@, value),
            strictly_sorted(final(self).keys()),
            final(self)@.dom() == final(self).keys().to_set(),
    {
        proof {
            use_type_invariant(&*self);
        }
        let mut entries: Vec<(String, V)> = Vec::new();
        std::mem::swap(&mut entries, &mut self.entries);
        let i = Self::locate(&entries, key.as_str());
        let ghost before = entries@;
        let ghost keys = entry_keys(before);
        if i < entries.len() && same_text(entries[i].0.as_str(), key.as_str()) {
            entries.remove(i);
        }
        let ghost mid = entries@;
        proof {
            let mkeys = entry_keys(mid);
            if i < before.len() && keys[i as int] == key@ {
                assert(mkeys =~= keys.remove(i as int));
                assert forall|p: int, q: int| 0 <= p < q < mkeys.len() implies lex_lt(
                    #[trigger] mkeys[p],
                    #[trigger] mkeys[q],
                ) by {
                    let pp = if p < i { p } else { p + 1 };
                    let qq = if q < i { q } else { q + 1 };
                    assert(lex_lt(keys[pp], keys[qq]));
                }
                assert forall|j: int| i <= j < mkeys.len() implies lex_lt(
                    key@,
                    #[trigger] mkeys[j],
                ) by {
                    assert(lex_lt(keys[i as int], keys[j + 1]));
                }
                assert forall|j: int| 0 <= j < i implies lex_lt(#[trigger] mkeys[j], key@) by {
                    assert(mkeys[j] == keys[j]);
                }
            } else {
                assert(mid == before);
                assert forall|j: int| i <= j < mkeys.len() implies lex_lt(
                    key@,
                    #[trigger] mkeys[j],
                ) by {
                    lemma_lex_total(keys[i as int], key@);
                    if j > i {
                        lemma_lex_transitive(key@, keys[i as int], keys[j]);
                    }
                }
            }
            lemma_insert_sorted(mkeys, i as int, key@);
        }
        entries.insert(i, (key, value));
        proof {
            assert(entry_keys(entries@) =~= entry_keys(mid).insert(i as int, key@));
            let new = entries@;
            let nkeys = entry_keys(new);
            assert forall|x: Seq<char>| #[trigger]
                entry_map(new).contains_key(x) == entry_map(before).insert(
                    key@,
                    value,
                ).contains_key(x) && (entry_map(new).contains_key(x) ==> entry_map(new)[x]
                == entry_map(before).insert(key@, value)[x]) by {
                lemma_entry_at(new, i as int);
                if nkeys.contains(x) && x != key@ {
                    let k = choose|k: int| 0 <= k < nkeys.len() && nkeys[k] == x;
                    lemma_entry_at(new, k);
                    let old_k = if k < i {
                        k
                    } else if mid == before {
                        k - 1
                    } else {
                        k
                    };
                    assert(new[k] == before[old_k]);
                    lemma_entry_at(before, old_k);
                }
                if keys.contains(x) && x != key@ {
                    let k = choose|k: int| 0 <= k < keys.len() && keys[k] == x;
                    let new_k = if k < i {
                        k
                    } else if mid == before {
                        k + 1
                    } else {
                        k
                    };
                    assert(new[new_k] == before[k]);
                    assert(nkeys[new_k] == x);
                }
                if x == key@ {
                    assert(nkeys[i as int] == x);
                }
            }
            assert(entry_map(new) =~= entry_map(before).insert(key@, value));
        }
        self.entries = entries;
        proof {
            assert(self@.dom() =~= self.keys().to_set());
        }
    }

    /// Takes the entry of `key` out, and hands its value over.
    pub fn remove(&mut self, key: &str) -> (r: Option<V>)
        ensures
            final(self)@ == old(self)@.remove(key@),
            r is Some <==> old(self)@.contains_key(key@),
            r matches Some(v) ==> v == old(self)@[key@],
            strictly_sorted(final(self).keys()),
            final(self)@.dom() == final(self).keys().to_set(),
    {
        proof {
            use_type_invariant(&*self);
        }
        let mut entries: Vec<(String, V)> = Vec::new();
        std::mem::swap(&mut entries, &mut self.entries);
        let i = Self::locate(&entries, key);
        let ghost before = entries@;
        let ghost keys = entry_keys(before);
        if i < entries.len() && same_text(entries[i].0.as_str(), key) {
            let taken = entries.remove(i);
            proof {
                let new = entries@;
                let nkeys = entry_keys(new);
                assert(nkeys =~= keys.remove(i as int));
                assert forall|p: int, q: int| 0 <= p < q < nkeys.len() implies lex_lt(
                    #[trigger] nkeys[p],
                    #[trigger] nkeys[q],
                ) by {
                    let pp = if p < i { p } else { p + 1 };
                    let qq = if q < i { q } else { q + 1 };
                    assert(lex_lt(keys[pp], keys[qq]));
                }
                lemma_entry_at(before, i as int);
                assert forall|x: Seq<char>| #[trigger]
                    entry_map(new).contains_key(x) == entry_map(before).remove(
                        key@,
                    ).contains_key(x) && (entry_map(new).contains_key(x) ==> entry_map(new)[x]
                    == entry_map(before).remove(key@)[x]) by {
                    if nkeys.contains(x) {
                        let k = choose|k: int| 0 <= k < nkeys.len() && nkeys[k] == x;
                        lemma_entry_at(new, k);
                        let old_k = if k < i { k } else { k + 1 };
                        assert(new[k] == before[old_k]);
                        lemma_entry_at(before, old_k);
                        if x == key@ {
                            lemma_sorted_distinct(keys, old_k, i as int);
                        }
                    }
                    if keys.contains(x) && x != key@ {
                        let k = choose|k: int| 0 <= k < keys.len() && keys[k] == x;
                        let new_k = if k < i { k } else { k - 1 };
                        assert(nkeys[new_k] == x);
                    }
                }
                assert(entry_map(new) =~= entry_map(before).remove(key@));
            }
            self.entries = entries;
            proof {
                assert(self@.dom() =~= self.keys().to_set());
            }
            Some(taken.1)
        } else {
            self.entries = entries;
            proof {
                assert(self@ =~= old(self)@.remove(key@));
                assert(self@.dom() =~= self.keys().to_set());
            }
            None
        }
    }
}

/// Whether `a` and `b` are the same up to `p`, where `a` ends or has the smaller
/// character.
pub open spec fn parts_before(a: Seq<char>, b: Seq<char>, p: int) -> bool {
    &&& 0 <= p <= a.len()
    &&& p < b.len()
    &&& forall|k: int| 0 <= k < p ==> a[k] == b[k]
    &&& p == a.len() || a[p] < b[p]
}

/// One text comes before another if and only if it has the smaller character where
/// they first differ, or is the start of the other.
pub proof fn law_first_difference_decides(a: Seq<char>, b: Seq<char>)
    ensures
        lex_lt(a, b) <==> exists|p: int| #[trigger] parts_before(a, b, p),
    decreases a.len(),
{
    if b.len() > 0 && a.len() > 0 && a[0] == b[0] {
        let x = a.drop_first();
        let y = b.drop_first();
        law_first_difference_decides(x, y);
        if lex_lt(x, y) {
            let p = choose|p: int| #[trigger] parts_before(x, y, p);
            assert forall|k: int| 0 <= k < p + 1 implies a[k] == b[k] by {
                if k > 0 {
                    assert(x[k - 1] == y[k - 1]);
                }
            }
            assert(parts_before(a, b, p + 1));
        }
        if exists|p: int| #[trigger] parts_before(a, b, p) {
            let p = choose|p: int| #[trigger] parts_before(a, b, p);
            assert forall|k: int| 0 <= k < p - 1 implies x[k] == y[k] by {
                assert(a[k + 1] == b[k + 1]);
            }
            assert(parts_before(x, y, p - 1));
        }
    } else {
        if lex_lt(a, b) {
            assert(parts_before(a, b, 0));
        }
        if exists|p: int| #[trigger] parts_before(a, b, p) {
            let p = choose|p: int| #[trigger] parts_before(a, b, p);
            if p > 0 {
                assert(a[0] == b[0]);
            }
        }
    }
}

/// The members of a set in order are all of its members, each one once, and each
/// comes before the later ones.
pub proof fn law_members_in_order(s: Set<Seq<char>>, x: Seq<char>, i: int, j: int)
    requires
        s.finite(),
    ensures
        in_order(s).contains(x) <==> s.contains(x),
        in_order(s).len() == s.len(),
        0 <= i < j < in_order(s).len() ==> exists|p: int| #[trigger]
            parts_before(in_order(s)[i], in_order(s)[j], p),
{
    lemma_in_order_is_order(s);
    let q = in_order(s);
    assert(q.to_set().contains(x) <==> q.contains(x));
    assert(q.no_duplicates()) by {
        assert forall|a: int, b: int| 0 <= a < q.len() && 0 <= b < q.len() && a != b implies q[a]
            != q[b] by {
            if q[a] == q[b] {
                lemma_sorted_distinct(q, a, b);
            }
        }
    }
    q.unique_seq_to_set();
    if 0 <= i < j < q.len() {
        assert(lex_lt(q[i], q[j]));
        law_first_difference_decides(q[i], q[j]);
    }
}

} // verus!
