//! Weighted sets: exact multiplicities over canonically ordered keys.

use vstd::prelude::*;
use crate::ids::VId;
use crate::weight::{fits, lemma_reach, Weight};

verus! {

/// Keys with a canonical strict total order.
pub trait Canonical: Sized + Copy {
    spec fn below(self, other: Self) -> bool;

    proof fn lemma_irreflexive(item: Self)
        ensures
            !item.below(item),
    ;

    proof fn lemma_transitive(first: Self, second: Self, third: Self)
        requires
            first.below(second),
            second.below(third),
        ensures
            first.below(third),
    ;

    proof fn lemma_total(left: Self, right: Self)
        ensures
            left == right || left.below(right) || right.below(left),
    ;

    fn is_below(&self, other: &Self) -> (less: bool)
        ensures
            less == self.below(*other),
    ;
}

impl Canonical for u128 {
    open spec fn below(self, other: u128) -> bool {
        self < other
    }

    proof fn lemma_irreflexive(item: u128) {
    }

    proof fn lemma_transitive(first: u128, second: u128, third: u128) {
    }

    proof fn lemma_total(left: u128, right: u128) {
    }

    fn is_below(&self, other: &u128) -> (less: bool) {
        *self < *other
    }
}

/// Three corners of a triangle, in increasing order.
#[derive(Clone, Copy, PartialEq, Eq, Structural, Debug)]
pub struct Triple {
    pub a: VId,
    pub b: VId,
    pub c: VId,
}

impl Canonical for Triple {
    open spec fn below(self, other: Triple) -> bool {
        ||| self.a.0 < other.a.0
        ||| self.a == other.a && self.b.0 < other.b.0
        ||| self.a == other.a && self.b == other.b && self.c.0 < other.c.0
    }

    proof fn lemma_irreflexive(item: Triple) {
    }

    proof fn lemma_transitive(first: Triple, second: Triple, third: Triple) {
    }

    proof fn lemma_total(left: Triple, right: Triple) {
    }

    fn is_below(&self, other: &Triple) -> (less: bool) {
        self.a.0 < other.a.0 || (self.a.0 == other.a.0 && (self.b.0 < other.b.0 || (self.b.0
            == other.b.0 && self.c.0 < other.c.0)))
    }
}

/// A weight that an entry can have.
pub open spec fn counted(weight: Weight) -> bool {
    weight@ != 0 && fits(weight@)
}

/// Entries in strictly increasing key order, none of weight zero.
pub open spec fn canonical<K: Canonical>(entries: Seq<(K, Weight)>) -> bool {
    &&& forall|i: int, j: int|
        0 <= i < j < entries.len() ==> (#[trigger] entries[i]).0.below((#[trigger] entries[j]).0)
    &&& forall|i: int| 0 <= i < entries.len() ==> counted((#[trigger] entries[i]).1)
}

/// One of the entries has the key.
pub open spec fn listed<K: Canonical>(entries: Seq<(K, Weight)>, key: K) -> bool {
    exists|i: int| 0 <= i < entries.len() && (#[trigger] entries[i]).0 == key
}

/// The weight of a key: zero where no entry has it.
pub open spec fn weight_in<K: Canonical>(entries: Seq<(K, Weight)>, key: K) -> int {
    if listed(entries, key) {
        let i = choose|i: int| 0 <= i < entries.len() && (#[trigger] entries[i]).0 == key;
        entries[i].1@
    } else {
        0
    }
}

/// The sum of all weights.
pub open spec fn sum_of<K: Canonical>(entries: Seq<(K, Weight)>) -> int
    decreases entries.len(),
{
    if entries.len() == 0 {
        0
    } else {
        sum_of(entries.drop_last()) + entries.last().1@
    }
}

proof fn lemma_sum_concat<K: Canonical>(head: Seq<(K, Weight)>, tail: Seq<(K, Weight)>)
    ensures
        sum_of(head + tail) == sum_of(head) + sum_of(tail),
    decreases tail.len(),
{
    if tail.len() == 0 {
        assert(head + tail =~= head);
    } else {
        lemma_sum_concat(head, tail.drop_last());
        assert((head + tail).drop_last() =~= head + tail.drop_last());
    }
}

proof fn lemma_sum_one<K: Canonical>(entry: (K, Weight))
    ensures
        sum_of(seq![entry]) == entry.1@,
{
    reveal_with_fuel(sum_of, 2);
    assert(seq![entry].drop_last() =~= Seq::<(K, Weight)>::empty());
}

proof fn lemma_sum_split<K: Canonical>(entries: Seq<(K, Weight)>, at: int)
    requires
        0 <= at < entries.len(),
    ensures
        sum_of(entries) == sum_of(entries.take(at)) + entries[at].1@ + sum_of(entries.skip(at + 1)),
{
    let head = entries.take(at);
    let tail = entries.skip(at + 1);
    assert(entries =~= head + seq![entries[at]] + tail);
    lemma_sum_concat(head + seq![entries[at]], tail);
    lemma_sum_concat(head, seq![entries[at]]);
    lemma_sum_one(entries[at]);
}

/// A listed key has the weight of its entry.
pub proof fn lemma_weight_at<K: Canonical>(entries: Seq<(K, Weight)>, at: int)
    requires
        canonical(entries),
        0 <= at < entries.len(),
    ensures
        listed(entries, entries[at].0),
        weight_in(entries, entries[at].0) == entries[at].1@,
{
    let key = entries[at].0;
    assert(listed(entries, key));
    let i = choose|i: int| 0 <= i < entries.len() && (#[trigger] entries[i]).0 == key;
    K::lemma_irreflexive(key);
    assert(i == at);
}

/// One more entry at the end of a listing.
proof fn lemma_weight_push<K: Canonical>(entries: Seq<(K, Weight)>, n: int)
    requires
        canonical(entries),
        0 <= n < entries.len(),
    ensures
        canonical(entries.take(n)),
        canonical(entries.take(n + 1)),
        !listed(entries.take(n), entries[n].0),
        forall|key: K| #[trigger]
            weight_in(entries.take(n + 1), key) == (if key == entries[n].0 {
                entries[n].1@
            } else {
                weight_in(entries.take(n), key)
            }),
{
    let before = entries.take(n);
    let after = entries.take(n + 1);
    assert(!listed(before, entries[n].0)) by {
        if listed(before, entries[n].0) {
            let i = choose|i: int| 0 <= i < before.len() && (#[trigger] before[i]).0 == entries[n].0;
            assert(entries[i].0.below(entries[n].0));
            K::lemma_irreflexive(entries[n].0);
        }
    }
    assert forall|key: K| #[trigger]
        weight_in(after, key) == (if key == entries[n].0 {
            entries[n].1@
        } else {
            weight_in(before, key)
        }) by {
        if key == entries[n].0 {
            assert(after[n].0 == key);
            lemma_weight_at(after, n);
        } else if listed(before, key) {
            let i = choose|i: int| 0 <= i < before.len() && (#[trigger] before[i]).0 == key;
            lemma_weight_at(before, i);
            assert(after[i] == before[i]);
            lemma_weight_at(after, i);
        } else if listed(after, key) {
            let i = choose|i: int| 0 <= i < after.len() && (#[trigger] after[i]).0 == key;
            assert(i < n);
            assert(before[i] == after[i]);
        }
    }
}

/// Where a listed key stands.
spec fn place<K: Canonical>(entries: Seq<(K, Weight)>, key: K) -> int {
    choose|i: int| 0 <= i < entries.len() && (#[trigger] entries[i]).0 == key
}

/// An entry was taken out.
proof fn lemma_removed<K: Canonical>(entries: Seq<(K, Weight)>, at: int)
    requires
        canonical(entries),
        0 <= at < entries.len(),
    ensures
        canonical(entries.remove(at)),
        sum_of(entries.remove(at)) == sum_of(entries) - entries[at].1@,
        forall|other: K| #[trigger]
            weight_in(entries.remove(at), other) == (if other == entries[at].0 {
                0
            } else {
                weight_in(entries, other)
            }),
{
    let key = entries[at].0;
    let after = entries.remove(at);
    lemma_sum_split(entries, at);
    assert(after =~= entries.take(at) + entries.skip(at + 1));
    lemma_sum_concat(entries.take(at), entries.skip(at + 1));
    assert forall|i: int, j: int| 0 <= i < j < after.len() implies (#[trigger] after[i]).0.below(
        (#[trigger] after[j]).0,
    ) by {
        let pi = if i < at { i } else { i + 1 };
        let pj = if j < at { j } else { j + 1 };
        assert(entries[pi].0.below(entries[pj].0));
    }
    assert forall|i: int| 0 <= i < after.len() implies counted((#[trigger] after[i]).1) by {
        assert(after[i] == entries[if i < at { i } else { i + 1 }]);
    }
    assert forall|other: K| #[trigger] weight_in(after, other) == (if other == key {
        0
    } else {
        weight_in(entries, other)
    }) by {
        if listed(after, other) {
            let i = place(after, other);
            let p = if i < at { i } else { i + 1 };
            lemma_weight_at(after, i);
            lemma_weight_at(entries, p);
            K::lemma_irreflexive(key);
            if p < at {
                assert(entries[p].0.below(entries[at].0));
            } else {
                assert(entries[at].0.below(entries[p].0));
            }
        } else if other != key && listed(entries, other) {
            let i = place(entries, other);
            assert(after[if i < at { i } else { i - 1 }] == entries[i]);
        }
    }
}

/// An entry got another weight.
proof fn lemma_replaced<K: Canonical>(entries: Seq<(K, Weight)>, at: int, weight: Weight)
    requires
        canonical(entries),
        0 <= at < entries.len(),
        counted(weight),
    ensures
        canonical(entries.update(at, (entries[at].0, weight))),
        sum_of(entries.update(at, (entries[at].0, weight))) == sum_of(entries) - entries[at].1@
            + weight@,
        forall|other: K| #[trigger]
            weight_in(entries.update(at, (entries[at].0, weight)), other) == (if other
                == entries[at].0 {
                weight@
            } else {
                weight_in(entries, other)
            }),
{
    let key = entries[at].0;
    let after = entries.update(at, (key, weight));
    lemma_sum_split(entries, at);
    lemma_sum_split(after, at);
    assert(after.take(at) =~= entries.take(at));
    assert(after.skip(at + 1) =~= entries.skip(at + 1));
    assert forall|i: int, j: int| 0 <= i < j < after.len() implies (#[trigger] after[i]).0.below(
        (#[trigger] after[j]).0,
    ) by {
        assert(entries[i].0.below(entries[j].0));
    }
    assert forall|i: int| 0 <= i < after.len() implies counted((#[trigger] after[i]).1) by {
        if i != at {
            assert(after[i] == entries[i]);
        }
    }
    assert forall|other: K| #[trigger] weight_in(after, other) == (if other == key {
        weight@
    } else {
        weight_in(entries, other)
    }) by {
        if listed(after, other) {
            let i = place(after, other);
            lemma_weight_at(after, i);
            lemma_weight_at(entries, i);
            if i != at && other == key {
                K::lemma_irreflexive(key);
                if i < at {
                    assert(entries[i].0.below(entries[at].0));
                } else {
                    assert(entries[at].0.below(entries[i].0));
                }
            }
        } else {
            assert(after[at].0 == key);
            if listed(entries, other) {
                let i = place(entries, other);
                assert(after[i].0 == other);
            }
        }
    }
}

/// A fresh key went in at its place.
proof fn lemma_inserted<K: Canonical>(entries: Seq<(K, Weight)>, at: int, key: K, weight: Weight)
    requires
        canonical(entries),
        0 <= at <= entries.len(),
        counted(weight),
        forall|i: int| 0 <= i < at ==> (#[trigger] entries[i]).0.below(key),
        forall|i: int| at <= i < entries.len() ==> key.below((#[trigger] entries[i]).0),
    ensures
        canonical(entries.insert(at, (key, weight))),
        sum_of(entries.insert(at, (key, weight))) == sum_of(entries) + weight@,
        forall|other: K| #[trigger]
            weight_in(entries.insert(at, (key, weight)), other) == (if other == key {
                weight@
            } else {
                weight_in(entries, other)
            }),
{
    let after = entries.insert(at, (key, weight));
    lemma_sum_split(after, at);
    assert(after.take(at) =~= entries.take(at));
    assert(after.skip(at + 1) =~= entries.skip(at));
    assert(entries =~= entries.take(at) + entries.skip(at));
    lemma_sum_concat(entries.take(at), entries.skip(at));
    assert forall|i: int, j: int| 0 <= i < j < after.len() implies (#[trigger] after[i]).0.below(
        (#[trigger] after[j]).0,
    ) by {
        let pi = if i < at { i } else { i - 1 };
        let pj = if j < at { j } else { j - 1 };
        if i != at && j != at {
            assert(entries[pi].0.below(entries[pj].0));
        } else if i == at {
            assert(key.below(entries[pj].0));
        } else {
            assert(entries[pi].0.below(key));
        }
    }
    assert forall|i: int| 0 <= i < after.len() implies counted((#[trigger] after[i]).1) by {
        if i != at {
            assert(after[i] == entries[if i < at { i } else { i - 1 }]);
        }
    }
    assert(after[at].0 == key);
    lemma_weight_at(after, at);
    assert forall|other: K| #[trigger] weight_in(after, other) == (if other == key {
        weight@
    } else {
        weight_in(entries, other)
    }) by {
        if other != key {
            if listed(after, other) {
                let i = place(after, other);
                lemma_weight_at(after, i);
                lemma_weight_at(entries, if i < at { i } else { i - 1 });
            } else if listed(entries, other) {
                let i = place(entries, other);
                assert(after[if i < at { i } else { i + 1 }] == entries[i]);
            }
        }
    }
}

/// The greatest key of a listing is greatest in any listing with the same weights.
proof fn lemma_last_key<K: Canonical>(left: Seq<(K, Weight)>, right: Seq<(K, Weight)>)
    requires
        canonical(left),
        canonical(right),
        left.len() > 0,
        right.len() > 0,
        forall|key: K| #[trigger] weight_in(left, key) == weight_in(right, key),
    ensures
        !left.last().0.below(right.last().0),
{
    let key = right.last().0;
    if left.last().0.below(key) {
        lemma_weight_at(right, right.len() - 1);
        assert(weight_in(left, key) == weight_in(right, key));
        let i = place(left, key);
        K::lemma_irreflexive(key);
        if i < left.len() - 1 {
            assert(left[i].0.below(left[left.len() - 1].0));
            K::lemma_transitive(key, left.last().0, key);
        }
    }
}

/// The weights determine the listing.
pub proof fn lemma_determined<K: Canonical>(left: Seq<(K, Weight)>, right: Seq<(K, Weight)>)
    requires
        canonical(left),
        canonical(right),
        forall|key: K| #[trigger] weight_in(left, key) == weight_in(right, key),
    ensures
        left == right,
    decreases left.len(),
{
    if left.len() == 0 {
        if right.len() > 0 {
            lemma_weight_at(right, 0);
            assert(weight_in(left, right[0].0) == weight_in(right, right[0].0));
        }
        assert(left =~= right);
    } else {
        lemma_weight_at(left, left.len() - 1);
        assert(weight_in(left, left.last().0) == weight_in(right, left.last().0));
        assert(right.len() > 0);
        lemma_weight_at(right, right.len() - 1);
        lemma_last_key(left, right);
        lemma_last_key(right, left);
        K::lemma_total(left.last().0, right.last().0);
        let l = left.drop_last();
        let r = right.drop_last();
        lemma_weight_push(left, left.len() - 1);
        lemma_weight_push(right, right.len() - 1);
        assert(left.take(left.len() - 1) =~= l);
        assert(right.take(right.len() - 1) =~= r);
        assert(left.take(left.len() as int) =~= left);
        assert(right.take(right.len() as int) =~= right);
        assert forall|key: K| #[trigger] weight_in(l, key) == weight_in(r, key) by {
            assert(weight_in(left, key) == weight_in(right, key));
        }
        lemma_determined(l, r);
        left.last().1.lemma_same(right.last().1);
        assert(left =~= l.push(left.last()));
        assert(right =~= r.push(right.last()));
    }
}

/// A weighted set.
pub struct ZSet<K> {
    entries: Vec<(K, Weight)>,
}

impl<K: Canonical> ZSet<K> {
    /// The entries in key order.
    pub closed spec fn entries(&self) -> Seq<(K, Weight)> {
        self.entries@
    }

    pub open spec fn wf(&self) -> bool {
        canonical(self.entries())
    }

    /// The weight of a key.
    pub open spec fn at(&self, key: K) -> int {
        weight_in(self.entries(), key)
    }

    /// The sum of all weights.
    pub open spec fn sum(&self) -> int {
        sum_of(self.entries())
    }

    /// No weight is negative.
    pub open spec fn positive(&self) -> bool {
        forall|key: K| #[trigger] self.at(key) >= 0
    }

    pub fn new() -> (set: ZSet<K>)
        ensures
            set.wf(),
            set.entries() == Seq::<(K, Weight)>::empty(),
            forall|key: K| #[trigger] set.at(key) == 0,
            set.sum() == 0,
    {
        ZSet { entries: Vec::new() }
    }

    /// The number of keys of nonzero weight.
    /// Whether the keys are in order and no weight is zero.
    pub fn is_wf(&self) -> (sorted: bool)
        ensures
            sorted == self.wf(),
    {
        let ghost entries = self.entries();
        let mut i: usize = 0;
        while i < self.entries.len()
            invariant
                i <= self.entries.len(),
                entries == self.entries(),
                canonical(entries.take(i as int)),
            decreases self.entries.len() - i,
        {
            let ghost seen = entries.take(i as int);
            let ghost next = entries.take(i + 1);
            if self.entries[i].1.is_zero() || !self.entries[i].1.is_fitting() {
                assert(!counted(entries[i as int].1));
                return false;
            }
            if i > 0 {
                let earlier = self.entries[i - 1].0;
                let later = self.entries[i].0;
                if !earlier.is_below(&later) {
                    assert(!entries[i - 1].0.below(entries[i as int].0));
                    return false;
                }
                proof {
                    assert forall|j: int| 0 <= j < i implies (#[trigger] entries[j]).0.below(
                        entries[i as int].0,
                    ) by {
                        if j < i - 1 {
                            assert(seen[j].0.below(seen[i - 1].0));
                            K::lemma_transitive(
                                entries[j].0,
                                entries[i - 1].0,
                                entries[i as int].0,
                            );
                        }
                    }
                }
            }
            proof {
                assert forall|a: int, b: int| 0 <= a < b < next.len() implies (
                #[trigger] next[a]).0.below((#[trigger] next[b]).0) by {
                    if b < i {
                        assert(seen[a].0.below(seen[b].0));
                    } else {
                        assert(entries[a].0.below(entries[i as int].0));
                    }
                }
                assert forall|a: int| 0 <= a < next.len() implies counted((#[trigger] next[a]).1) by {
                    if a < i {
                        assert(counted(seen[a].1));
                    }
                }
            }
            i += 1;
        }
        proof {
            assert(entries.take(i as int) =~= entries);
        }
        true
    }

    /// Whether no weight is negative.
    pub fn is_positive(&self) -> (positive: bool)
        requires
            self.wf(),
        ensures
            positive == self.positive(),
    {
        let ghost entries = self.entries();
        let mut i: usize = 0;
        while i < self.entries.len()
            invariant
                i <= self.entries.len(),
                entries == self.entries(),
                self.wf(),
                forall|j: int| 0 <= j < i ==> (#[trigger] entries[j]).1@ >= 0,
            decreases self.entries.len() - i,
        {
            if self.entries[i].1.is_negative() {
                proof {
                    lemma_weight_at(entries, i as int);
                    assert(self.at(entries[i as int].0) < 0);
                }
                return false;
            }
            i += 1;
        }
        true
    }

    pub fn len(&self) -> (n: usize)
        ensures
            n == self.entries().len(),
    {
        self.entries.len()
    }

    pub fn entry(&self, index: usize) -> (entry: (K, Weight))
        requires
            index < self.entries().len(),
        ensures
            entry == self.entries()[index as int],
    {
        let entry = &self.entries[index];
        (entry.0, entry.1)
    }

    /// The number of keys below `key`.
    fn position(&self, key: K) -> (at: usize)
        requires
            self.wf(),
        ensures
            at <= self.entries().len(),
            forall|i: int| 0 <= i < at ==> (#[trigger] self.entries()[i]).0.below(key),
            forall|i: int|
                at <= i < self.entries().len() ==> !(#[trigger] self.entries()[i]).0.below(key),
    {
        let mut low: usize = 0;
        let mut high: usize = self.entries.len();
        while low < high
            invariant
                self.wf(),
                low <= high <= self.entries().len(),
                forall|i: int| 0 <= i < low ==> (#[trigger] self.entries()[i]).0.below(key),
                forall|i: int|
                    high <= i < self.entries().len() ==> !(#[trigger] self.entries()[i]).0.below(
                        key,
                    ),
            decreases high - low,
        {
            let middle: usize = low + (high - low) / 2;
            let less = self.entries[middle].0.is_below(&key);
            proof {
                if less {
                    assert forall|i: int| 0 <= i < middle + 1 implies (#[trigger] self.entries()[i]).0.below(
                        key,
                    ) by {
                        if i < middle {
                            K::lemma_transitive(
                                self.entries()[i].0,
                                self.entries()[middle as int].0,
                                key,
                            );
                        }
                    }
                } else {
                    assert forall|i: int| middle <= i < self.entries().len() implies !(
                    #[trigger] self.entries()[i]).0.below(key) by {
                        if i > middle && self.entries()[i].0.below(key) {
                            K::lemma_transitive(
                                self.entries()[middle as int].0,
                                self.entries()[i].0,
                                key,
                            );
                        }
                    }
                }
            }
            if less {
                low = middle + 1;
            } else {
                high = middle;
            }
        }
        low
    }

    /// The entry at the first key that is not below `key` is the key's own, or the
    /// key is not listed.
    proof fn lemma_position(&self, key: K, at: int)
        requires
            self.wf(),
            0 <= at <= self.entries().len(),
            forall|i: int| 0 <= i < at ==> (#[trigger] self.entries()[i]).0.below(key),
            forall|i: int|
                at <= i < self.entries().len() ==> !(#[trigger] self.entries()[i]).0.below(key),
        ensures
            listed(self.entries(), key) <==> at < self.entries().len() && !key.below(
                self.entries()[at].0,
            ),
            listed(self.entries(), key) ==> self.entries()[at].0 == key && self.at(key)
                == self.entries()[at].1@,
            !listed(self.entries(), key) ==> self.at(key) == 0,
            forall|i: int|
                (at < i || at == i && !listed(self.entries(), key)) && i < self.entries().len()
                    ==> key.below((#[trigger] self.entries()[i]).0),
    {
        let entries = self.entries();
        K::lemma_irreflexive(key);
        if listed(entries, key) {
            let i = choose|i: int| 0 <= i < entries.len() && (#[trigger] entries[i]).0 == key;
            assert(i >= at);
            if i > at {
                assert(entries[at].0.below(entries[i].0));
            }
            lemma_weight_at(entries, at);
        }
        if at < entries.len() && !key.below(entries[at].0) {
            K::lemma_total(entries[at].0, key);
            assert(entries[at].0 == key);
        }
        assert forall|i: int|
            (at < i || at == i && !listed(entries, key)) && i < entries.len() implies key.below(
            (#[trigger] entries[i]).0,
        ) by {
            K::lemma_total(entries[i].0, key);
            if entries[i].0 == key {
                assert(listed(entries, key));
                assert(entries[at].0.below(entries[i].0));
            }
        }
    }

    /// The weight of a key.
    pub fn weight(&self, key: K) -> (weight: Weight)
        requires
            self.wf(),
        ensures
            weight@ == self.at(key),
            fits(weight@),
    {
        let at: usize = self.position(key);
        proof {
            self.lemma_position(key, at as int);
        }
        proof {
            self.lemma_fits(key);
        }
        if at < self.entries.len() && !key.is_below(&self.entries[at].0) {
            self.entries[at].1
        } else {
            Weight::zero()
        }
    }

    /// Give a key its weight. A weight of zero takes the key out.
    pub fn assign(&mut self, key: K, weight: Weight)
        requires
            old(self).wf(),
            fits(weight@),
        ensures
            final(self).wf(),
            forall|other: K| #[trigger]
                final(self).at(other) == (if other == key {
                    weight@
                } else {
                    old(self).at(other)
                }),
            final(self).sum() == old(self).sum() - old(self).at(key) + weight@,
    {
        let at: usize = self.position(key);
        proof {
            self.lemma_position(key, at as int);
        }
        let ghost entries = self.entries();
        if at < self.entries.len() && !key.is_below(&self.entries[at].0) {
            if weight.is_zero() {
                proof {
                    lemma_removed(entries, at as int);
                }
                self.entries.remove(at);
                assert(self.entries() =~= entries.remove(at as int));
            } else {
                proof {
                    lemma_replaced(entries, at as int, weight);
                }
                self.entries.set(at, (key, weight));
                assert(self.entries() =~= entries.update(at as int, (key, weight)));
            }
        } else if !weight.is_zero() {
            proof {
                lemma_inserted(entries, at as int, key, weight);
            }
            self.entries.insert(at, (key, weight));
            assert(self.entries() =~= entries.insert(at as int, (key, weight)));
        }
    }

    /// Every weight fits.
    pub proof fn lemma_fits(&self, key: K)
        requires
            self.wf(),
        ensures
            fits(self.at(key)),
    {
        if listed(self.entries(), key) {
            let i = choose|i: int|
                0 <= i < self.entries().len() && (#[trigger] self.entries()[i]).0 == key;
            assert(counted(self.entries()[i].1));
        } else {
            assert(fits(0)) by {
                lemma_reach();
            }
        }
    }

    /// Every weight of the sum with `delta` fits.
    pub open spec fn accepts(&self, delta: ZSet<K>) -> bool {
        forall|key: K| fits(#[trigger] self.at(key) + delta.at(key))
    }

    /// Add a change.
    pub fn accumulate(&mut self, delta: &ZSet<K>)
        requires
            old(self).wf(),
            delta.wf(),
            old(self).accepts(*delta),
        ensures
            final(self).wf(),
            forall|key: K| #[trigger] final(self).at(key) == old(self).at(key) + delta.at(key),
            final(self).sum() == old(self).sum() + delta.sum(),
    {
        let ghost before = *self;
        let ghost change = delta.entries();
        let mut i: usize = 0;
        proof {
            assert(change.take(0) =~= Seq::<(K, Weight)>::empty());
        }
        while i < delta.entries.len()
            invariant
                i <= delta.entries().len(),
                change == delta.entries(),
                delta.wf(),
                self.wf(),
                before.accepts(*delta),
                forall|key: K| #[trigger]
                    self.at(key) == before.at(key) + weight_in(change.take(i as int), key),
                self.sum() == before.sum() + sum_of(change.take(i as int)),
            decreases delta.entries().len() - i,
        {
            let (key, weight) = delta.entry(i);
            let current: Weight = self.weight(key);
            proof {
                lemma_weight_push(change, i as int);
                lemma_weight_at(change, i as int);
                assert(self.at(key) == before.at(key));
                assert(fits(before.at(key) + delta.at(key)));
                assert(change.take(i + 1).drop_last() =~= change.take(i as int));
            }
            match current.checked_add(weight) {
                Some(next) => {
                    self.assign(key, next);
                },
                None => {
                    assert(false);
                },
            }
            i += 1;
        }
        proof {
            assert(change.take(i as int) =~= change);
        }
    }

    /// An independent copy.
    pub fn copy(&self) -> (copy: ZSet<K>)
        ensures
            copy.entries() == self.entries(),
    {
        let mut entries: Vec<(K, Weight)> = Vec::new();
        let mut i: usize = 0;
        while i < self.entries.len()
            invariant
                i <= self.entries().len(),
                entries@ == self.entries().take(i as int),
            decreases self.entries().len() - i,
        {
            entries.push(self.entry(i));
            proof {
                assert(entries@ =~= self.entries().take(i + 1));
            }
            i += 1;
        }
        proof {
            assert(entries@ =~= self.entries());
        }
        ZSet { entries }
    }

    /// The sums of the first weights all fit.
    pub open spec fn countable(&self) -> bool {
        forall|n: int| 0 <= n <= self.entries().len() ==> fits(#[trigger] sum_of(self.entries().take(n)))
    }

    /// The sum of all weights, counted in key order.
    pub fn total_weight(&self) -> (total: Option<Weight>)
        ensures
            match total {
                Some(sum) => self.countable() && sum@ == self.sum(),
                None => !self.countable(),
            },
    {
        let mut sum: Weight = Weight::zero();
        let mut i: usize = 0;
        proof {
            lemma_reach();
            assert(self.entries().take(0) =~= Seq::<(K, Weight)>::empty());
        }
        while i < self.entries.len()
            invariant
                i <= self.entries().len(),
                sum@ == sum_of(self.entries().take(i as int)),
                forall|n: int| 0 <= n <= i ==> fits(#[trigger] sum_of(self.entries().take(n))),
            decreases self.entries().len() - i,
        {
            proof {
                assert(self.entries().take(i + 1).drop_last() =~= self.entries().take(i as int));
            }
            match sum.checked_add(self.entry(i).1) {
                Some(next) => {
                    sum = next;
                },
                None => {
                    assert(!fits(sum_of(self.entries().take(i + 1))));
                    return None;
                },
            }
            i += 1;
        }
        proof {
            assert(self.entries().take(i as int) =~= self.entries());
        }
        Some(sum)
    }

    /// What changed from `before`. Neither has a negative weight.
    pub fn change_from(&self, before: &ZSet<K>) -> (delta: ZSet<K>)
        requires
            self.wf(),
            before.wf(),
            self.positive(),
            before.positive(),
        ensures
            delta.wf(),
            forall|key: K| #[trigger] delta.at(key) == self.at(key) - before.at(key),
            delta.sum() == self.sum() - before.sum(),
    {
        let mut delta = self.copy();
        let ghost entries = before.entries();
        let mut i: usize = 0;
        proof {
            assert(entries.take(0) =~= Seq::<(K, Weight)>::empty());
        }
        while i < before.entries.len()
            invariant
                i <= before.entries().len(),
                entries == before.entries(),
                before.wf(),
                before.positive(),
                self.positive(),
                delta.wf(),
                forall|key: K| #[trigger]
                    delta.at(key) == self.at(key) - weight_in(entries.take(i as int), key),
                delta.sum() == self.sum() - sum_of(entries.take(i as int)),
            decreases before.entries().len() - i,
        {
            let (key, weight) = before.entry(i);
            let current: Weight = delta.weight(key);
            proof {
                lemma_weight_push(entries, i as int);
                lemma_weight_at(entries, i as int);
                assert(entries.take(i + 1).drop_last() =~= entries.take(i as int));
                assert(self.at(key) >= 0);
                assert(before.at(key) >= 0);
            }
            match current.checked_sub(weight) {
                Some(next) => {
                    delta.assign(key, next);
                },
                None => {
                    assert(false);
                },
            }
            i += 1;
        }
        proof {
            assert(entries.take(i as int) =~= entries);
        }
        delta
    }
}

} // verus!
