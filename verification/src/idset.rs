//! Ordered sets and maps keyed by raw identities, and sets of graph elements.

use vstd::prelude::*;
use crate::ids::{EId, ElementId, VId};

verus! {

/// Strictly increasing, hence also free of duplicates.
pub open spec fn increasing(items: Seq<u128>) -> bool {
    forall|i: int, j: int| 0 <= i < j < items.len() ==> items[i] < items[j]
}

/// A set of raw identities that hands its members out in increasing order.
pub struct IdSet {
    items: Vec<u128>,
}

impl IdSet {
    /// The members in increasing order.
    pub closed spec fn seq(&self) -> Seq<u128> {
        self.items@
    }

    pub open spec fn wf(&self) -> bool {
        increasing(self.seq())
    }

    /// The members as a set.
    pub open spec fn view(&self) -> Set<u128> {
        self.seq().to_set()
    }

    pub fn new() -> (set: IdSet)
        ensures
            set.wf(),
            set.seq() =~= Seq::<u128>::empty(),
            set@ =~= Set::<u128>::empty(),
    {
        IdSet { items: Vec::new() }
    }

    pub fn len(&self) -> (n: usize)
        ensures
            n == self.seq().len(),
    {
        self.items.len()
    }

    pub fn is_empty(&self) -> (empty: bool)
        ensures
            empty <==> self@ =~= Set::<u128>::empty(),
    {
        let empty = self.items.len() == 0;
        proof {
            if !empty {
                assert(self.seq()[0] == self.items@[0]);
                assert(self@.contains(self.seq()[0]));
            }
        }
        empty
    }

    /// The member at a position of the increasing order.
    pub fn at(&self, index: usize) -> (id: u128)
        requires
            index < self.seq().len(),
        ensures
            id == self.seq()[index as int],
            self@.contains(id),
    {
        self.items[index]
    }

    /// The number of members below `id`.
    fn position(&self, id: u128) -> (at: usize)
        requires
            self.wf(),
        ensures
            at <= self.seq().len(),
            forall|i: int| 0 <= i < at ==> self.seq()[i] < id,
            forall|i: int| at <= i < self.seq().len() ==> self.seq()[i] >= id,
    {
        let mut low: usize = 0;
        let mut high: usize = self.items.len();
        while low < high
            invariant
                self.wf(),
                low <= high <= self.seq().len(),
                forall|i: int| 0 <= i < low ==> self.seq()[i] < id,
                forall|i: int| high <= i < self.seq().len() ==> self.seq()[i] >= id,
            decreases high - low,
        {
            let middle: usize = low + (high - low) / 2;
            if self.items[middle] < id {
                low = middle + 1;
            } else {
                high = middle;
            }
        }
        low
    }

    pub fn contains(&self, id: u128) -> (found: bool)
        requires
            self.wf(),
        ensures
            found == self@.contains(id),
    {
        let at: usize = self.position(id);
        if at < self.items.len() && self.items[at] == id {
            assert(self.seq()[at as int] == id);
            true
        } else {
            assert forall|i: int| 0 <= i < self.seq().len() implies self.seq()[i] != id by {
                if at <= i && at < self.seq().len() && i != at {
                    assert(self.seq()[at as int] < self.seq()[i]);
                }
            }
            false
        }
    }

    /// Add one member; the result says whether it is new.
    pub fn insert(&mut self, id: u128) -> (fresh: bool)
        requires
            old(self).wf(),
        ensures
            final(self).wf(),
            final(self)@ =~= old(self)@.insert(id),
            fresh == !old(self)@.contains(id),
    {
        let at: usize = self.position(id);
        if at < self.items.len() && self.items[at] == id {
            assert(self.seq()[at as int] == id);
            assert(self@.contains(id));
            return false;
        }
        proof {
            assert forall|i: int| 0 <= i < self.seq().len() implies self.seq()[i] != id by {
                if at <= i && at < self.seq().len() && i != at {
                    assert(self.seq()[at as int] < self.seq()[i]);
                }
            }
            assert(!self@.contains(id));
        }
        let ghost before = self.items@;
        self.items.insert(at, id);
        proof {
            let after = self.items@;
            assert(after =~= before.insert(at as int, id));
            assert forall|i: int, j: int| 0 <= i < j < after.len() implies after[i] < after[j] by {
                let pi = if i < at { i } else { i - 1 };
                let pj = if j < at { j } else { j - 1 };
                if i != at && j != at {
                    assert(before[pi] < before[pj]);
                }
                if at < before.len() {
                    assert(before[at as int] != id);
                }
                if i == at {
                    assert(before[pj] >= id);
                    assert(before[pj] != id);
                }
            }
            assert forall|x: u128| #[trigger] self@.contains(x) == old(self)@.insert(id).contains(x) by {
                if self@.contains(x) {
                    let k = choose|k: int| 0 <= k < after.len() && after[k] == x;
                    if k < at {
                        assert(before[k] == x);
                    } else if k > at {
                        assert(before[k - 1] == x);
                    }
                }
                if old(self)@.contains(x) {
                    let k = choose|k: int| 0 <= k < before.len() && before[k] == x;
                    if k < at {
                        assert(after[k] == x);
                    } else {
                        assert(after[k + 1] == x);
                    }
                }
                if x == id {
                    assert(after[at as int] == id);
                }
            }
        }
        true
    }

    /// Add every member of another set.
    pub fn extend(&mut self, other: &IdSet)
        requires
            old(self).wf(),
            other.wf(),
        ensures
            final(self).wf(),
            final(self)@ =~= old(self)@.union(other@),
    {
        let mut i: usize = 0;
        while i < other.len()
            invariant
                i <= other.seq().len(),
                self.wf(),
                other.wf(),
                self@ =~= old(self)@.union(other.seq().take(i as int).to_set()),
            decreases other.seq().len() - i,
        {
            let id: u128 = other.at(i);
            self.insert(id);
            proof {
                let seen = other.seq().take(i as int);
                let next = other.seq().take(i + 1);
                assert(next =~= seen.push(id));
                lemma_push_to_set(seen, id);
            }
            i += 1;
        }
        proof {
            assert(other.seq().take(i as int) =~= other.seq());
        }
    }

    /// Whether the members are in increasing order.
    pub fn is_wf(&self) -> (sorted: bool)
        ensures
            sorted == self.wf(),
    {
        let mut i: usize = 1;
        while i < self.items.len()
            invariant
                1 <= i,
                i <= self.items.len() || self.items.len() == 0,
                forall|a: int, b: int|
                    0 <= a < b < i && b < self.items@.len() ==> self.items@[a] < self.items@[b],
            decreases self.items.len() - i,
        {
            if self.items[i - 1] >= self.items[i] {
                assert(!(self.seq()[i - 1] < self.seq()[i as int]));
                return false;
            }
            assert forall|a: int, b: int| 0 <= a < b < i + 1 implies self.items@[a]
                < self.items@[b] by {
                if b == i && a < i - 1 {
                    assert(self.items@[a] < self.items@[i - 1]);
                }
            }
            i += 1;
        }
        true
    }

    pub fn clear(&mut self)
        ensures
            final(self).wf(),
            final(self)@ =~= Set::<u128>::empty(),
            final(self).seq() =~= Seq::<u128>::empty(),
    {
        self.items.clear();
    }
}

/// Pushing adds exactly the pushed member.
pub proof fn lemma_push_to_set<T>(items: Seq<T>, item: T)
    ensures
        items.push(item).to_set() == items.to_set().insert(item),
{
    let after = items.push(item);
    assert forall|x: T| #[trigger] after.to_set().contains(x) == items.to_set().insert(
        item,
    ).contains(x) by {
        if after.contains(x) && x != item {
            let k = after.index_of(x);
            assert(items[k] == x);
        }
        if items.contains(x) {
            let k = items.index_of(x);
            assert(after[k] == x);
        }
        assert(after[items.len() as int] == item);
    }
    assert(after.to_set() =~= items.to_set().insert(item));
}

/// The members of a finite set in increasing order.
pub open spec fn sorted_ids(set: Set<u128>) -> Seq<u128> {
    choose|items: Seq<u128>| increasing(items) && #[trigger] items.to_set() == set
}

/// There is only one increasing order.
pub proof fn lemma_sorted_unique(left: Seq<u128>, right: Seq<u128>)
    requires
        increasing(left),
        increasing(right),
        left.to_set() == right.to_set(),
    ensures
        left == right,
    decreases left.len(),
{
    if left.len() > 0 && right.len() > 0 {
        let l = left.last();
        let r = right.last();
        assert(right.to_set().contains(l)) by {
            assert(left[left.len() - 1] == l);
            assert(left.to_set().contains(l));
        }
        assert(left.to_set().contains(r)) by {
            assert(right[right.len() - 1] == r);
            assert(right.to_set().contains(r));
        }
        let i = left.index_of(r);
        let j = right.index_of(l);
        assert(left[i] == r && right[j] == l);
        assert(l == r) by {
            if i < left.len() - 1 {
                assert(left[i] < left[left.len() - 1]);
            }
            if j < right.len() - 1 {
                assert(right[j] < right[right.len() - 1]);
            }
        }
        let left_rest = left.drop_last();
        let right_rest = right.drop_last();
        assert forall|x: u128| #[trigger] left_rest.to_set().contains(x)
            == right_rest.to_set().contains(x) by {
            lemma_without_last(left, x);
            lemma_without_last(right, x);
            assert(left.to_set().contains(x) == right.to_set().contains(x));
        }
        assert(left_rest.to_set() =~= right_rest.to_set());
        lemma_sorted_unique(left_rest, right_rest);
        assert(left =~= left_rest.push(l));
        assert(right =~= right_rest.push(r));
    } else if left.len() > 0 {
        assert(left.to_set().contains(left[0]));
        assert(right.to_set().contains(left[0]));
    } else if right.len() > 0 {
        assert(right.to_set().contains(right[0]));
        assert(left.to_set().contains(right[0]));
    } else {
        assert(left =~= right);
    }
}

proof fn lemma_without_last(items: Seq<u128>, x: u128)
    requires
        increasing(items),
        items.len() > 0,
    ensures
        items.drop_last().to_set().contains(x) == (items.to_set().contains(x) && x
            != items.last()),
{
    let rest = items.drop_last();
    if rest.contains(x) {
        let k = rest.index_of(x);
        assert(items[k] == x);
        assert(items[k] < items[items.len() - 1]);
    }
    if items.contains(x) && x != items.last() {
        let k = items.index_of(x);
        assert(rest[k] == x);
    }
}

/// A finite set that is not empty has a greatest member.
proof fn lemma_greatest(set: Set<u128>) -> (greatest: u128)
    requires
        set.finite(),
        set.len() > 0,
    ensures
        set.contains(greatest),
        forall|x: u128| #[trigger] set.contains(x) ==> x <= greatest,
    decreases set.len(),
{
    let x = set.choose();
    let rest = set.remove(x);
    if rest.len() == 0 {
        assert forall|y: u128| #[trigger] set.contains(y) implies y <= x by {
            if y != x {
                assert(rest.contains(y));
            }
        }
        x
    } else {
        let m = lemma_greatest(rest);
        assert forall|y: u128| #[trigger] set.contains(y) implies y <= m || y <= x by {
            if y != x {
                assert(rest.contains(y));
            }
        }
        if m < x {
            x
        } else {
            m
        }
    }
}

/// Every finite set has an increasing order.
pub proof fn lemma_sorted_exists(set: Set<u128>)
    requires
        set.finite(),
    ensures
        increasing(sorted_ids(set)),
        sorted_ids(set).to_set() == set,
    decreases set.len(),
{
    if set.len() == 0 {
        let items = Seq::<u128>::empty();
        assert(items.to_set() =~= set);
        assert(increasing(items) && items.to_set() == set);
    } else {
        let m = lemma_greatest(set);
        let rest = set.remove(m);
        lemma_sorted_exists(rest);
        let shorter = sorted_ids(rest);
        let items = shorter.push(m);
        lemma_push_to_set(shorter, m);
        assert(items.to_set() =~= set);
        assert forall|i: int, j: int| 0 <= i < j < items.len() implies items[i] < items[j] by {
            if j == items.len() - 1 {
                assert(shorter.to_set().contains(shorter[i]));
                assert(rest.contains(shorter[i]));
            }
        }
        assert(increasing(items) && items.to_set() == set);
    }
}

impl IdSet {
    /// A set hands its members out in the increasing order.
    pub proof fn lemma_sorted(&self)
        requires
            self.wf(),
        ensures
            self.seq() == sorted_ids(self@),
    {
        let chosen = sorted_ids(self@);
        assert(increasing(self.seq()) && self.seq().to_set() == self@);
        lemma_sorted_unique(self.seq(), chosen);
    }

    /// A set has as many members as it hands out.
    pub proof fn lemma_len(&self)
        requires
            self.wf(),
        ensures
            self@.len() == self.seq().len(),
            self@.finite(),
    {
        assert(self.seq().no_duplicates()) by {
            assert forall|i: int, j: int|
                0 <= i < self.seq().len() && 0 <= j < self.seq().len() && i
                    != j implies self.seq()[i] != self.seq()[j] by {
                if i < j {
                    assert(self.seq()[i] < self.seq()[j]);
                } else {
                    assert(self.seq()[j] < self.seq()[i]);
                }
            }
        }
        self.seq().unique_seq_to_set();
    }
}

/// A map from raw identities that hands its entries out in increasing key order.
pub struct IdMap<T> {
    keys: Vec<u128>,
    values: Vec<T>,
}

impl<T> IdMap<T> {
    /// The keys in increasing order.
    pub closed spec fn key_seq(&self) -> Seq<u128> {
        self.keys@
    }

    /// The values in the order of their keys.
    pub closed spec fn value_seq(&self) -> Seq<T> {
        self.values@
    }

    pub open spec fn wf(&self) -> bool {
        &&& increasing(self.key_seq())
        &&& self.key_seq().len() == self.value_seq().len()
    }

    /// The entries as a map.
    pub open spec fn view(&self) -> Map<u128, T> {
        Map::new(
            |key: u128| self.key_seq().contains(key),
            |key: u128| self.value_seq()[self.key_seq().index_of(key)],
        )
    }

    /// Every position holds the entry of its key.
    pub proof fn lemma_position(&self, index: int)
        requires
            self.wf(),
            0 <= index < self.key_seq().len(),
        ensures
            self@.dom().contains(self.key_seq()[index]),
            self@[self.key_seq()[index]] == self.value_seq()[index],
    {
        let key = self.key_seq()[index];
        assert(self.key_seq().contains(key));
        let found = self.key_seq().index_of(key);
        assert(self.key_seq()[found] == key);
        assert(found == index) by {
            if found < index {
                assert(self.key_seq()[found] < self.key_seq()[index]);
            }
            if index < found {
                assert(self.key_seq()[index] < self.key_seq()[found]);
            }
        }
    }

    pub fn new() -> (map: IdMap<T>)
        ensures
            map.wf(),
            map.key_seq() =~= Seq::<u128>::empty(),
            map@ =~= Map::<u128, T>::empty(),
    {
        IdMap { keys: Vec::new(), values: Vec::new() }
    }

    pub fn len(&self) -> (n: usize)
        ensures
            n == self.key_seq().len(),
    {
        self.keys.len()
    }

    pub fn key_at(&self, index: usize) -> (key: u128)
        requires
            self.wf(),
            index < self.key_seq().len(),
        ensures
            key == self.key_seq()[index as int],
            self@.dom().contains(key),
    {
        self.keys[index]
    }

    pub fn value_at(&self, index: usize) -> (value: &T)
        requires
            self.wf(),
            index < self.key_seq().len(),
        ensures
            *value == self.value_seq()[index as int],
            *value == self@[self.key_seq()[index as int]],
    {
        proof {
            self.lemma_position(index as int);
        }
        &self.values[index]
    }

    /// The number of keys below `key`.
    fn position(&self, key: u128) -> (at: usize)
        requires
            self.wf(),
        ensures
            at <= self.key_seq().len(),
            forall|i: int| 0 <= i < at ==> self.key_seq()[i] < key,
            forall|i: int| at <= i < self.key_seq().len() ==> self.key_seq()[i] >= key,
            self@.dom().contains(key) <==> at < self.key_seq().len() && self.key_seq()[at as int]
                == key,
    {
        let mut low: usize = 0;
        let mut high: usize = self.keys.len();
        while low < high
            invariant
                self.wf(),
                low <= high <= self.key_seq().len(),
                forall|i: int| 0 <= i < low ==> self.key_seq()[i] < key,
                forall|i: int| high <= i < self.key_seq().len() ==> self.key_seq()[i] >= key,
            decreases high - low,
        {
            let middle: usize = low + (high - low) / 2;
            if self.keys[middle] < key {
                low = middle + 1;
            } else {
                high = middle;
            }
        }
        proof {
            if self@.dom().contains(key) {
                let k = self.key_seq().index_of(key);
                assert(self.key_seq()[k] == key);
                if low < k {
                    assert(self.key_seq()[low as int] < self.key_seq()[k]);
                }
            }
        }
        low
    }

    pub fn get(&self, key: u128) -> (value: Option<&T>)
        requires
            self.wf(),
        ensures
            match value {
                Some(found) => self@.dom().contains(key) && *found == self@[key],
                None => !self@.dom().contains(key),
            },
    {
        let at: usize = self.position(key);
        if at < self.keys.len() && self.keys[at] == key {
            proof {
                self.lemma_position(at as int);
            }
            Some(&self.values[at])
        } else {
            None
        }
    }

    pub fn insert(&mut self, key: u128, value: T)
        requires
            old(self).wf(),
        ensures
            final(self).wf(),
            final(self)@ =~= old(self)@.insert(key, value),
    {
        let at: usize = self.position(key);
        let ghost before = *self;
        if at < self.keys.len() && self.keys[at] == key {
            self.values.set(at, value);
            proof {
                assert(self.key_seq() =~= before.key_seq());
                assert forall|k: u128| #[trigger] self.key_seq().contains(k) implies self@[k]
                    == before@.insert(key, value)[k] by {
                    let i = self.key_seq().index_of(k);
                    self.lemma_position(i);
                    before.lemma_position(i);
                    if i != at {
                        if i < at {
                            assert(self.key_seq()[i] < self.key_seq()[at as int]);
                        } else {
                            assert(self.key_seq()[at as int] < self.key_seq()[i]);
                        }
                    }
                }
                assert(before@.dom().contains(key));
            }
            return;
        }
        self.keys.insert(at, key);
        self.values.insert(at, value);
        proof {
            let after = *self;
            assert(after.key_seq() =~= before.key_seq().insert(at as int, key));
            assert(after.value_seq() =~= before.value_seq().insert(at as int, value));
            assert forall|i: int, j: int|
                0 <= i < j < after.key_seq().len() implies after.key_seq()[i]
                < after.key_seq()[j] by {
                let pi = if i < at { i } else { i - 1 };
                let pj = if j < at { j } else { j - 1 };
                if i != at && j != at {
                    assert(before.key_seq()[pi] < before.key_seq()[pj]);
                }
                if i == at {
                    assert(before.key_seq()[pj] >= key);
                    if at < pj {
                        assert(before.key_seq()[at as int] < before.key_seq()[pj]);
                    }
                }
            }
            assert forall|k: u128|
                #[trigger] after@.dom().contains(k) == before@.insert(key, value).dom().contains(
                    k,
                ) by {
                if after.key_seq().contains(k) {
                    let i = after.key_seq().index_of(k);
                    if i < at {
                        assert(before.key_seq()[i] == k);
                    } else if i > at {
                        assert(before.key_seq()[i - 1] == k);
                    }
                }
                if before.key_seq().contains(k) {
                    let i = before.key_seq().index_of(k);
                    if i < at {
                        assert(after.key_seq()[i] == k);
                    } else {
                        assert(after.key_seq()[i + 1] == k);
                    }
                }
                assert(after.key_seq()[at as int] == key);
            }
            assert forall|k: u128| #[trigger] after.key_seq().contains(k) implies after@[k]
                == before@.insert(key, value)[k] by {
                let i = after.key_seq().index_of(k);
                after.lemma_position(i);
                if i < at {
                    before.lemma_position(i);
                } else if i > at {
                    before.lemma_position(i - 1);
                }
            }
        }
    }

    pub fn remove(&mut self, key: u128) -> (removed: Option<T>)
        requires
            old(self).wf(),
        ensures
            final(self).wf(),
            final(self)@ =~= old(self)@.remove(key),
            match removed {
                Some(value) => old(self)@.dom().contains(key) && value == old(self)@[key],
                None => !old(self)@.dom().contains(key),
            },
    {
        let at: usize = self.position(key);
        let ghost before = *self;
        if at < self.keys.len() && self.keys[at] == key {
            self.keys.remove(at);
            let value = self.values.remove(at);
            proof {
                let after = *self;
                before.lemma_position(at as int);
                assert(after.key_seq() =~= before.key_seq().remove(at as int));
                assert(after.value_seq() =~= before.value_seq().remove(at as int));
                assert forall|i: int, j: int|
                    0 <= i < j < after.key_seq().len() implies after.key_seq()[i]
                    < after.key_seq()[j] by {
                    let pi = if i < at { i } else { i + 1 };
                    let pj = if j < at { j } else { j + 1 };
                    assert(before.key_seq()[pi] < before.key_seq()[pj]);
                }
                assert forall|k: u128|
                    #[trigger] after@.dom().contains(k) == before@.remove(key).dom().contains(k) by {
                    if after.key_seq().contains(k) {
                        let i = after.key_seq().index_of(k);
                        let p = if i < at { i } else { i + 1 };
                        assert(before.key_seq()[p] == k);
                        if p < at {
                            assert(before.key_seq()[p] < before.key_seq()[at as int]);
                        } else {
                            assert(before.key_seq()[at as int] < before.key_seq()[p]);
                        }
                    }
                    if before.key_seq().contains(k) && k != key {
                        let i = before.key_seq().index_of(k);
                        if i < at {
                            assert(after.key_seq()[i] == k);
                        } else {
                            assert(after.key_seq()[i - 1] == k);
                        }
                    }
                }
                assert forall|k: u128| #[trigger] after.key_seq().contains(k) implies after@[k]
                    == before@.remove(key)[k] by {
                    let i = after.key_seq().index_of(k);
                    after.lemma_position(i);
                    before.lemma_position(if i < at { i } else { i + 1 });
                }
            }
            Some(value)
        } else {
            None
        }
    }

    /// The values in increasing key order.
    pub fn into_values(self) -> (values: Vec<T>)
        ensures
            values@ == self.value_seq(),
    {
        self.values
    }
}

/// A set of graph elements, ordered with the vertices first.
pub struct ElementSet {
    pub vertices: IdSet,
    pub edges: IdSet,
}

impl ElementSet {
    pub open spec fn wf(&self) -> bool {
        &&& self.vertices.wf()
        &&& self.edges.wf()
    }

    pub open spec fn view(&self) -> Set<ElementId> {
        Set::new(
            |element: ElementId|
                match element {
                    ElementId::Vertex(vid) => self.vertices@.contains(vid.0),
                    ElementId::Edge(eid) => self.edges@.contains(eid.0),
                },
        )
    }

    /// The members in canonical order: vertices, then edges, each increasing.
    pub open spec fn seq(&self) -> Seq<ElementId> {
        self.vertices.seq().map_values(|raw: u128| ElementId::Vertex(VId(raw)))
            + self.edges.seq().map_values(|raw: u128| ElementId::Edge(EId(raw)))
    }

    pub fn new() -> (set: ElementSet)
        ensures
            set.wf(),
            set@ =~= Set::<ElementId>::empty(),
            set.seq() =~= Seq::<ElementId>::empty(),
    {
        ElementSet { vertices: IdSet::new(), edges: IdSet::new() }
    }

    pub fn is_empty(&self) -> (empty: bool)
        ensures
            empty <==> self@ =~= Set::<ElementId>::empty(),
    {
        let empty = self.vertices.is_empty() && self.edges.is_empty();
        proof {
            if self@ =~= Set::<ElementId>::empty() {
                assert forall|raw: u128| !self.vertices@.contains(raw) by {
                    assert(!self@.contains(ElementId::Vertex(VId(raw))));
                }
                assert forall|raw: u128| !self.edges@.contains(raw) by {
                    assert(!self@.contains(ElementId::Edge(EId(raw))));
                }
                assert(self.vertices@ =~= Set::<u128>::empty());
                assert(self.edges@ =~= Set::<u128>::empty());
            }
        }
        empty
    }

    pub fn len(&self) -> (n: u128)
        ensures
            n == self.seq().len(),
    {
        self.vertices.len() as u128 + self.edges.len() as u128
    }

    pub fn contains(&self, element: ElementId) -> (found: bool)
        requires
            self.wf(),
        ensures
            found == self@.contains(element),
    {
        match element {
            ElementId::Vertex(vid) => self.vertices.contains(vid.0),
            ElementId::Edge(eid) => self.edges.contains(eid.0),
        }
    }

    pub fn insert(&mut self, element: ElementId)
        requires
            old(self).wf(),
        ensures
            final(self).wf(),
            final(self)@ =~= old(self)@.insert(element),
    {
        match element {
            ElementId::Vertex(vid) => {
                self.vertices.insert(vid.0);
            },
            ElementId::Edge(eid) => {
                self.edges.insert(eid.0);
            },
        }
    }

    /// Add every member of another set.
    pub fn extend(&mut self, other: &ElementSet)
        requires
            old(self).wf(),
            other.wf(),
        ensures
            final(self).wf(),
            final(self)@ =~= old(self)@.union(other@),
    {
        self.vertices.extend(&other.vertices);
        self.edges.extend(&other.edges);
    }

    pub fn clear(&mut self)
        ensures
            final(self).wf(),
            final(self)@ =~= Set::<ElementId>::empty(),
    {
        self.vertices.clear();
        self.edges.clear();
    }
}

} // verus!
