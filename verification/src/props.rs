//! Sorted property lists and their overlay.

use vstd::prelude::*;
use crate::ids::{CanonicalScalar, PropertyKeyId};

verus! {

/// Property lists are kept strictly increasing by key.
pub open spec fn props_sorted(props: Seq<(PropertyKeyId, CanonicalScalar)>) -> bool {
    forall|i: int, j: int| 0 <= i < j < props.len() ==> props[i].0.0 < props[j].0.0
}

/// Some entry of the list carries this key.
pub open spec fn has_key(props: Seq<(PropertyKeyId, CanonicalScalar)>, key: PropertyKeyId) -> bool {
    exists|i: int| 0 <= i < props.len() && (#[trigger] props[i]).0 == key
}

/// The property list as a map.
pub open spec fn props_map(props: Seq<(PropertyKeyId, CanonicalScalar)>) -> Map<
    PropertyKeyId,
    CanonicalScalar,
> {
    Map::new(
        |key: PropertyKeyId| has_key(props, key),
        |key: PropertyKeyId|
            props[choose|i: int| 0 <= i < props.len() && (#[trigger] props[i]).0 == key].1,
    )
}

/// One property write: set the key, or remove it.
pub open spec fn overlaid(
    props: Map<PropertyKeyId, CanonicalScalar>,
    key: PropertyKeyId,
    value: Option<CanonicalScalar>,
) -> Map<PropertyKeyId, CanonicalScalar> {
    match value {
        Some(scalar) => props.insert(key, scalar),
        None => props.remove(key),
    }
}

/// A sorted list's map holds at each key the value listed beside it.
pub proof fn lemma_props_at(props: Seq<(PropertyKeyId, CanonicalScalar)>, at: int)
    requires
        props_sorted(props),
        0 <= at < props.len(),
    ensures
        props_map(props).dom().contains(props[at].0),
        props_map(props)[props[at].0] == props[at].1,
{
    let key = props[at].0;
    assert(has_key(props, key));
    let found = choose|i: int| 0 <= i < props.len() && (#[trigger] props[i]).0 == key;
    if found < at {
        assert(props[found].0.0 < props[at].0.0);
    }
    if at < found {
        assert(props[at].0.0 < props[found].0.0);
    }
}

/// A sorted list is determined by its map.
pub proof fn lemma_props_determined(
    left: Seq<(PropertyKeyId, CanonicalScalar)>,
    right: Seq<(PropertyKeyId, CanonicalScalar)>,
)
    requires
        props_sorted(left),
        props_sorted(right),
        props_map(left) == props_map(right),
    ensures
        left == right,
    decreases left.len() + right.len(),
{
    if left.len() > 0 && right.len() > 0 {
        let l = left.last();
        let r = right.last();
        lemma_props_at(left, left.len() - 1);
        lemma_props_at(right, right.len() - 1);
        assert(has_key(left, r.0) && has_key(right, l.0));
        let i = choose|i: int| 0 <= i < left.len() && (#[trigger] left[i]).0 == r.0;
        let j = choose|j: int| 0 <= j < right.len() && (#[trigger] right[j]).0 == l.0;
        assert(r.0.0 <= l.0.0);
        assert(l.0.0 <= r.0.0);
        assert(l == r);
        let left_rest = left.drop_last();
        let right_rest = right.drop_last();
        lemma_props_without_last(left);
        lemma_props_without_last(right);
        assert(props_map(left_rest) =~= props_map(right_rest));
        lemma_props_determined(left_rest, right_rest);
        assert(left =~= left_rest.push(l));
        assert(right =~= right_rest.push(r));
    } else if left.len() > 0 {
        lemma_props_at(left, 0);
        assert(!props_map(right).dom().contains(left[0].0));
    } else if right.len() > 0 {
        lemma_props_at(right, 0);
        assert(!props_map(left).dom().contains(right[0].0));
    } else {
        assert(left =~= right);
    }
}

proof fn lemma_props_without_last(props: Seq<(PropertyKeyId, CanonicalScalar)>)
    requires
        props_sorted(props),
        props.len() > 0,
    ensures
        props_sorted(props.drop_last()),
        props_map(props.drop_last()) == props_map(props).remove(props.last().0),
{
    let rest = props.drop_last();
    let key = props.last().0;
    assert forall|k: PropertyKeyId| #[trigger]
        props_map(rest).dom().contains(k) == props_map(props).remove(key).dom().contains(k) by {
        if has_key(rest, k) {
            let i = choose|i: int| 0 <= i < rest.len() && (#[trigger] rest[i]).0 == k;
            assert(props[i].0 == k);
            assert(props[i].0.0 < props.last().0.0);
        }
        if has_key(props, k) && k != key {
            let i = choose|i: int| 0 <= i < props.len() && (#[trigger] props[i]).0 == k;
            assert(rest[i].0 == k);
        }
    }
    assert forall|k: PropertyKeyId| #[trigger] props_map(rest).dom().contains(k) implies props_map(
        rest,
    )[k] == props_map(props)[k] by {
        let i = choose|i: int| 0 <= i < rest.len() && (#[trigger] rest[i]).0 == k;
        lemma_props_at(rest, i);
        assert(props[i] == rest[i]);
        lemma_props_at(props, i);
    }
    assert(props_map(rest) =~= props_map(props).remove(key));
}

/// Copy a property list.
pub fn clone_props(props: &Vec<(PropertyKeyId, CanonicalScalar)>) -> (copy: Vec<
    (PropertyKeyId, CanonicalScalar),
>)
    ensures
        copy@ == props@,
{
    let mut copy: Vec<(PropertyKeyId, CanonicalScalar)> = Vec::new();
    let mut i: usize = 0;
    while i < props.len()
        invariant
            i <= props.len(),
            copy@ == props@.take(i as int),
        decreases props.len() - i,
    {
        copy.push(props[i]);
        i += 1;
    }
    copy
}

/// Write one property into a sorted list, or remove it.
pub fn overlay_property(
    props: &mut Vec<(PropertyKeyId, CanonicalScalar)>,
    key: PropertyKeyId,
    value: Option<CanonicalScalar>,
)
    requires
        props_sorted(old(props)@),
    ensures
        props_sorted(final(props)@),
        props_map(final(props)@) =~= overlaid(props_map(old(props)@), key, value),
{
    let mut at: usize = 0;
    while at < props.len() && props[at].0.0 < key.0
        invariant
            at <= props.len(),
            props@ == old(props)@,
            forall|i: int| 0 <= i < at ==> (#[trigger] props@[i]).0.0 < key.0,
        decreases props.len() - at,
    {
        at += 1;
    }
    let ghost before = props@;
    proof {
        assert forall|i: int| at < i < before.len() implies (#[trigger] before[i]).0.0 > key.0 by {
            assert(before[at as int].0.0 < before[i].0.0);
        }
    }
    if at < props.len() && props[at].0.0 == key.0 {
        proof {
            assert(before[at as int].0 == key);
            lemma_props_at(before, at as int);
        }
        match value {
            Some(scalar) => {
                props.set(at, (key, scalar));
                proof {
                    let after = props@;
                    assert forall|k: PropertyKeyId|
                        #[trigger] props_map(after).dom().contains(k) == props_map(
                            before,
                        ).dom().contains(k) by {
                        if has_key(after, k) {
                            let i = choose|i: int| 0 <= i < after.len() && (#[trigger] after[i]).0 == k;
                            assert(before[i].0 == k);
                        }
                        if has_key(before, k) {
                            let i = choose|i: int|
                                0 <= i < before.len() && (#[trigger] before[i]).0 == k;
                            assert(after[i].0 == k);
                        }
                    }
                    assert forall|k: PropertyKeyId|
                        #[trigger] props_map(after).dom().contains(k) implies props_map(after)[k]
                        == overlaid(props_map(before), key, value)[k] by {
                        let i = choose|i: int| 0 <= i < after.len() && (#[trigger] after[i]).0 == k;
                        lemma_props_at(after, i);
                        lemma_props_at(before, i);
                        if i != at {
                            assert(before[i].0 == k);
                        }
                    }
                }
            },
            None => {
                props.remove(at);
                proof {
                    let after = props@;
                    assert(after =~= before.remove(at as int));
                    lemma_removed(before, after, at as int);
                }
            },
        }
    } else {
        proof {
            assert(!has_key(before, key));
        }
        match value {
            Some(scalar) => {
                props.insert(at, (key, scalar));
                proof {
                    let after = props@;
                    assert(after =~= before.insert(at as int, (key, scalar)));
                    lemma_inserted(before, after, at as int);
                }
            },
            None => {
                assert(props_map(before).remove(key) =~= props_map(before));
            },
        }
    }
}

proof fn lemma_removed(
    before: Seq<(PropertyKeyId, CanonicalScalar)>,
    after: Seq<(PropertyKeyId, CanonicalScalar)>,
    at: int,
)
    requires
        props_sorted(before),
        0 <= at < before.len(),
        after == before.remove(at),
    ensures
        props_sorted(after),
        props_map(after) == props_map(before).remove(before[at].0),
{
    let key = before[at].0;
    assert forall|i: int, j: int| 0 <= i < j < after.len() implies after[i].0.0 < after[j].0.0 by {
        let pi = if i < at { i } else { i + 1 };
        let pj = if j < at { j } else { j + 1 };
        assert(before[pi].0.0 < before[pj].0.0);
    }
    assert forall|k: PropertyKeyId| #[trigger]
        props_map(after).dom().contains(k) == props_map(before).remove(key).dom().contains(k) by {
        if has_key(after, k) {
            let i = choose|i: int| 0 <= i < after.len() && (#[trigger] after[i]).0 == k;
            let p = if i < at { i } else { i + 1 };
            assert(before[p].0 == k);
            if p < at {
                assert(before[p].0.0 < before[at].0.0);
            } else {
                assert(before[at].0.0 < before[p].0.0);
            }
        }
        if has_key(before, k) && k != key {
            let i = choose|i: int| 0 <= i < before.len() && (#[trigger] before[i]).0 == k;
            let p = if i < at { i } else { i - 1 };
            assert(after[p].0 == k);
        }
    }
    assert forall|k: PropertyKeyId| #[trigger] props_map(after).dom().contains(k) implies props_map(
        after,
    )[k] == props_map(before)[k] by {
        let i = choose|i: int| 0 <= i < after.len() && (#[trigger] after[i]).0 == k;
        lemma_props_at(after, i);
        lemma_props_at(before, if i < at { i } else { i + 1 });
    }
    assert(props_map(after) =~= props_map(before).remove(key));
}

proof fn lemma_inserted(
    before: Seq<(PropertyKeyId, CanonicalScalar)>,
    after: Seq<(PropertyKeyId, CanonicalScalar)>,
    at: int,
)
    requires
        props_sorted(before),
        0 <= at <= before.len(),
        after.len() == before.len() + 1,
        after == before.insert(at, after[at]),
        forall|i: int| 0 <= i < at ==> (#[trigger] before[i]).0.0 < after[at].0.0,
        forall|i: int| at <= i < before.len() ==> (#[trigger] before[i]).0.0 > after[at].0.0,
    ensures
        props_sorted(after),
        props_map(after) == props_map(before).insert(after[at].0, after[at].1),
{
    let key = after[at].0;
    assert forall|i: int, j: int| 0 <= i < j < after.len() implies after[i].0.0 < after[j].0.0 by {
        let pi = if i < at { i } else { i - 1 };
        let pj = if j < at { j } else { j - 1 };
        if i != at && j != at {
            assert(before[pi].0.0 < before[pj].0.0);
        } else if i == at {
            assert(before[pj].0.0 > key.0);
        } else {
            assert(before[pi].0.0 < key.0);
        }
    }
    assert forall|k: PropertyKeyId| #[trigger]
        props_map(after).dom().contains(k) == props_map(before).insert(
            key,
            after[at].1,
        ).dom().contains(k) by {
        if has_key(after, k) {
            let i = choose|i: int| 0 <= i < after.len() && (#[trigger] after[i]).0 == k;
            if i != at {
                let p = if i < at { i } else { i - 1 };
                assert(before[p].0 == k);
            }
        }
        if has_key(before, k) {
            let i = choose|i: int| 0 <= i < before.len() && (#[trigger] before[i]).0 == k;
            let p = if i < at { i } else { i + 1 };
            assert(after[p].0 == k);
        }
        assert(has_key(after, key));
    }
    assert forall|k: PropertyKeyId| #[trigger] props_map(after).dom().contains(k) implies props_map(
        after,
    )[k] == props_map(before).insert(key, after[at].1)[k] by {
        let i = choose|i: int| 0 <= i < after.len() && (#[trigger] after[i]).0 == k;
        lemma_props_at(after, i);
        if i != at {
            let p = if i < at { i } else { i - 1 };
            assert(after[i] == before[p]);
            assert(before[p].0.0 != key.0);
            lemma_props_at(before, p);
        }
    }
    assert(props_map(after) =~= props_map(before).insert(key, after[at].1));
}

} // verus!
