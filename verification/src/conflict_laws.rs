//! Laws of validation and of append rebase.

use vstd::prelude::*;
use crate::append_rebase::{
    attaches, creates, crossing_refusal, first_crossing, rebases,
};
use crate::batch::PendingRow;
use crate::conflict::{before_or_same, endpoint, first_hit, first_of, touched, touched_by};
use crate::database::Database;
use crate::errors::{Law, WriteTxnError};
use crate::graph::DeltaRow;
use crate::ids::{ElementId, RelationId};
use crate::session::{Event, Metering};
use crate::template::same_template;
use crate::txn::WriteTxn;

verus! {

proof fn lemma_no_phantom(txn: WriteTxn, rows: Seq<DeltaRow>)
    ensures
        txn.first_phantom(rows) is None <==> forall|i: int|
            0 <= i < rows.len() ==> txn.row_phantom(#[trigger] rows[i]) is None,
    decreases rows.len(),
{
    if rows.len() > 0 {
        let rest = rows.drop_last();
        lemma_no_phantom(txn, rest);
        if txn.first_phantom(rows) is None {
            assert forall|i: int| 0 <= i < rows.len() implies txn.row_phantom(
                #[trigger] rows[i],
            ) is None by {
                if i < rest.len() {
                    assert(rest[i] == rows[i]);
                }
            }
        }
        if forall|i: int| 0 <= i < rows.len() ==> txn.row_phantom(#[trigger] rows[i]) is None {
            assert forall|i: int| 0 <= i < rest.len() implies txn.row_phantom(
                #[trigger] rest[i],
            ) is None by {
                assert(rows[i] == rest[i]);
            }
            assert(txn.row_phantom(rows[rows.len() - 1]) is None);
        }
    }
}

/// A commit does not conflict exactly when it inserts nothing under a scan and
/// changes nothing that the transaction read or means to write.
pub proof fn law_no_conflict_iff_independent(txn: WriteTxn, rows: Seq<DeltaRow>)
    ensures
        txn.batch_conflict(rows, None) <==> {
            &&& forall|i: int| 0 <= i < rows.len() ==> txn.row_phantom(#[trigger] rows[i]) is None
            &&& forall|element: ElementId|
                #![trigger touched(rows, element)]
                #![trigger endpoint(rows, element)]
                touched(rows, element) || endpoint(rows, element) ==> !txn.read_set@.contains(
                    element,
                ) && !txn.depends_on_write(element)
        },
{
    lemma_no_phantom(txn, rows);
    let endpoints = Set::new(|element: ElementId| endpoint(rows, element));
    let touches = Set::new(|element: ElementId| touched(rows, element));
    let writes = Set::new(|element: ElementId| txn.depends_on_write(element));
    if txn.batch_conflict(rows, None) {
        assert forall|element: ElementId|
            touched(rows, element) || endpoint(rows, element) implies !txn.read_set@.contains(
            element,
        ) && !txn.depends_on_write(element) by {
            assert(endpoints.contains(element) == endpoint(rows, element));
            assert(touches.contains(element) == touched(rows, element));
            assert(writes.contains(element) == txn.depends_on_write(element));
        }
    }
    if (forall|i: int| 0 <= i < rows.len() ==> txn.row_phantom(#[trigger] rows[i]) is None) && (
    forall|element: ElementId|
        #![trigger touched(rows, element)]
        #![trigger endpoint(rows, element)]
        touched(rows, element) || endpoint(rows, element) ==> !txn.read_set@.contains(element)
            && !txn.depends_on_write(element)) {
        assert(endpoints.disjoint(txn.read_set@));
        assert(touches.disjoint(txn.read_set@));
        assert(endpoints.disjoint(writes));
        assert(touches.disjoint(writes));
    }
}

proof fn lemma_first_of_unique(
    set: Set<ElementId>,
    targets: Set<ElementId>,
    left: ElementId,
    right: ElementId,
)
    requires
        first_of(set, targets, left),
        first_of(set, targets, right),
    ensures
        left == right,
{
    assert(before_or_same(left, right));
    assert(before_or_same(right, left));
}

proof fn lemma_first_hit_unique(
    endpoints: Set<ElementId>,
    touches: Set<ElementId>,
    targets: Set<ElementId>,
    left: Option<ElementId>,
    right: Option<ElementId>,
)
    requires
        first_hit(endpoints, touches, targets, left),
        first_hit(endpoints, touches, targets, right),
    ensures
        left == right,
{
    match (left, right) {
        (Some(l), Some(r)) => {
            if first_of(endpoints, targets, l) {
                assert(!endpoints.disjoint(targets)) by {
                    assert(endpoints.contains(l) && targets.contains(l));
                }
                lemma_first_of_unique(endpoints, targets, l, r);
            } else {
                if first_of(endpoints, targets, r) {
                    assert(endpoints.contains(r) && targets.contains(r));
                    assert(false);
                }
                lemma_first_of_unique(touches, targets, l, r);
            }
        },
        (Some(l), None) => {
            assert(targets.contains(l));
        },
        (None, Some(r)) => {
            assert(targets.contains(r));
        },
        (None, None) => {},
    }
}

/// Validation of a commit has one answer, and a changed read is reported before
/// a changed write target.
pub proof fn law_conflict_is_determined(
    txn: WriteTxn,
    rows: Seq<DeltaRow>,
    left: Option<(Law, ElementId)>,
    right: Option<(Law, ElementId)>,
)
    requires
        txn.batch_conflict(rows, left),
        txn.batch_conflict(rows, right),
    ensures
        left == right,
        (exists|element: ElementId|
            txn.read_set@.contains(element) && (touched(rows, element) || endpoint(rows, element)))
            ==> (left matches Some((law, _)) && law == Law::Read),
{
    let endpoints = Set::new(|element: ElementId| endpoint(rows, element));
    let touches = Set::new(|element: ElementId| touched(rows, element));
    let writes = Set::new(|element: ElementId| txn.depends_on_write(element));
    if txn.first_phantom(rows) is None {
        if !first_hit(endpoints, touches, txn.read_set@, None) {
            lemma_first_hit_unique(
                endpoints,
                touches,
                txn.read_set@,
                Some((left->0).1),
                Some((right->0).1),
            );
        } else {
            let l = match left {
                Some((_, element)) => Some(element),
                None => None,
            };
            let r = match right {
                Some((_, element)) => Some(element),
                None => None,
            };
            lemma_first_hit_unique(endpoints, touches, writes, l, r);
            assert forall|element: ElementId| !(txn.read_set@.contains(element) && (touched(
                rows,
                element,
            ) || endpoint(rows, element))) by {
                assert(endpoints.contains(element) == endpoint(rows, element));
                assert(touches.contains(element) == touched(rows, element));
            }
        }
    }
}

proof fn lemma_no_crossing(rows: Seq<(RelationId, PendingRow)>, history: Seq<DeltaRow>, i: int)
    requires
        first_crossing(rows, history) is None,
        0 <= i < history.len(),
    ensures
        crossing_refusal(rows, history[i]) is None,
    decreases history.len(),
{
    if i < history.len() - 1 {
        lemma_no_crossing(rows, history.drop_last(), i);
        assert(history.drop_last()[i] == history[i]);
    }
}

/// An append is moved across a history only when no row of it changes the schema,
/// writes an identity that the append creates, or retires a vertex that it
/// attaches an edge to.
pub proof fn law_rebase_crosses_only_independent_history(
    rows: Seq<(RelationId, PendingRow)>,
    history: Seq<DeltaRow>,
)
    requires
        first_crossing(rows, history) is None,
    ensures
        forall|i: int, element: ElementId|
            0 <= i < history.len() && #[trigger] touched_by(history[i], element) ==> !creates(
                rows,
                element,
            ),
        forall|i: int| 0 <= i < history.len() ==> !(#[trigger] history[i] is Schema),
        forall|i: int|
            0 <= i < history.len() ==> (#[trigger] history[i] matches DeltaRow::DeleteVertex {
                vid,
                ..
            } ==> !attaches(rows, vid.0)),
{
    assert forall|i: int, element: ElementId|
        0 <= i < history.len() && #[trigger] touched_by(history[i], element) implies !creates(
        rows,
        element,
    ) by {
        lemma_no_crossing(rows, history, i);
    }
    assert forall|i: int| 0 <= i < history.len() implies !(#[trigger] history[i] is Schema) by {
        lemma_no_crossing(rows, history, i);
    }
    assert forall|i: int| 0 <= i < history.len() implies (#[trigger] history[i] matches
    DeltaRow::DeleteVertex { vid, .. } ==> !attaches(rows, vid.0)) by {
        lemma_no_crossing(rows, history, i);
    }
}

/// A granted rebase keeps the canonical effects exactly: identities, payloads,
/// creation order and births.
pub proof fn law_rebase_keeps_the_template(
    before: WriteTxn,
    after: WriteTxn,
    database: Database,
    max_expanded_rows: u64,
    metered: Metering,
    log: Seq<Event>,
    log_after: Seq<Event>,
)
    requires
        before.prepared is Some,
        rebases(
            before,
            after,
            database,
            max_expanded_rows,
            metered,
            log,
            log_after,
            Ok::<(), WriteTxnError>(()),
        ),
    ensures
        after.prepared is Some,
        same_template(after.prepared->0.template, before.prepared->0.template),
        after.staged == before.staged,
{
    if after == before {
        let template = before.prepared->0.template;
        assert forall|c: int| 0 <= c < template.coordinates@.len() implies crate::template::same_coordinate(
            #[trigger] template.coordinates@[c],
            template.coordinates@[c],
        ) by {}
    }
}

} // verus!
