//! Authorized vertex deletion with its native cascade.

use vstd::prelude::*;
use crate::authorized::{
    admit_fields, check_vertex_plan, check_vertex_write, denied, label_ids, list_keys, lookup_plan,
    lookup_vertex, native_plan, retained, stage_native, staged_or_not,
};
use crate::authorized_graph::{
    candidates, candidates_plan, check_edge_plan, check_edge_write, edge_from_record, edge_record,
    image_of, image_reads, image_steps, incident_candidates, lemma_map_keys, lemma_open_fields,
    lemma_same_image, open_fields, raw_keys, record_plan, record_reads,
};
use crate::batch::{PendingRow, WriteBatch};
use crate::database::Database;
use crate::errors::{Denial, WriteTxnError};
use crate::graph::{labels_sorted, EdgeView};
use crate::ids::{EId, ElementId, LabelId, VId};
use crate::idset::{sorted_ids, IdSet};
use crate::plan::{
    demand, failure, go, lemma_obeys_nothing, lemma_obeys_stop, lemma_step, obeys, same_error,
    stop, upto, whole, Plan,
};
use crate::scope::Predicates;
use crate::session::{evaluations, Host, Session};
use crate::txn::{
    joint, keeps_observations, lemma_joint_more, reads_only, reads_within, same_workspace, WriteTxn,
};

verus! {

/// The raw identities of a set of labels.
pub open spec fn raw_labels(labels: Set<LabelId>) -> Set<u128> {
    Set::new(|raw: u128| raw <= u64::MAX && labels.contains(LabelId(raw as u64)))
}

proof fn lemma_raw_labels(labels: Seq<LabelId>)
    requires
        labels_sorted(labels),
    ensures
        label_ids(labels) == raw_labels(labels.to_set()),
        labels.to_set().len() == labels.len(),
{
    let raw = labels.map_values(|label: LabelId| label.0 as u128);
    assert forall|x: u128| #[trigger] raw.to_set().contains(x) == raw_labels(
        labels.to_set(),
    ).contains(x) by {
        if raw.contains(x) {
            let i = raw.index_of(x);
            assert(labels[i] == LabelId(x as u64));
        }
        if raw_labels(labels.to_set()).contains(x) {
            let i = labels.index_of(LabelId(x as u64));
            assert(raw[i] == x);
        }
    }
    assert(label_ids(labels) =~= raw_labels(labels.to_set()));
    assert(labels.no_duplicates()) by {
        assert forall|i: int, j: int|
            0 <= i < labels.len() && 0 <= j < labels.len() && i != j implies labels[i]
            != labels[j] by {
            if i < j {
                assert(labels[i].0 < labels[j].0);
            } else {
                assert(labels[j].0 < labels[i].0);
            }
        }
    }
    labels.unique_seq_to_set();
}

/// The transaction sees this edge at the vertex. The original record decides
/// incidence, not the spelling of an intent.
pub open spec fn lies_at(txn: WriteTxn, database: Database, raw: u128, vid: VId) -> bool {
    txn.overlay_edge(database, EId(raw)) matches Some(edge) && (edge.entry.src == vid
        || edge.entry.dst == vid)
}

/// Authorize the cascade deletion of one candidate, if it lies at the vertex.
pub open spec fn cascade_step(
    txn: WriteTxn,
    database: Database,
    scope: Predicates,
    vid: VId,
    raw: u128,
) -> Plan<WriteTxnError> {
    whole(cascade_parts(txn, database, scope, vid, raw))
}

pub open spec fn cascade_parts(
    txn: WriteTxn,
    database: Database,
    scope: Predicates,
    vid: VId,
    raw: u128,
) -> Seq<Plan<WriteTxnError>> {
    seq![
        record_plan(txn, database),
        if lies_at(txn, database, raw, vid) {
            whole(retire_parts(txn, database, scope, txn.overlay_edge(database, EId(raw))->0))
        } else {
            go()
        },
    ]
}

/// Authorize the deletion of one incident edge with all its properties.
pub open spec fn retire_parts(
    txn: WriteTxn,
    database: Database,
    scope: Predicates,
    edge: EdgeView,
) -> Seq<Plan<WriteTxnError>> {
    seq![
        whole(image_steps(txn, database, scope, edge)),
        open_fields(edge.props.dom().len()),
        check_edge_plan(Some(image_of(txn, database, edge)), None, raw_keys(edge.props)),
    ]
}

pub open spec fn cascade_steps(
    txn: WriteTxn,
    database: Database,
    scope: Predicates,
    vid: VId,
    list: Seq<u128>,
) -> Seq<Plan<WriteTxnError>> {
    Seq::new(list.len(), |i: int| cascade_step(txn, database, scope, vid, list[i]))
}

/// The candidates that lie at the vertex, in order.
pub open spec fn cascade_list(
    txn: WriteTxn,
    database: Database,
    vid: VId,
    list: Seq<u128>,
) -> Seq<u128>
    decreases list.len(),
{
    if list.len() == 0 {
        Seq::empty()
    } else {
        let rest = cascade_list(txn, database, vid, list.drop_last());
        if lies_at(txn, database, list.last(), vid) {
            rest.push(list.last())
        } else {
            rest
        }
    }
}

/// Confirm that the evaluator removed one authorized edge.
pub open spec fn confirm_parts(after: WriteTxn, database: Database, raw: u128) -> Seq<
    Plan<WriteTxnError>,
> {
    seq![
        record_plan(after, database),
        demand(
            after.overlay_edge(database, EId(raw)) is None,
            WriteTxnError::AuthorizedMutationRefused,
        ),
    ]
}

pub open spec fn confirm_steps(after: WriteTxn, database: Database, list: Seq<u128>) -> Seq<
    Plan<WriteTxnError>,
> {
    Seq::new(list.len(), |i: int| whole(confirm_parts(after, database, list[i])))
}

/// The steps of staging one vertex deletion. A capability that could hide any
/// erased field or edge is refused before any read or charge.
pub open spec fn delete_vertex_steps(
    txn: WriteTxn,
    after: WriteTxn,
    database: Database,
    scope: Predicates,
    batch: WriteBatch,
    vid: VId,
) -> Seq<Plan<WriteTxnError>> {
    let before_image = txn.overlay_vertex(database, vid);
    let view = before_image->0;
    let after_image = after.overlay_vertex(database, vid);
    let list = sorted_ids(candidates(txn, database, vid));
    seq![
        demand(scope.all_incidence() && scope.all_fields(), denied()),
        lookup_plan(txn, database, scope, vid),
        demand(before_image is Some, denied()),
        open_fields((view.labels.len() + view.props.dom().len()) as nat),
        check_vertex_plan(before_image, None, raw_labels(view.labels), raw_keys(view.props)),
        candidates_plan(txn, database, vid),
        whole(cascade_steps(txn, database, scope, vid, list)),
        native_plan(txn, database, batch),
        lookup_plan(after, database, scope, vid),
        check_vertex_plan(
            before_image,
            after_image,
            raw_labels(view.labels),
            raw_keys(view.props),
        ),
        demand(after_image is None, WriteTxnError::AuthorizedMutationRefused),
        whole(confirm_steps(after, database, cascade_list(txn, database, vid, list))),
    ]
}

/// What authorizing one candidate reads: its record, and its endpoints where it
/// lies at the vertex.
pub open spec fn cascade_read(txn: WriteTxn, database: Database, vid: VId, raw: u128) -> Set<
    ElementId,
> {
    record_reads(txn, database, EId(raw)).union(
        if lies_at(txn, database, raw, vid) {
            image_reads(txn.overlay_edge(database, EId(raw))->0)
        } else {
            Set::empty()
        },
    )
}

pub open spec fn cascade_reads(
    txn: WriteTxn,
    database: Database,
    vid: VId,
    list: Seq<u128>,
) -> Seq<Set<ElementId>> {
    Seq::new(list.len(), |i: int| cascade_read(txn, database, vid, list[i]))
}

/// What confirming removed edges reads: their records.
pub open spec fn confirm_reads(after: WriteTxn, database: Database, list: Seq<u128>) -> Seq<
    Set<ElementId>,
> {
    Seq::new(list.len(), |i: int| record_reads(after, database, EId(list[i])))
}

/// What staging a vertex deletion reads: the vertex, every candidate at it, and
/// every removed edge again.
pub open spec fn deletion_reads(
    txn: WriteTxn,
    after: WriteTxn,
    database: Database,
    row: PendingRow,
) -> Set<ElementId> {
    match row {
        PendingRow::DeleteVertex { vid } => {
            let list = sorted_ids(candidates(txn, database, vid));
            set![ElementId::Vertex(vid)].union(
                joint(cascade_reads(txn, database, vid, list)),
            ).union(joint(confirm_reads(after, database, cascade_list(txn, database, vid, list))))
        },
        _ => Set::empty(),
    }
}

pub open spec fn delete_vertex_plan(
    txn: WriteTxn,
    after: WriteTxn,
    database: Database,
    scope: Predicates,
    batch: WriteBatch,
) -> Plan<WriteTxnError> {
    match batch.rows@[0] {
        PendingRow::DeleteVertex { vid } => whole(
            delete_vertex_steps(txn, after, database, scope, batch, vid),
        ),
        _ => stop(WriteTxnError::AuthorizedMutationRefused),
    }
}

/// Authorize the deletion of one candidate, if it lies at the vertex.
fn authorize_cascade<H: Host>(
    transaction: &mut WriteTxn,
    database: &Database,
    scope: &Predicates,
    vid: VId,
    raw: u128,
    session: &mut Session<H>,
) -> (incident: Result<bool, WriteTxnError>)
    requires
        old(transaction).wf(),
        database.wf(),
        scope.all_properties(),
    ensures
        final(transaction).wf(),
        same_workspace(*old(transaction), *final(transaction)),
        keeps_observations(*old(transaction), *final(transaction)),
        final(session).metered() == old(session).metered(),
        evaluations(final(session).log()) == evaluations(old(session).log()),
        obeys(
            old(session).log(),
            final(session).log(),
            cascade_step(*old(transaction), *database, *scope, vid, raw),
            same_error(),
            failure(incident),
        ),
        incident matches Ok(lies) ==> lies == lies_at(*old(transaction), *database, raw, vid)
            && reads_only(
            *old(transaction),
            *final(transaction),
            cascade_read(*old(transaction), *database, vid, raw),
        ),
        reads_within(
            *old(transaction),
            *final(transaction),
            cascade_read(*old(transaction), *database, vid, raw),
        ),
{
    let ghost start = session.log();
    let ghost txn = *transaction;
    let ghost parts = cascade_parts(txn, *database, *scope, vid, raw);
    proof {
        lemma_obeys_nothing(start, same_error());
    }
    let read = edge_record(transaction, database, EId(raw), session);
    let ghost log0 = session.log();
    proof {
        lemma_step(start, start, log0, parts, 0, same_error(), failure(read));
        lemma_obeys_nothing(log0, same_error());
    }
    let record = match read {
        Ok(Some(record)) => record,
        Ok(None) => {
            proof {
                lemma_step(start, log0, log0, parts, 1, same_error(), None);
            }
            return Ok(false);
        },
        Err(error) => return Err(error),
    };
    if record.entry.src != vid && record.entry.dst != vid {
        proof {
            lemma_step(start, log0, log0, parts, 1, same_error(), None);
        }
        return Ok(false);
    }
    let ghost view = record@;
    let ghost retire = retire_parts(txn, *database, *scope, view);
    let ghost read_txn = *transaction;
    let image = edge_from_record(transaction, database, scope, record, session);
    let ghost log1 = session.log();
    proof {
        lemma_same_image(txn, read_txn, *database, *scope, view);
        lemma_step(log0, log0, log1, retire, 0, same_error(), failure(image));
    }
    let image = match image {
        Ok(image) => image,
        Err(error) => {
            proof {
                lemma_step(start, log0, log1, parts, 1, same_error(), Some(error));
            }
            return Err(error);
        },
    };
    let none: Vec<LabelId> = Vec::new();
    let keys = list_keys(&image.edge.props);
    proof {
        assert(none@ =~= Seq::<LabelId>::empty());
        lemma_map_keys(image.edge.props@);
        lemma_open_fields(*scope, none@, keys@);
    }
    let fields = admit_fields(scope, &none, &keys, session);
    let ghost log2 = session.log();
    proof {
        lemma_step(log0, log1, log2, retire, 1, same_error(), failure(fields));
    }
    let fields = match fields {
        Ok(fields) => fields,
        Err(error) => {
            proof {
                lemma_step(start, log0, log2, parts, 1, same_error(), Some(error));
            }
            return Err(error);
        },
    };
    let checked = check_edge_write(Some(&image), None, &fields.properties, session);
    proof {
        lemma_step(log0, log2, session.log(), retire, 2, same_error(), failure(checked));
        lemma_step(start, log0, session.log(), parts, 1, same_error(), failure(checked));
    }
    match checked {
        Ok(()) => Ok(true),
        Err(error) => Err(error),
    }
}

proof fn lemma_same_cascade(
    left: WriteTxn,
    right: WriteTxn,
    database: Database,
    scope: Predicates,
    vid: VId,
    raw: u128,
)
    requires
        same_workspace(left, right),
    ensures
        cascade_step(left, database, scope, vid, raw) == cascade_step(
            right,
            database,
            scope,
            vid,
            raw,
        ),
        lies_at(left, database, raw, vid) == lies_at(right, database, raw, vid),
{
    assert(left.overlay_edge(database, EId(raw)) == right.overlay_edge(database, EId(raw)));
    if let Some(edge) = left.overlay_edge(database, EId(raw)) {
        lemma_same_image(left, right, database, scope, edge);
        assert(retire_parts(left, database, scope, edge) =~= retire_parts(
            right,
            database,
            scope,
            edge,
        ));
    }
    assert(cascade_parts(left, database, scope, vid, raw) =~= cascade_parts(
        right,
        database,
        scope,
        vid,
        raw,
    ));
}

/// Authorize the whole cascade and list what it removes.
fn authorize_cascades<H: Host>(
    transaction: &mut WriteTxn,
    database: &Database,
    scope: &Predicates,
    vid: VId,
    ids: &IdSet,
    session: &mut Session<H>,
) -> (cascades: Result<Vec<u128>, WriteTxnError>)
    requires
        old(transaction).wf(),
        database.wf(),
        ids.wf(),
        scope.all_properties(),
    ensures
        final(transaction).wf(),
        same_workspace(*old(transaction), *final(transaction)),
        keeps_observations(*old(transaction), *final(transaction)),
        final(session).metered() == old(session).metered(),
        evaluations(final(session).log()) == evaluations(old(session).log()),
        obeys(
            old(session).log(),
            final(session).log(),
            whole(cascade_steps(*old(transaction), *database, *scope, vid, ids.seq())),
            same_error(),
            failure(cascades),
        ),
        cascades matches Ok(list) ==> list@ == cascade_list(
            *old(transaction),
            *database,
            vid,
            ids.seq(),
        ) && reads_only(
            *old(transaction),
            *final(transaction),
            joint(cascade_reads(*old(transaction), *database, vid, ids.seq())),
        ),
        reads_within(
            *old(transaction),
            *final(transaction),
            joint(cascade_reads(*old(transaction), *database, vid, ids.seq())),
        ),
{
    let ghost start = session.log();
    let ghost txn = *transaction;
    let ghost steps = cascade_steps(txn, *database, *scope, vid, ids.seq());
    let ghost reads = cascade_reads(txn, *database, vid, ids.seq());
    proof {
        lemma_obeys_nothing(start, same_error());
        assert(joint(reads.take(0)) =~= Set::empty());
    }
    let mut cascades: Vec<u128> = Vec::new();
    let mut i: usize = 0;
    while i < ids.len()
        invariant
            i <= ids.seq().len(),
            ids.wf(),
            database.wf(),
            scope.all_properties(),
            txn == *old(transaction),
            steps == cascade_steps(txn, *database, *scope, vid, ids.seq()),
            transaction.wf(),
            same_workspace(txn, *transaction),
            keeps_observations(txn, *transaction),
            reads == cascade_reads(txn, *database, vid, ids.seq()),
            reads_only(txn, *transaction, joint(reads.take(i as int))),
            start == old(session).log(),
            session.metered() == old(session).metered(),
            evaluations(session.log()) == evaluations(old(session).log()),
            obeys(start, session.log(), upto(steps, i as int), same_error(), None),
            cascades@ =~= cascade_list(txn, *database, vid, ids.seq().take(i as int)),
        decreases ids.seq().len() - i,
    {
        let raw: u128 = ids.at(i);
        let ghost middle = session.log();
        let ghost read_txn = *transaction;
        let incident = authorize_cascade(transaction, database, scope, vid, raw, session);
        proof {
            lemma_same_cascade(txn, read_txn, *database, *scope, vid, raw);
            assert(reads[i as int] =~= cascade_read(read_txn, *database, vid, raw)) by {
                assert(txn.overlay_edge(*database, EId(raw)) == read_txn.overlay_edge(
                    *database,
                    EId(raw),
                ));
            }
            lemma_joint_more(txn, read_txn, *transaction, reads, i as int);
            lemma_step(start, middle, session.log(), steps, i as int, same_error(), failure(incident));
            assert(ids.seq().take(i + 1).drop_last() =~= ids.seq().take(i as int));
        }
        match incident {
            Ok(true) => {
                cascades.push(raw);
            },
            Ok(false) => {},
            Err(error) => return Err(error),
        }
        i += 1;
    }
    proof {
        assert(ids.seq().take(i as int) =~= ids.seq());
        assert(reads.take(i as int) =~= reads);
    }
    Ok(cascades)
}

/// Confirm that the evaluator removed every authorized edge.
fn confirm_cascades<H: Host>(
    transaction: &mut WriteTxn,
    database: &Database,
    cascades: &Vec<u128>,
    session: &mut Session<H>,
) -> (confirmed: Result<(), WriteTxnError>)
    requires
        old(transaction).wf(),
        database.wf(),
    ensures
        final(transaction).wf(),
        same_workspace(*old(transaction), *final(transaction)),
        keeps_observations(*old(transaction), *final(transaction)),
        final(session).metered() == old(session).metered(),
        evaluations(final(session).log()) == evaluations(old(session).log()),
        obeys(
            old(session).log(),
            final(session).log(),
            whole(confirm_steps(*old(transaction), *database, cascades@)),
            same_error(),
            failure(confirmed),
        ),
        confirmed is Ok ==> reads_only(
            *old(transaction),
            *final(transaction),
            joint(confirm_reads(*old(transaction), *database, cascades@)),
        ),
        reads_within(
            *old(transaction),
            *final(transaction),
            joint(confirm_reads(*old(transaction), *database, cascades@)),
        ),
{
    let ghost start = session.log();
    let ghost txn = *transaction;
    let ghost steps = confirm_steps(txn, *database, cascades@);
    let ghost reads = confirm_reads(txn, *database, cascades@);
    proof {
        lemma_obeys_nothing(start, same_error());
        assert(joint(reads.take(0)) =~= Set::empty());
    }
    let mut i: usize = 0;
    while i < cascades.len()
        invariant
            i <= cascades.len(),
            database.wf(),
            txn == *old(transaction),
            steps == confirm_steps(txn, *database, cascades@),
            transaction.wf(),
            same_workspace(txn, *transaction),
            keeps_observations(txn, *transaction),
            reads == confirm_reads(txn, *database, cascades@),
            reads_only(txn, *transaction, joint(reads.take(i as int))),
            start == old(session).log(),
            session.metered() == old(session).metered(),
            evaluations(session.log()) == evaluations(old(session).log()),
            obeys(start, session.log(), upto(steps, i as int), same_error(), None),
        decreases cascades.len() - i,
    {
        let raw: u128 = cascades[i];
        let ghost middle = session.log();
        let ghost parts = confirm_parts(txn, *database, raw);
        let ghost read_txn = *transaction;
        proof {
            lemma_obeys_nothing(middle, same_error());
            assert(record_plan(read_txn, *database) == record_plan(txn, *database));
        }
        let read = edge_record(transaction, database, EId(raw), session);
        let ghost log0 = session.log();
        proof {
            lemma_step(middle, middle, log0, parts, 0, same_error(), failure(read));
            assert(reads[i as int] == record_reads(read_txn, *database, EId(raw)));
            lemma_joint_more(txn, read_txn, *transaction, reads, i as int);
            lemma_obeys_nothing(log0, same_error());
            lemma_obeys_stop(log0, same_error(), WriteTxnError::AuthorizedMutationRefused);
        }
        match read {
            Ok(found) => {
                proof {
                    lemma_step(middle, log0, log0, parts, 1, same_error(), parts[1].verdict);
                    lemma_step(
                        start,
                        middle,
                        log0,
                        steps,
                        i as int,
                        same_error(),
                        parts[1].verdict,
                    );
                }
                if found.is_some() {
                    return Err(WriteTxnError::AuthorizedMutationRefused);
                }
            },
            Err(error) => {
                proof {
                    lemma_step(start, middle, log0, steps, i as int, same_error(), Some(error));
                }
                return Err(error);
            },
        }
        i += 1;
    }
    proof {
        assert(reads.take(i as int) =~= reads);
    }
    Ok(())
}

/// Stage one vertex deletion: authorize every field and every cascaded edge,
/// evaluate it natively, and confirm that exactly those are gone.
pub fn delete_vertex<H: Host>(
    transaction: &mut WriteTxn,
    database: &Database,
    batch: WriteBatch,
    scope: &Predicates,
    session: &mut Session<H>,
) -> (staged: Result<(), WriteTxnError>)
    requires
        old(transaction).wf(),
        database.wf(),
        batch.rows@.len() == 1,
    ensures
        final(transaction).wf(),
        staged_or_not(
            *old(transaction),
            *final(transaction),
            batch,
            old(session).log(),
            final(session).log(),
        ),
        staged is Ok ==> final(transaction).staged@ == old(transaction).staged@.push(batch),
        staged is Ok ==> reads_only(
            *old(transaction),
            *final(transaction),
            deletion_reads(*old(transaction), *final(transaction), *database, batch.rows@[0]),
        ),
        reads_within(
            *old(transaction),
            *final(transaction),
            deletion_reads(
                *old(transaction),
                *final(transaction),
                *database,
                batch.rows@[0],
            ).union(retained(batch)),
        ),
        !(scope.all_incidence() && scope.all_fields()) || !(batch.rows@[0] is DeleteVertex) ==> {
            &&& *final(transaction) == *old(transaction)
            &&& final(session).log() == old(session).log()
            &&& staged is Err
        },
        final(session).metered() == old(session).metered(),
        obeys(
            old(session).log(),
            final(session).log(),
            delete_vertex_plan(*old(transaction), *final(transaction), *database, *scope, batch),
            same_error(),
            failure(staged),
        ),
{
    let ghost start = session.log();
    let ghost txn = *transaction;
    let vid = match &batch.rows[0] {
        PendingRow::DeleteVertex { vid } => *vid,
        _ => {
            proof {
                lemma_obeys_stop(start, same_error(), WriteTxnError::AuthorizedMutationRefused);
            }
            return Err(WriteTxnError::AuthorizedMutationRefused);
        },
    };
    proof {
        lemma_obeys_nothing(start, same_error());
        lemma_obeys_stop(start, same_error(), denied());
    }
    if !(scope.sees_all_incidence() && scope.sees_all_fields()) {
        proof {
            let steps = delete_vertex_steps(txn, *transaction, *database, *scope, batch, vid);
            lemma_step(start, start, start, steps, 0, same_error(), Some(denied()));
        }
        return Err(WriteTxnError::Authorization(Denial::ScopeDenied));
    }
    let found = lookup_vertex(transaction, database, scope, vid, session);
    let ghost log1 = session.log();
    let found = match found {
        Ok(found) => found,
        Err(error) => {
            proof {
                let steps = delete_vertex_steps(txn, *transaction, *database, *scope, batch, vid);
                lemma_step(start, start, start, steps, 0, same_error(), None);
                lemma_step(start, start, log1, steps, 1, same_error(), Some(error));
            }
            return Err(error);
        },
    };
    proof {
        lemma_obeys_nothing(log1, same_error());
        lemma_obeys_stop(log1, same_error(), denied());
    }
    let before = match found {
        Some(before) => before,
        None => {
            proof {
                let steps = delete_vertex_steps(txn, *transaction, *database, *scope, batch, vid);
                lemma_step(start, start, start, steps, 0, same_error(), None);
                lemma_step(start, start, log1, steps, 1, same_error(), None);
                lemma_step(start, log1, log1, steps, 2, same_error(), Some(denied()));
            }
            return Err(WriteTxnError::Authorization(Denial::ScopeDenied));
        },
    };
    let keys = list_keys(&before.props);
    proof {
        lemma_raw_labels(before.labels@);
        lemma_map_keys(before.props@);
        lemma_open_fields(*scope, before.labels@, keys@);
    }
    let admitted = admit_fields(scope, &before.labels, &keys, session);
    let ghost log3 = session.log();
    let fields = match admitted {
        Ok(fields) => fields,
        Err(error) => {
            proof {
                let steps = delete_vertex_steps(txn, *transaction, *database, *scope, batch, vid);
                lemma_step(start, start, start, steps, 0, same_error(), None);
                lemma_step(start, start, log1, steps, 1, same_error(), None);
                lemma_step(start, log1, log1, steps, 2, same_error(), None);
                lemma_step(start, log1, log3, steps, 3, same_error(), Some(error));
            }
            return Err(error);
        },
    };
    let checked = check_vertex_write(Some(&before), None, &fields, session);
    let ghost log4 = session.log();
    if let Err(error) = checked {
        proof {
            let steps = delete_vertex_steps(txn, *transaction, *database, *scope, batch, vid);
            lemma_step(start, start, start, steps, 0, same_error(), None);
            lemma_step(start, start, log1, steps, 1, same_error(), None);
            lemma_step(start, log1, log1, steps, 2, same_error(), None);
            lemma_step(start, log1, log3, steps, 3, same_error(), None);
            lemma_step(start, log3, log4, steps, 4, same_error(), Some(error));
        }
        return Err(error);
    }
    let ids = incident_candidates(transaction, database, vid, session);
    let ghost log5 = session.log();
    proof {
        assert(candidates(*transaction, *database, vid) =~= candidates(txn, *database, vid));
        assert(candidates_plan(*transaction, *database, vid) == candidates_plan(
            txn,
            *database,
            vid,
        ));
    }
    let ids = match ids {
        Ok(ids) => ids,
        Err(error) => {
            proof {
                let steps = delete_vertex_steps(txn, *transaction, *database, *scope, batch, vid);
                lemma_step(start, start, start, steps, 0, same_error(), None);
                lemma_step(start, start, log1, steps, 1, same_error(), None);
                lemma_step(start, log1, log1, steps, 2, same_error(), None);
                lemma_step(start, log1, log3, steps, 3, same_error(), None);
                lemma_step(start, log3, log4, steps, 4, same_error(), None);
                lemma_step(start, log4, log5, steps, 5, same_error(), Some(error));
            }
            return Err(error);
        },
    };
    let ghost list = ids.seq();
    let ghost read_txn = *transaction;
    proof {
        ids.lemma_sorted();
        lemma_same_cascades(txn, read_txn, *database, *scope, vid, list);
        assert forall|i: int| 0 <= i < list.len() implies #[trigger] cascade_read(
            txn,
            *database,
            vid,
            list[i],
        ) == cascade_read(read_txn, *database, vid, list[i]) by {
            assert(txn.overlay_edge(*database, EId(list[i])) == read_txn.overlay_edge(
                *database,
                EId(list[i]),
            ));
        }
        assert(cascade_reads(txn, *database, vid, list) =~= cascade_reads(
            read_txn,
            *database,
            vid,
            list,
        ));
    }
    let cascades = authorize_cascades(transaction, database, scope, vid, &ids, session);
    let ghost log6 = session.log();
    let cascades = match cascades {
        Ok(cascades) => cascades,
        Err(error) => {
            proof {
                let steps = delete_vertex_steps(txn, *transaction, *database, *scope, batch, vid);
                lemma_step(start, start, start, steps, 0, same_error(), None);
                lemma_step(start, start, log1, steps, 1, same_error(), None);
                lemma_step(start, log1, log1, steps, 2, same_error(), None);
                lemma_step(start, log1, log3, steps, 3, same_error(), None);
                lemma_step(start, log3, log4, steps, 4, same_error(), None);
                lemma_step(start, log4, log5, steps, 5, same_error(), None);
                lemma_step(start, log5, log6, steps, 6, same_error(), Some(error));
            }
            return Err(error);
        },
    };
    let ghost read_txn = *transaction;
    let native = stage_native(transaction, database, batch, session);
    let ghost log7 = session.log();
    proof {
        assert(native_plan(read_txn, *database, batch) == native_plan(txn, *database, batch));
    }
    if let Err(error) = native {
        proof {
            let steps = delete_vertex_steps(txn, *transaction, *database, *scope, batch, vid);
            lemma_step(start, start, start, steps, 0, same_error(), None);
            lemma_step(start, start, log1, steps, 1, same_error(), None);
            lemma_step(start, log1, log1, steps, 2, same_error(), None);
            lemma_step(start, log1, log3, steps, 3, same_error(), None);
            lemma_step(start, log3, log4, steps, 4, same_error(), None);
            lemma_step(start, log4, log5, steps, 5, same_error(), None);
            lemma_step(start, log5, log6, steps, 6, same_error(), None);
            lemma_step(start, log6, log7, steps, 7, same_error(), Some(error));
        }
        return Err(error);
    }
    let ghost prepared = *transaction;
    let produced = lookup_vertex(transaction, database, scope, vid, session);
    let ghost log8 = session.log();
    let ghost looked = *transaction;
    proof {
        assert(lookup_plan(prepared, *database, *scope, vid) == lookup_plan(
            looked,
            *database,
            *scope,
            vid,
        ));
    }
    let after = match produced {
        Ok(after) => after,
        Err(error) => {
            proof {
                let steps = delete_vertex_steps(txn, *transaction, *database, *scope, batch, vid);
                lemma_step(start, start, start, steps, 0, same_error(), None);
                lemma_step(start, start, log1, steps, 1, same_error(), None);
                lemma_step(start, log1, log1, steps, 2, same_error(), None);
                lemma_step(start, log1, log3, steps, 3, same_error(), None);
                lemma_step(start, log3, log4, steps, 4, same_error(), None);
                lemma_step(start, log4, log5, steps, 5, same_error(), None);
                lemma_step(start, log5, log6, steps, 6, same_error(), None);
                lemma_step(start, log6, log7, steps, 7, same_error(), None);
                lemma_step(start, log7, log8, steps, 8, same_error(), Some(error));
            }
            return Err(error);
        },
    };
    let checked = check_vertex_write(Some(&before), after.as_ref(), &fields, session);
    let ghost log9 = session.log();
    proof {
        let steps = delete_vertex_steps(txn, *transaction, *database, *scope, batch, vid);
        lemma_step(start, start, start, steps, 0, same_error(), None);
        lemma_step(start, start, log1, steps, 1, same_error(), None);
        lemma_step(start, log1, log1, steps, 2, same_error(), None);
        lemma_step(start, log1, log3, steps, 3, same_error(), None);
        lemma_step(start, log3, log4, steps, 4, same_error(), None);
        lemma_step(start, log4, log5, steps, 5, same_error(), None);
        lemma_step(start, log5, log6, steps, 6, same_error(), None);
        lemma_step(start, log6, log7, steps, 7, same_error(), None);
        lemma_step(start, log7, log8, steps, 8, same_error(), None);
        lemma_step(start, log8, log9, steps, 9, same_error(), failure(checked));
        lemma_obeys_nothing(log9, same_error());
        lemma_obeys_stop(log9, same_error(), WriteTxnError::AuthorizedMutationRefused);
        if checked is Ok {
            lemma_step(start, log9, log9, steps, 10, same_error(), steps[10].verdict);
        }
    }
    if let Err(error) = checked {
        return Err(error);
    }
    if after.is_some() {
        return Err(WriteTxnError::AuthorizedMutationRefused);
    }
    // No missing-edge interpretation or synthetic post-image reaches commit.
    let confirmed = confirm_cascades(transaction, database, &cascades, session);
    proof {
        lemma_same_confirm(looked, *transaction, *database, cascades@);
        assert(confirm_reads(looked, *database, cascades@) =~= confirm_reads(
            *transaction,
            *database,
            cascades@,
        ));
        let old_steps = delete_vertex_steps(txn, looked, *database, *scope, batch, vid);
        let steps = delete_vertex_steps(txn, *transaction, *database, *scope, batch, vid);
        assert(steps =~= old_steps);
        lemma_step(start, log9, session.log(), steps, 11, same_error(), failure(confirmed));
    }
    confirmed
}

proof fn lemma_same_confirm(
    left: WriteTxn,
    right: WriteTxn,
    database: Database,
    list: Seq<u128>,
)
    requires
        same_workspace(left, right),
    ensures
        confirm_steps(left, database, list) == confirm_steps(right, database, list),
{
    assert forall|i: int| 0 <= i < list.len() implies whole(confirm_parts(left, database, list[i]))
        == whole(confirm_parts(right, database, list[i])) by {
        assert(confirm_parts(left, database, list[i]) =~= confirm_parts(right, database, list[i]));
    }
    assert(confirm_steps(left, database, list) =~= confirm_steps(right, database, list));
}

proof fn lemma_same_cascades(
    left: WriteTxn,
    right: WriteTxn,
    database: Database,
    scope: Predicates,
    vid: VId,
    list: Seq<u128>,
)
    requires
        same_workspace(left, right),
    ensures
        cascade_steps(left, database, scope, vid, list) == cascade_steps(
            right,
            database,
            scope,
            vid,
            list,
        ),
        cascade_list(left, database, vid, list) == cascade_list(right, database, vid, list),
    decreases list.len(),
{
    assert forall|i: int| 0 <= i < list.len() implies cascade_step(
        left,
        database,
        scope,
        vid,
        list[i],
    ) == cascade_step(right, database, scope, vid, list[i]) by {
        lemma_same_cascade(left, right, database, scope, vid, list[i]);
    }
    assert(cascade_steps(left, database, scope, vid, list) =~= cascade_steps(
        right,
        database,
        scope,
        vid,
        list,
    ));
    if list.len() > 0 {
        lemma_same_cascades(left, right, database, scope, vid, list.drop_last());
        lemma_same_cascade(left, right, database, scope, vid, list.last());
    }
}

} // verus!
