//! Capability-scoped staging, one original intent at a time.
//!
//! Every intent is checked before normalization can erase an attempted field
//! write. Before and after images come from the native pinned overlay.

use vstd::prelude::*;
use crate::admission::evaluated;
use crate::batch::{intents, PendingRow, WriteBatch};
use crate::conflict::intended;
use crate::database::Database;
use crate::errors::{Denial, LimitDimension, WriteTxnError};
use crate::graph::{vertex_view, vertex_wf, VertexRow, VertexView};
use crate::ids::{CanonicalScalar, ElementId, LabelId, PropertyKeyId, VId};
use crate::idset::{lemma_push_to_set, IdSet};
use crate::plan::{
    ask, demand, failure, lemma_obeys_and, lemma_obeys_ask, lemma_obeys_failed, lemma_obeys_nothing,
    lemma_obeys_stop, lemma_step, obeys, same_error, stop, upto, whole, Plan,
};
use crate::scope::Predicates;
use crate::session::{
    evaluations, lemma_followed_compose, lemma_followed_extend, refused, seen_vertex, work_plan,
    Event, Fields, Host, Request, Session,
};
use crate::txn::{keeps_observations, reads_only, reads_within, same_workspace, WriteTxn};

verus! {

/// The one refusal for hidden, absent and forbidden targets.
pub open spec fn denied() -> WriteTxnError {
    WriteTxnError::Authorization(Denial::ScopeDenied)
}

/// One signed unit of work.
pub open spec fn unit() -> Plan<WriteTxnError> {
    ask(work_plan(1))
}

/// Admit one field: pay, then decide by the capability alone.
pub open spec fn admit_field(admitted: bool) -> Plan<WriteTxnError> {
    unit().and(demand(admitted, denied()))
}

/// Admit every attempted field, labels first.
pub open spec fn fields_steps(
    scope: Predicates,
    labels: Seq<LabelId>,
    keys: Seq<PropertyKeyId>,
) -> Seq<Plan<WriteTxnError>> {
    Seq::new(
        labels.len() + keys.len(),
        |i: int|
            if i < labels.len() {
                admit_field(scope.admits_label(labels[i]))
            } else {
                admit_field(scope.admits_property(keys[i - labels.len()]))
            },
    )
}

pub open spec fn fields_plan(
    scope: Predicates,
    labels: Seq<LabelId>,
    keys: Seq<PropertyKeyId>,
) -> Plan<WriteTxnError> {
    whole(fields_steps(scope, labels, keys))
}

/// The raw identities of some labels.
pub open spec fn label_ids(labels: Seq<LabelId>) -> Set<u128> {
    labels.map_values(|label: LabelId| label.0 as u128).to_set()
}

/// The raw identities of some property keys.
pub open spec fn key_ids(keys: Seq<PropertyKeyId>) -> Set<u128> {
    keys.map_values(|key: PropertyKeyId| key.0 as u128).to_set()
}

/// The keys of a property list, in its order.
pub open spec fn keys_of(props: Seq<(PropertyKeyId, CanonicalScalar)>) -> Seq<PropertyKeyId> {
    props.map_values(|entry: (PropertyKeyId, CanonicalScalar)| entry.0)
}

/// A vertex that the capability may see, or none.
pub open spec fn visible(scope: Predicates, vertex: Option<VertexView>) -> bool {
    match vertex {
        Some(view) => scope.admits_vertex(view.labels),
        None => true,
    }
}

/// Look a vertex up. A hidden and an absent target reach their refusal after the
/// same signed charge.
pub open spec fn lookup_plan(
    txn: WriteTxn,
    database: Database,
    scope: Predicates,
    vid: VId,
) -> Plan<WriteTxnError> {
    unit().and(
        match txn.read_refusal(database) {
            Some(_) => stop(WriteTxnError::AuthorizedMutationRefused),
            None => demand(visible(scope, txn.overlay_vertex(database, vid)), denied()),
        },
    )
}

/// Pay, then have the capability check a vertex write.
pub open spec fn check_vertex_plan(
    before: Option<VertexView>,
    after: Option<VertexView>,
    labels: Set<u128>,
    properties: Set<u128>,
) -> Plan<WriteTxnError> {
    ask(work_plan(1) + seq![Request::CheckVertex { before, after, labels, properties }])
}

/// Hand one more intent to the evaluator. Evaluation replays the whole intent
/// prefix, so that is what is paid for.
pub open spec fn native_plan(
    txn: WriteTxn,
    database: Database,
    batch: WriteBatch,
) -> Plan<WriteTxnError> {
    if txn.staged@.len() + 1 > u64::MAX {
        stop(WriteTxnError::Authorization(Denial::TooLarge))
    } else {
        ask(work_plan((txn.staged@.len() + 1) as u64)).and(
            match txn.staging_refusal(database, seq![batch]) {
                Some(_) => stop(WriteTxnError::AuthorizedMutationRefused),
                None => ask(seq![Request::Prepare { database, staged: txn.staged@.push(batch) }]),
            },
        )
    }
}

/// What staging leaves behind. Where the evaluator handed nothing back, nothing but
/// observations changes; otherwise the intent is staged, and the transaction holds
/// what the evaluator handed back.
pub open spec fn staged_or_not(
    before: WriteTxn,
    after: WriteTxn,
    batch: WriteBatch,
    log: Seq<Event>,
    log_after: Seq<Event>,
) -> bool {
    &&& run_frame(before, after)
    &&& if evaluations(log_after) == evaluations(log) {
        same_workspace(before, after)
    } else {
        &&& after.staged@ == before.staged@.push(batch)
        &&& after.prepared is Some
        &&& evaluations(log_after) == evaluations(log).push(after.prepared->0)
    }
}

/// What a batch depends on, and what is still observed when the evaluator refuses it.
pub open spec fn retained(batch: WriteBatch) -> Set<ElementId> {
    Set::new(|element: ElementId| intended(intents(seq![batch]), element))
}

/// What a run keeps of the transaction it works on.
pub open spec fn run_frame(before: WriteTxn, after: WriteTxn) -> bool {
    &&& keeps_observations(before, after)
    &&& after.owner == before.owner
    &&& after.basis == before.basis
    &&& after.state == before.state
    &&& after.pin == before.pin
    &&& after.savepoints@ == before.savepoints@
    &&& after.program_multi_relation == before.program_multi_relation
}

/// Pay one unit and run a check of a vertex write.
pub fn check_vertex_write<H: Host>(
    before: Option<&VertexRow>,
    after: Option<&VertexRow>,
    fields: &Fields,
    session: &mut Session<H>,
) -> (checked: Result<(), WriteTxnError>)
    ensures
        final(session).metered() == old(session).metered(),
        evaluations(final(session).log()) == evaluations(old(session).log()),
        obeys(
            old(session).log(),
            final(session).log(),
            check_vertex_plan(
                seen_vertex(before),
                seen_vertex(after),
                fields.labels@,
                fields.properties@,
            ),
            same_error(),
            failure(checked),
        ),
{
    let ghost start = session.log();
    let ghost request = Request::CheckVertex {
        before: seen_vertex(before),
        after: seen_vertex(after),
        labels: fields.labels@,
        properties: fields.properties@,
    };
    if let Err(error) = session.work(1) {
        proof {
            lemma_followed_extend(start, session.log(), work_plan(1), seq![request]);
        }
        return Err(error);
    }
    let ghost middle = session.log();
    let checked = session.check_vertex(before, after, fields);
    proof {
        lemma_followed_compose(start, middle, session.log(), work_plan(1), seq![request]);
    }
    checked
}

/// Pay one unit and decide by the capability.
pub fn pay_and_decide<H: Host>(admitted: bool, session: &mut Session<H>) -> (done: Result<(), WriteTxnError>)
    ensures
        final(session).metered() == old(session).metered(),
        evaluations(final(session).log()) == evaluations(old(session).log()),
        obeys(
            old(session).log(),
            final(session).log(),
            admit_field(admitted),
            same_error(),
            failure(done),
        ),
{
    let ghost start = session.log();
    let paid = session.work(1);
    let ghost middle = session.log();
    proof {
        lemma_obeys_ask(start, middle, work_plan(1), same_error());
    }
    if let Err(error) = paid {
        proof {
            lemma_obeys_failed(
                start,
                middle,
                unit(),
                demand(admitted, denied()),
                same_error(),
                Some(error),
            );
        }
        return Err(error);
    }
    proof {
        lemma_obeys_nothing(middle, same_error());
        lemma_obeys_stop(middle, same_error(), denied());
        lemma_obeys_and(
            start,
            middle,
            middle,
            unit(),
            demand(admitted, denied()),
            same_error(),
            if admitted {
                None
            } else {
                Some(denied())
            },
        );
    }
    if !admitted {
        return Err(WriteTxnError::Authorization(Denial::ScopeDenied));
    }
    Ok(())
}

/// Admit every attempted field, labels first.
pub fn admit_fields<H: Host>(
    scope: &Predicates,
    labels: &Vec<LabelId>,
    keys: &Vec<PropertyKeyId>,
    session: &mut Session<H>,
) -> (fields: Result<Fields, WriteTxnError>)
    ensures
        final(session).metered() == old(session).metered(),
        evaluations(final(session).log()) == evaluations(old(session).log()),
        obeys(
            old(session).log(),
            final(session).log(),
            fields_plan(*scope, labels@, keys@),
            same_error(),
            failure(fields),
        ),
        fields matches Ok(admitted) ==> {
            &&& admitted.labels.wf()
            &&& admitted.properties.wf()
            &&& admitted.labels@ == label_ids(labels@)
            &&& admitted.properties@ == key_ids(keys@)
        },
{
    let ghost start = session.log();
    let ghost steps = fields_steps(*scope, labels@, keys@);
    proof {
        lemma_obeys_nothing(start, same_error());
    }
    let mut admitted = Fields { labels: IdSet::new(), properties: IdSet::new() };
    let mut i: usize = 0;
    while i < labels.len()
        invariant
            i <= labels.len(),
            steps == fields_steps(*scope, labels@, keys@),
            start == old(session).log(),
            session.metered() == old(session).metered(),
            evaluations(session.log()) == evaluations(old(session).log()),
            obeys(start, session.log(), upto(steps, i as int), same_error(), None),
            admitted.labels.wf(),
            admitted.properties.wf(),
            admitted.labels@ =~= label_ids(labels@.take(i as int)),
            admitted.properties@ =~= Set::<u128>::empty(),
        decreases labels.len() - i,
    {
        let label = labels[i];
        let ghost middle = session.log();
        let step = pay_and_decide(scope.allows_label(label), session);
        proof {
            lemma_step(start, middle, session.log(), steps, i as int, same_error(), failure(step));
        }
        if let Err(error) = step {
            return Err(error);
        }
        admitted.labels.insert(label.0 as u128);
        proof {
            let raw = |l: LabelId| l.0 as u128;
            let seen = labels@.take(i as int).map_values(raw);
            assert(labels@.take(i + 1).map_values(raw) =~= seen.push(label.0 as u128));
            lemma_push_to_set(seen, label.0 as u128);
        }
        i += 1;
    }
    proof {
        assert(labels@.take(i as int) =~= labels@);
    }
    let mut k: usize = 0;
    while k < keys.len()
        invariant
            k <= keys.len(),
            steps == fields_steps(*scope, labels@, keys@),
            start == old(session).log(),
            session.metered() == old(session).metered(),
            evaluations(session.log()) == evaluations(old(session).log()),
            obeys(start, session.log(), upto(steps, labels@.len() + k), same_error(), None),
            admitted.labels.wf(),
            admitted.properties.wf(),
            admitted.labels@ =~= label_ids(labels@),
            admitted.properties@ =~= key_ids(keys@.take(k as int)),
        decreases keys.len() - k,
    {
        let key = keys[k];
        let ghost middle = session.log();
        let step = pay_and_decide(scope.allows_property(key), session);
        proof {
            lemma_step(
                start,
                middle,
                session.log(),
                steps,
                labels@.len() + k,
                same_error(),
                failure(step),
            );
        }
        if let Err(error) = step {
            return Err(error);
        }
        admitted.properties.insert(key.0 as u128);
        proof {
            let raw = |p: PropertyKeyId| p.0 as u128;
            let seen = keys@.take(k as int).map_values(raw);
            assert(keys@.take(k + 1).map_values(raw) =~= seen.push(key.0 as u128));
            lemma_push_to_set(seen, key.0 as u128);
        }
        k += 1;
    }
    proof {
        assert(keys@.take(k as int) =~= keys@);
    }
    Ok(admitted)
}

/// The keys of a property list.
pub fn list_keys(props: &Vec<(PropertyKeyId, CanonicalScalar)>) -> (keys: Vec<PropertyKeyId>)
    ensures
        keys@ == keys_of(props@),
{
    let mut keys: Vec<PropertyKeyId> = Vec::new();
    let mut i: usize = 0;
    while i < props.len()
        invariant
            i <= props.len(),
            keys@ =~= keys_of(props@.take(i as int)),
        decreases props.len() - i,
    {
        keys.push(props[i].0);
        i += 1;
    }
    proof {
        assert(props@.take(i as int) =~= props@);
    }
    keys
}

/// Look a vertex up through the pinned overlay, if the capability may see it.
pub fn lookup_vertex<H: Host>(
    transaction: &mut WriteTxn,
    database: &Database,
    scope: &Predicates,
    vid: VId,
    session: &mut Session<H>,
) -> (vertex: Result<Option<VertexRow>, WriteTxnError>)
    requires
        old(transaction).wf(),
        database.wf(),
    ensures
        final(transaction).wf(),
        same_workspace(*old(transaction), *final(transaction)),
        keeps_observations(*old(transaction), *final(transaction)),
        reads_only(
            *old(transaction),
            *final(transaction),
            if refused(old(session).log(), final(session).log()) is None && old(
                transaction,
            ).read_refusal(*database) is None {
                set![ElementId::Vertex(vid)]
            } else {
                Set::empty()
            },
        ),
        final(session).metered() == old(session).metered(),
        evaluations(final(session).log()) == evaluations(old(session).log()),
        obeys(
            old(session).log(),
            final(session).log(),
            lookup_plan(*old(transaction), *database, *scope, vid),
            same_error(),
            failure(vertex),
        ),
        vertex matches Ok(row) ==> {
            &&& vertex_wf(row)
            &&& vertex_view(row) == old(transaction).overlay_vertex(*database, vid)
            &&& old(transaction).read_refusal(*database) is None
        },
{
    let ghost start = session.log();
    let ghost decided: Plan<WriteTxnError> = match transaction.read_refusal(*database) {
        Some(_) => stop(WriteTxnError::AuthorizedMutationRefused),
        None => demand(visible(*scope, transaction.overlay_vertex(*database, vid)), denied()),
    };
    let paid = session.work(1);
    let ghost middle = session.log();
    proof {
        lemma_obeys_ask(start, middle, work_plan(1), same_error());
    }
    if let Err(error) = paid {
        proof {
            lemma_obeys_failed(start, middle, unit(), decided, same_error(), Some(error));
        }
        return Err(error);
    }
    proof {
        lemma_obeys_nothing(middle, same_error());
        lemma_obeys_stop(middle, same_error(), denied());
        lemma_obeys_stop(middle, same_error(), WriteTxnError::AuthorizedMutationRefused);
        lemma_obeys_and(start, middle, middle, unit(), decided, same_error(), decided.verdict);
    }
    let row = match transaction.vertex(database, vid) {
        Ok(row) => row,
        Err(_) => return Err(WriteTxnError::AuthorizedMutationRefused),
    };
    // Keep original admitted rows: masking an after-image could conceal a
    // forbidden scope escape or a change to a preserved hidden property.
    if let Some(found) = &row {
        if !scope.allows_vertex(&found.labels) {
            return Err(WriteTxnError::Authorization(Denial::ScopeDenied));
        }
    }
    Ok(row)
}

/// Stage one intent through the native evaluator. Evaluation errors may carry
/// protected values, so they are reported without a reason.
pub fn stage_native<H: Host>(
    transaction: &mut WriteTxn,
    database: &Database,
    batch: WriteBatch,
    session: &mut Session<H>,
) -> (staged: Result<(), WriteTxnError>)
    requires
        old(transaction).wf(),
        database.wf(),
    ensures
        final(transaction).wf(),
        staged_or_not(
            *old(transaction),
            *final(transaction),
            batch,
            old(session).log(),
            final(session).log(),
        ),
        staged is Err ==> same_workspace(*old(transaction), *final(transaction)),
        staged is Ok ==> final(transaction).staged@ == old(transaction).staged@.push(batch),
        staged is Ok ==> reads_only(*old(transaction), *final(transaction), Set::empty()),
        reads_within(*old(transaction), *final(transaction), retained(batch)),
        final(session).metered() == old(session).metered(),
        obeys(
            old(session).log(),
            final(session).log(),
            native_plan(*old(transaction), *database, batch),
            same_error(),
            failure(staged),
        ),
{
    let ghost start = session.log();
    let ghost txn = *transaction;
    let ghost decided: Plan<WriteTxnError> = match txn.staging_refusal(*database, seq![batch]) {
        Some(_) => stop(WriteTxnError::AuthorizedMutationRefused),
        None => ask(seq![Request::Prepare { database: *database, staged: txn.staged@.push(batch) }]),
    };
    let prefix: usize = transaction.staged.len();
    if prefix as u64 == u64::MAX {
        proof {
            lemma_obeys_stop(start, same_error(), WriteTxnError::Authorization(Denial::TooLarge));
        }
        return Err(WriteTxnError::Authorization(Denial::TooLarge));
    }
    let paid = session.work(prefix as u64 + 1);
    let ghost middle = session.log();
    proof {
        lemma_obeys_ask(start, middle, work_plan((txn.staged@.len() + 1) as u64), same_error());
    }
    if let Err(error) = paid {
        proof {
            lemma_obeys_failed(
                start,
                middle,
                ask(work_plan((txn.staged@.len() + 1) as u64)),
                decided,
                same_error(),
                Some(error),
            );
        }
        return Err(error);
    }
    let mut batches: Vec<WriteBatch> = Vec::new();
    batches.push(batch);
    proof {
        assert(batches@ =~= seq![batch]);
        assert(txn.staged@ + seq![batch] =~= txn.staged@.push(batch));
        lemma_obeys_stop(middle, same_error(), WriteTxnError::AuthorizedMutationRefused);
    }
    if transaction.check_staging(database, &batches).is_err() {
        proof {
            lemma_obeys_and(
                start,
                middle,
                middle,
                ask(work_plan((txn.staged@.len() + 1) as u64)),
                decided,
                same_error(),
                decided.verdict,
            );
        }
        return Err(WriteTxnError::AuthorizedMutationRefused);
    }
    let staged = transaction.stage_admitted(database, batches, session, true);
    proof {
        assert(evaluated(txn, *transaction, *database, seq![batch], middle, session.log(), staged));
        lemma_obeys_ask(
            middle,
            session.log(),
            seq![Request::Prepare { database: *database, staged: txn.staged@.push(batch) }],
            same_error(),
        );
        lemma_obeys_and(
            start,
            middle,
            session.log(),
            ask(work_plan((txn.staged@.len() + 1) as u64)),
            decided,
            same_error(),
            failure(staged),
        );
        if staged is Ok {
            assert(evaluations(session.log()).len() == evaluations(start).len() + 1);
        }
    }
    staged
}

/// The vertex that an intent writes, and whether it may create it.
pub open spec fn vertex_target(row: PendingRow) -> Option<(VId, bool)> {
    match row {
        PendingRow::Vertex { vid, .. } => Some((vid, true)),
        PendingRow::SetLabel { vid, .. } => Some((vid, false)),
        PendingRow::SetProperty { vid, .. } => Some((vid, false)),
        PendingRow::CompareAndSet { elem: ElementId::Vertex(vid), .. } => Some((vid, false)),
        _ => None,
    }
}

/// The labels that an intent attempts to write.
pub open spec fn attempted_labels(row: PendingRow) -> Seq<LabelId> {
    match row {
        PendingRow::Vertex { labels, .. } => labels@,
        PendingRow::SetLabel { label, .. } => seq![label],
        _ => Seq::empty(),
    }
}

/// The property keys that an intent attempts to write.
pub open spec fn attempted_keys(row: PendingRow) -> Seq<PropertyKeyId> {
    match row {
        PendingRow::Vertex { props, .. } => keys_of(props@),
        PendingRow::Edge { props, .. } => keys_of(props@),
        PendingRow::SetProperty { key, .. } => seq![key],
        PendingRow::SetEdgeProperty { key, .. } => seq![key],
        PendingRow::CompareAndSet { key, .. } => seq![key],
        _ => Seq::empty(),
    }
}

/// Admit the target of a vertex intent before the evaluator sees it: an existing
/// target with all attempted fields, or a creation by its labels. A target that
/// is missing and may not be created is denied like a hidden one.
pub open spec fn admit_vertex_plan(
    scope: Predicates,
    row: PendingRow,
    creates: bool,
    before: Option<VertexView>,
) -> Plan<WriteTxnError> {
    match before {
        Some(_) => check_vertex_plan(
            before,
            before,
            label_ids(attempted_labels(row)),
            key_ids(attempted_keys(row)),
        ),
        None => if !creates {
            stop(denied())
        } else {
            ask(
                work_plan(1) + seq![
                    Request::Charge { dimension: LimitDimension::Nodes, amount: 1 },
                ],
            ).and(demand(scope.admits_vertex(attempted_labels(row).to_set()), denied()))
        },
    }
}

/// The steps of staging one vertex intent. `after` is the transaction once the
/// evaluator has prepared it.
pub open spec fn stage_vertex_steps(
    txn: WriteTxn,
    after: WriteTxn,
    database: Database,
    scope: Predicates,
    batch: WriteBatch,
) -> Seq<Plan<WriteTxnError>> {
    let row = batch.rows@[0];
    let (vid, creates) = vertex_target(row)->0;
    let before_image = txn.overlay_vertex(database, vid);
    let after_image = after.overlay_vertex(database, vid);
    seq![
        fields_plan(scope, attempted_labels(row), attempted_keys(row)),
        lookup_plan(txn, database, scope, vid),
        admit_vertex_plan(scope, row, creates, before_image),
        native_plan(txn, database, batch),
        lookup_plan(after, database, scope, vid),
        check_vertex_plan(
            before_image,
            after_image,
            label_ids(attempted_labels(row)),
            key_ids(attempted_keys(row)),
        ),
    ]
}

pub open spec fn stage_vertex_plan(
    txn: WriteTxn,
    after: WriteTxn,
    database: Database,
    scope: Predicates,
    batch: WriteBatch,
) -> Plan<WriteTxnError> {
    if vertex_target(batch.rows@[0]) is None {
        stop(WriteTxnError::AuthorizedMutationRefused)
    } else {
        whole(stage_vertex_steps(txn, after, database, scope, batch))
    }
}

/// The vertex that a vertex intent writes.
pub open spec fn target_of(row: PendingRow) -> VId {
    let (vid, _) = vertex_target(row)->0;
    vid
}

/// Admit the creation of a vertex by its labels.
fn admit_creation<H: Host>(scope: &Predicates, labels: &Vec<LabelId>, session: &mut Session<H>) -> (done:
    Result<(), WriteTxnError>)
    ensures
        final(session).metered() == old(session).metered(),
        evaluations(final(session).log()) == evaluations(old(session).log()),
        obeys(
            old(session).log(),
            final(session).log(),
            ask::<WriteTxnError>(
                work_plan(1) + seq![
                    Request::Charge { dimension: LimitDimension::Nodes, amount: 1 },
                ],
            ).and(demand(scope.admits_vertex(labels@.to_set()), denied())),
            same_error(),
            failure(done),
        ),
{
    let ghost start = session.log();
    let ghost node = seq![Request::Charge { dimension: LimitDimension::Nodes, amount: 1u64 }];
    let ghost asks = work_plan(1) + node;
    let ghost decided: Plan<WriteTxnError> = demand(
        scope.admits_vertex(labels@.to_set()),
        denied(),
    );
    let paid = session.work(1);
    if let Err(error) = paid {
        proof {
            lemma_followed_extend(start, session.log(), work_plan(1), node);
            lemma_obeys_ask(start, session.log(), asks, same_error());
            lemma_obeys_failed(start, session.log(), ask(asks), decided, same_error(), Some(error));
        }
        return Err(error);
    }
    let ghost middle = session.log();
    let charged = session.charge(LimitDimension::Nodes, 1);
    proof {
        lemma_followed_compose(start, middle, session.log(), work_plan(1), node);
        lemma_obeys_ask(start, session.log(), asks, same_error());
    }
    if let Err(error) = charged {
        proof {
            lemma_obeys_failed(start, session.log(), ask(asks), decided, same_error(), Some(error));
        }
        return Err(error);
    }
    proof {
        lemma_obeys_nothing(session.log(), same_error());
        lemma_obeys_stop(session.log(), same_error(), denied());
        lemma_obeys_and(
            start,
            session.log(),
            session.log(),
            ask(asks),
            decided,
            same_error(),
            decided.verdict,
        );
    }
    if !scope.allows_vertex(labels) {
        return Err(WriteTxnError::Authorization(Denial::ScopeDenied));
    }
    Ok(())
}

/// What staging a vertex intent reads: its target.
pub open spec fn vertex_stage_reads(row: PendingRow) -> Set<ElementId> {
    set![ElementId::Vertex(target_of(row))]
}

/// Stage one vertex intent: admit its fields and target, evaluate it natively,
/// and check the image it produced.
pub fn stage_vertex<H: Host>(
    transaction: &mut WriteTxn,
    database: &Database,
    batch: WriteBatch,
    scope: &Predicates,
    session: &mut Session<H>,
) -> (staged: Result<(), WriteTxnError>)
    requires
        old(transaction).wf(),
        database.wf(),
        batch.rows@.len() == 1,
    ensures
        final(transaction).wf(),
        staged_or_not(
            *old(transaction),
            *final(transaction),
            batch,
            old(session).log(),
            final(session).log(),
        ),
        staged is Ok ==> final(transaction).staged@ == old(transaction).staged@.push(batch),
        staged is Ok ==> reads_only(
            *old(transaction),
            *final(transaction),
            vertex_stage_reads(batch.rows@[0]),
        ),
        reads_within(
            *old(transaction),
            *final(transaction),
            vertex_stage_reads(batch.rows@[0]).union(retained(batch)),
        ),
        vertex_target(batch.rows@[0]) is None || fields_plan(
            *scope,
            attempted_labels(batch.rows@[0]),
            attempted_keys(batch.rows@[0]),
        ).verdict is Some ==> staged is Err && *final(transaction) == *old(transaction),
        final(session).metered() == old(session).metered(),
        obeys(
            old(session).log(),
            final(session).log(),
            stage_vertex_plan(
                *old(transaction),
                *final(transaction),
                *database,
                *scope,
                batch,
            ),
            same_error(),
            failure(staged),
        ),
{
    let ghost start = session.log();
    let ghost txn = *transaction;
    let row = &batch.rows[0];
    let mut labels: Vec<LabelId> = Vec::new();
    let mut keys: Vec<PropertyKeyId> = Vec::new();
    let (vid, creates) = match row {
        PendingRow::Vertex { vid, labels: listed, props, .. } => {
            labels = crate::graph::clone_labels(listed);
            keys = list_keys(props);
            (*vid, true)
        },
        PendingRow::SetLabel { vid, label, .. } => {
            labels.push(*label);
            (*vid, false)
        },
        PendingRow::SetProperty { vid, key, .. } => {
            keys.push(*key);
            (*vid, false)
        },
        PendingRow::CompareAndSet { elem: ElementId::Vertex(vid), key, .. } => {
            keys.push(*key);
            (*vid, false)
        },
        _ => {
            proof {
                lemma_obeys_stop(start, same_error(), WriteTxnError::AuthorizedMutationRefused);
            }
            return Err(WriteTxnError::AuthorizedMutationRefused);
        },
    };
    proof {
        assert(labels@ =~= attempted_labels(*row));
        assert(keys@ =~= attempted_keys(*row));
        lemma_obeys_nothing(start, same_error());
    }
    let admitted = admit_fields(scope, &labels, &keys, session);
    let ghost log_fields = session.log();
    let fields = match admitted {
        Ok(fields) => fields,
        Err(error) => {
            proof {
                let steps = stage_vertex_steps(txn, *transaction, *database, *scope, batch);
                lemma_step(start, start, log_fields, steps, 0, same_error(), Some(error));
            }
            return Err(error);
        },
    };
    let found = lookup_vertex(transaction, database, scope, vid, session);
    let ghost log_found = session.log();
    let before = match found {
        Ok(before) => before,
        Err(error) => {
            proof {
                let steps = stage_vertex_steps(txn, *transaction, *database, *scope, batch);
                lemma_step(start, start, log_fields, steps, 0, same_error(), None);
                lemma_step(start, log_fields, log_found, steps, 1, same_error(), Some(error));
            }
            return Err(error);
        },
    };
    // Admit the original target and all attempted fields before the evaluator
    // can run a conditional comparison or derive any effects.
    let target = match &before {
        Some(vertex) => check_vertex_write(Some(vertex), Some(vertex), &fields, session),
        None => {
            if creates {
                admit_creation(scope, &labels, session)
            } else {
                proof {
                    lemma_obeys_stop(session.log(), same_error(), denied());
                }
                Err(WriteTxnError::Authorization(Denial::ScopeDenied))
            }
        },
    };
    let ghost log_target = session.log();
    if let Err(error) = target {
        proof {
            let steps = stage_vertex_steps(txn, *transaction, *database, *scope, batch);
            lemma_step(start, start, log_fields, steps, 0, same_error(), None);
            lemma_step(start, log_fields, log_found, steps, 1, same_error(), None);
            lemma_step(start, log_found, log_target, steps, 2, same_error(), Some(error));
        }
        return Err(error);
    }
    let ghost read = *transaction;
    let native = stage_native(transaction, database, batch, session);
    let ghost log_native = session.log();
    proof {
        assert(native_plan(read, *database, batch) == native_plan(txn, *database, batch));
    }
    if let Err(error) = native {
        proof {
            let steps = stage_vertex_steps(txn, *transaction, *database, *scope, batch);
            lemma_step(start, start, log_fields, steps, 0, same_error(), None);
            lemma_step(start, log_fields, log_found, steps, 1, same_error(), None);
            lemma_step(start, log_found, log_target, steps, 2, same_error(), None);
            lemma_step(start, log_target, log_native, steps, 3, same_error(), Some(error));
        }
        return Err(error);
    }
    let ghost prepared = *transaction;
    let produced = lookup_vertex(transaction, database, scope, vid, session);
    let ghost log_produced = session.log();
    proof {
        assert(lookup_plan(prepared, *database, *scope, vid) == lookup_plan(
            *transaction,
            *database,
            *scope,
            vid,
        ));
    }
    let after = match produced {
        Ok(after) => after,
        Err(error) => {
            proof {
                let steps = stage_vertex_steps(txn, *transaction, *database, *scope, batch);
                lemma_step(start, start, log_fields, steps, 0, same_error(), None);
                lemma_step(start, log_fields, log_found, steps, 1, same_error(), None);
                lemma_step(start, log_found, log_target, steps, 2, same_error(), None);
                lemma_step(start, log_target, log_native, steps, 3, same_error(), None);
                lemma_step(start, log_native, log_produced, steps, 4, same_error(), Some(error));
            }
            return Err(error);
        },
    };
    let checked = check_vertex_write(before.as_ref(), after.as_ref(), &fields, session);
    proof {
        let steps = stage_vertex_steps(txn, *transaction, *database, *scope, batch);
        lemma_step(start, start, log_fields, steps, 0, same_error(), None);
        lemma_step(start, log_fields, log_found, steps, 1, same_error(), None);
        lemma_step(start, log_found, log_target, steps, 2, same_error(), None);
        lemma_step(start, log_target, log_native, steps, 3, same_error(), None);
        lemma_step(start, log_native, log_produced, steps, 4, same_error(), None);
        lemma_step(start, log_produced, session.log(), steps, 5, same_error(), failure(checked));
    }
    checked
}

} // verus!
