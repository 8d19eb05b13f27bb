//! Native statements, autocommit, queries, evidence and the model beneath them.

use fgdb::authorized_program::StatementKind;
use fgdb::batch::{PendingRow, WriteBatch, WriteMismatchPolicy};
use fgdb::collector::{Prepared, Statement};
use fgdb::database::Database;
use fgdb::edge_merge::{
    GraphEdgeMerge, GraphEdgeMergeOutcome, GraphEdgeMergePolicy, Selection, SelectedValue,
};
use fgdb::edge_upsert::{GraphEdgeUpsert, GraphEdgeUpsertBranch, GraphEdgeUpsertPolicy};
use fgdb::errors::{
    DatabaseState, Denial, Law, LimitDimension, WriteError, WriteTxnError, HistoryError, ConflictDetail, GqlError,
};
use fgdb::evaluator::{AggregateSource, EvaluatorRecord, GraphEvaluator, QueryExecution, SetRun};
use fgdb::evidence_codec::{
    Artifact, Auditor, Authority, EmbeddedReadView, EvidenceCodec, GqlEvidenceLimitedAuditError, GqlEvidenceLimits, GqlEvidencePage, GqlEvidencePageAuditError, GqlEvidencePageError, GqlEvidencePageToken,
};
use fgdb::executor::{Executed, Executor, ExecutorRecord};
use fgdb::finish::CompletionStep;
use fgdb::graph::{AdjacencyEntry, DeltaRow, EdgeRecord, VertexRow};
use fgdb::identity::IdentityState;
use fgdb::ids::{
    CanonicalScalar, CommitSeq, EId, ElementId, LabelId, PropertyKeyId, RelationId, VId,
};
use fgdb::idset::{ElementSet, IdMap, IdSet};
use fgdb::publisher::{Fence, Publication, Publisher, PublisherRecord};
use fgdb::queries::{BindError, BoundPlan, GqlPlanCertificate, Observations, QueryAnswer};
use fgdb::scope::Predicates;
use fgdb::selection::{
    pay_node, query_control, selection_error, ControlError, SelectionError, SelectionSource,
};
use fgdb::selector::{PairSelector, SelectedPairs, SelectorRecord};
use fgdb::session::{EdgeImage, Fields, Host, IdentityKind, Metering, Session};
use fgdb::statement::{Fault, QueryPolicy, QueryStats, GlaLimitDimension, GlaExecutionEvent};
use fgdb::template::{Coordinate, Template};
use fgdb::txn::{EmbeddedTxnCompletion, EmbeddedTxnState, PreparedWrite, WriteTxn};
use std::cell::RefCell;
use std::collections::{BTreeMap, BTreeSet};
use std::rc::Rc;

/// What a capability has left, and whether it is still live.
struct Budget {
    seen: u64,
    stop: Option<u64>,
    refusal: WriteTxnError,
    work: u64,
    nodes: u64,
    rows: u64,
}

impl Budget {
    fn poll(&mut self) -> Result<(), WriteTxnError> {
        self.seen += 1;
        match self.stop {
            Some(stop) if self.seen >= stop => Err(self.refusal),
            _ => Ok(()),
        }
    }

    fn charge(&mut self, dimension: LimitDimension, amount: u64) -> Result<(), Denial> {
        let left = match dimension {
            LimitDimension::Work => &mut self.work,
            LimitDimension::Nodes => &mut self.nodes,
            LimitDimension::Rows => &mut self.rows,
        };
        if *left < amount {
            return Err(Denial::LimitExceeded(dimension));
        }
        *left -= amount;
        Ok(())
    }
}

/// The process around a transaction: cancellation, allowances, a scope, the native
/// evaluator and an allocator.
struct Native {
    budget: Rc<RefCell<Budget>>,
    labels: Option<Vec<LabelId>>,
    relations: Option<Vec<RelationId>>,
    properties: Option<Vec<PropertyKeyId>>,
    issued: u128,
    repeats: bool,
}

impl Native {
    fn new() -> Native {
        Native {
            budget: Rc::new(RefCell::new(Budget {
                seen: 0,
                stop: None,
                refusal: WriteTxnError::NoPreparedWrite,
                work: u64::MAX,
                nodes: u64::MAX,
                rows: u64::MAX,
            })),
            labels: None,
            relations: None,
            properties: None,
            issued: 1000,
            repeats: false,
        }
    }

    fn sees(&self, row: &VertexRow) -> bool {
        match &self.labels {
            None => true,
            Some(labels) => row.labels.iter().any(|label| labels.contains(label)),
        }
    }

    fn reaches(&self, image: &EdgeImage) -> bool {
        let relation = match &self.relations {
            None => true,
            Some(relations) => relations.contains(&image.edge.entry.relation),
        };
        relation && self.sees(&image.src) && self.sees(&image.dst)
    }

    fn writes(&self, properties: &IdSet) -> bool {
        match &self.properties {
            None => true,
            Some(keys) => {
                (0..properties.len()).all(|i| keys.iter().any(|key| key.0 as u128 == properties.at(i)))
            }
        }
    }
}

/// Evaluate all intents in order, and keep their canonical net effects.
fn evaluate(database: &Database, staged: &[WriteBatch]) -> Result<PreparedWrite, WriteError> {
    let basis = database.snapshot_frontier();
    let vertex_map = database.vertex_map_at(basis).unwrap();
    let edge_map = database.edge_map_at(basis).unwrap();
    let mut vertices: BTreeMap<u128, VertexRow> = BTreeMap::new();
    for i in 0..vertex_map.len() {
        vertices.insert(vertex_map.key_at(i), vertex_map.value_at(i).copy());
    }
    let mut edges: BTreeMap<u128, EdgeRecord> = BTreeMap::new();
    for i in 0..edge_map.len() {
        edges.insert(edge_map.key_at(i), edge_map.value_at(i).copy());
    }
    let mut cascaded: BTreeMap<u128, BTreeSet<u128>> = BTreeMap::new();
    let mut ordinal: u64 = 0;
    for batch in staged {
        for row in &batch.rows {
            ordinal += 1;
            match row {
                PendingRow::Vertex { vid, labels, props, ensure } => {
                    if vertices.contains_key(&vid.0) {
                        if !ensure {
                            return Err(WriteError::Evaluation(1));
                        }
                    } else {
                        let mut labels = labels.clone();
                        labels.sort_by_key(|label| label.0);
                        let mut props = props.clone();
                        props.sort_by_key(|prop| prop.0 .0);
                        vertices.insert(
                            vid.0,
                            VertexRow { vid: *vid, birth_ordinal: ordinal, labels, props },
                        );
                    }
                }
                PendingRow::Edge { eid, src, dst, props, ensure } => {
                    if !vertices.contains_key(&src.0) || !vertices.contains_key(&dst.0) {
                        return Err(WriteError::Evaluation(2));
                    }
                    let present = edges.values().any(|edge| {
                        edge.entry.src == *src
                            && edge.entry.dst == *dst
                            && edge.entry.relation == batch.relation
                    });
                    if *ensure && present {
                        continue;
                    }
                    if edges.contains_key(&eid.0) {
                        return Err(WriteError::Evaluation(3));
                    }
                    let mut props = props.clone();
                    props.sort_by_key(|prop| prop.0 .0);
                    edges.insert(
                        eid.0,
                        EdgeRecord {
                            entry: AdjacencyEntry {
                                src: *src,
                                relation: batch.relation,
                                dst: *dst,
                                eid: *eid,
                                created_at: basis,
                                retired_at: None,
                            },
                            props,
                        },
                    );
                }
                PendingRow::DeleteVertex { vid } => {
                    if vertices.remove(&vid.0).is_none() {
                        return Err(WriteError::Evaluation(4));
                    }
                    let incident: Vec<u128> = edges
                        .values()
                        .filter(|edge| edge.entry.src == *vid || edge.entry.dst == *vid)
                        .map(|edge| edge.entry.eid.0)
                        .collect();
                    for eid in incident {
                        edges.remove(&eid);
                        cascaded.entry(vid.0).or_default().insert(eid);
                    }
                }
                PendingRow::DeleteEdge { eid, if_present } => {
                    if edges.remove(&eid.0).is_none() && !if_present {
                        return Err(WriteError::Evaluation(5));
                    }
                }
                PendingRow::SetLabel { vid, label, present } => match vertices.get_mut(&vid.0) {
                    None => return Err(WriteError::Evaluation(6)),
                    Some(row) => {
                        row.labels.retain(|held| held != label);
                        if *present {
                            row.labels.push(*label);
                        }
                        row.labels.sort_by_key(|label| label.0);
                    }
                },
                PendingRow::SetProperty { vid, key, value } => match vertices.get_mut(&vid.0) {
                    None => return Err(WriteError::Evaluation(7)),
                    Some(row) => assign(&mut row.props, *key, *value),
                },
                PendingRow::SetEdgeProperty { eid, key, value } => match edges.get_mut(&eid.0) {
                    None => return Err(WriteError::Evaluation(8)),
                    Some(row) => assign(&mut row.props, *key, *value),
                },
                PendingRow::CompareAndSet { elem, key, expected, value, policy } => {
                    let props = match elem {
                        ElementId::Vertex(vid) => vertices.get_mut(&vid.0).map(|row| &mut row.props),
                        ElementId::Edge(eid) => edges.get_mut(&eid.0).map(|row| &mut row.props),
                    };
                    match props {
                        None => return Err(WriteError::Evaluation(9)),
                        Some(props) => {
                            let held = props.iter().find(|prop| prop.0 == *key).map(|prop| prop.1);
                            if held == *expected {
                                assign(props, *key, Some(*value));
                            } else if *policy == WriteMismatchPolicy::AbortWrite {
                                return Err(WriteError::Evaluation(10));
                            }
                        }
                    }
                }
            }
        }
    }
    let mut shared: Vec<DeltaRow> = Vec::new();
    let mut slices: BTreeMap<u64, Vec<DeltaRow>> = BTreeMap::new();
    for i in 0..vertex_map.len() {
        let before = vertex_map.value_at(i);
        match vertices.get(&before.vid.0) {
            None => {
                let retired = (0..edge_map.len())
                    .map(|e| edge_map.key_at(e))
                    .filter(|eid| cascaded.get(&before.vid.0).is_some_and(|set| set.contains(eid)))
                    .map(EId)
                    .collect();
                shared.push(DeltaRow::DeleteVertex {
                    vid: before.vid,
                    sorted_retired_incident_edges: retired,
                });
            }
            Some(after) => {
                for label in before.labels.iter().filter(|label| !after.labels.contains(label)) {
                    shared.push(DeltaRow::LabelMembership {
                        vid: before.vid,
                        label: *label,
                        after: false,
                    });
                }
                for label in after.labels.iter().filter(|label| !before.labels.contains(label)) {
                    shared.push(DeltaRow::LabelMembership {
                        vid: before.vid,
                        label: *label,
                        after: true,
                    });
                }
                let elem = ElementId::Vertex(before.vid);
                shared.extend(changed_properties(elem, &before.props, &after.props));
            }
        }
    }
    for (key, after) in &vertices {
        if vertex_map.get(*key).is_none() {
            shared.push(DeltaRow::CreateVertex {
                vid: after.vid,
                birth_ordinal: after.birth_ordinal,
                labels: after.labels.clone(),
                props: after.props.clone(),
            });
        }
    }
    for i in 0..edge_map.len() {
        let before = edge_map.value_at(i);
        let slice = slices.entry(before.entry.relation.0).or_default();
        match edges.get(&before.entry.eid.0) {
            None => {
                if !cascaded.values().any(|set| set.contains(&before.entry.eid.0)) {
                    slice.push(DeltaRow::DeleteEdge { eid: before.entry.eid });
                }
            }
            Some(after) => {
                let elem = ElementId::Edge(before.entry.eid);
                slice.extend(changed_properties(elem, &before.props, &after.props));
            }
        }
    }
    for (key, after) in &edges {
        if edge_map.get(*key).is_none() {
            slices.entry(after.entry.relation.0).or_default().push(DeltaRow::CreateEdge {
                eid: after.entry.eid,
                src: after.entry.src,
                relation: after.entry.relation,
                dst: after.entry.dst,
                props: after.props.clone(),
            });
        }
    }
    let mut coordinates = vec![Coordinate { relation: None, rows: shared }];
    for (relation, rows) in slices {
        coordinates.push(Coordinate { relation: Some(RelationId(relation)), rows });
    }
    coordinates.retain(|coordinate| !coordinate.rows.is_empty());
    Ok(PreparedWrite { template: Template { coordinates }, basis, owner: database.owner })
}

fn assign(
    props: &mut Vec<(PropertyKeyId, CanonicalScalar)>,
    key: PropertyKeyId,
    value: Option<CanonicalScalar>,
) {
    props.retain(|prop| prop.0 != key);
    if let Some(value) = value {
        props.push((key, value));
    }
    props.sort_by_key(|prop| prop.0 .0);
}

fn changed_properties(
    elem: ElementId,
    before: &[(PropertyKeyId, CanonicalScalar)],
    after: &[(PropertyKeyId, CanonicalScalar)],
) -> Vec<DeltaRow> {
    let mut rows = Vec::new();
    for (key, _) in before {
        if !after.iter().any(|prop| prop.0 == *key) {
            rows.push(DeltaRow::Property { elem, property: *key, after: None });
        }
    }
    for prop in after {
        if !before.contains(prop) {
            rows.push(DeltaRow::Property { elem, property: prop.0, after: Some(prop.1) });
        }
    }
    rows
}

impl Host for Native {
    fn poll(&mut self) -> Result<(), WriteTxnError> {
        self.budget.borrow_mut().poll()
    }

    fn poll_query(&mut self) -> Result<(), WriteTxnError> {
        self.poll()
    }

    fn charge(&mut self, dimension: LimitDimension, amount: u64) -> Result<(), Denial> {
        self.budget.borrow_mut().charge(dimension, amount)
    }

    fn check_vertex(
        &mut self,
        before: Option<&VertexRow>,
        after: Option<&VertexRow>,
        fields: &Fields,
    ) -> Result<(), Denial> {
        self.charge(LimitDimension::Nodes, 1)?;
        let admitted = before.map_or(true, |row| self.sees(row))
            && after.map_or(true, |row| self.sees(row))
            && self.writes(&fields.properties);
        if admitted {
            Ok(())
        } else {
            Err(Denial::ScopeDenied)
        }
    }

    fn check_edge(
        &mut self,
        before: Option<&EdgeImage>,
        after: Option<&EdgeImage>,
        properties: &IdSet,
    ) -> Result<(), Denial> {
        self.charge(LimitDimension::Nodes, 1)?;
        let admitted = before.map_or(true, |image| self.reaches(image))
            && after.map_or(true, |image| self.reaches(image))
            && self.writes(properties);
        if admitted {
            Ok(())
        } else {
            Err(Denial::ScopeDenied)
        }
    }

    fn prepare(
        &mut self,
        database: &Database,
        staged: &Vec<WriteBatch>,
    ) -> Result<PreparedWrite, WriteTxnError> {
        let mut write = crate::evaluate(database, staged).map_err(WriteTxnError::Write)?;
        if self.repeats {
            let again = write.template.copy();
            write.template.coordinates.extend(again.coordinates);
        }
        Ok(write)
    }

    fn allocate(&mut self, kind: IdentityKind, _ordinal: u64) -> Result<ElementId, WriteTxnError> {
        self.issued += 1;
        Ok(match kind {
            IdentityKind::Vertex => ElementId::Vertex(VId(self.issued)),
            IdentityKind::Edge => ElementId::Edge(EId(self.issued)),
        })
    }

    fn bind(&mut self, source: &String) -> Result<BoundPlan, BindError> {
        match source.as_str() {
            "MATCH (n:L) RETURN n" => Ok(BoundPlan { relation: None, digest: 1 }),
            "MATCH (n:Unknown) RETURN n" => Err(BindError::Unbound(7)),
            _ => Err(BindError::Parse(3)),
        }
    }

    fn evaluate(
        &mut self,
        transaction: &WriteTxn,
        database: &Database,
        _plan: &BoundPlan,
    ) -> QueryAnswer {
        let map = database.vertex_map_at(transaction.basis).unwrap();
        let rows: Vec<VId> = (0..map.len())
            .filter(|i| map.value_at(*i).labels.contains(&LabelId(1)))
            .map(|i| VId(map.key_at(i)))
            .collect();
        QueryAnswer {
            observed: Observations {
                elements: rows.iter().map(|vid| ElementId::Vertex(*vid)).collect(),
                expansions: vec![],
                labels: vec![LabelId(1)],
                vertices: false,
                edges: false,
            },
            rows: Ok(rows),
        }
    }
}

/// Intents, by name.
trait Intents {
    fn row(&mut self, row: PendingRow) -> &mut Self;

    fn create_vertex(
        &mut self,
        vid: VId,
        labels: Vec<LabelId>,
        props: Vec<(PropertyKeyId, CanonicalScalar)>,
    ) -> &mut Self {
        self.row(PendingRow::Vertex { vid, labels, props, ensure: false })
    }

    fn ensure_vertex(
        &mut self,
        vid: VId,
        labels: Vec<LabelId>,
        props: Vec<(PropertyKeyId, CanonicalScalar)>,
    ) -> &mut Self {
        self.row(PendingRow::Vertex { vid, labels, props, ensure: true })
    }

    fn add_edge(
        &mut self,
        eid: EId,
        src: VId,
        dst: VId,
        props: Vec<(PropertyKeyId, CanonicalScalar)>,
    ) -> &mut Self {
        self.row(PendingRow::Edge { eid, src, dst, props, ensure: false })
    }

    fn ensure_edge_by_triple(
        &mut self,
        eid: EId,
        src: VId,
        dst: VId,
        props: Vec<(PropertyKeyId, CanonicalScalar)>,
    ) -> &mut Self {
        self.row(PendingRow::Edge { eid, src, dst, props, ensure: true })
    }

    fn delete_vertex(&mut self, vid: VId) -> &mut Self {
        self.row(PendingRow::DeleteVertex { vid })
    }

    fn delete_edge(&mut self, eid: EId) -> &mut Self {
        self.row(PendingRow::DeleteEdge { eid, if_present: false })
    }

    fn delete_edge_if_present(&mut self, eid: EId) -> &mut Self {
        self.row(PendingRow::DeleteEdge { eid, if_present: true })
    }

    fn set_vertex_label(&mut self, vid: VId, label: LabelId, present: bool) -> &mut Self {
        self.row(PendingRow::SetLabel { vid, label, present })
    }

    fn set_vertex_property(
        &mut self,
        vid: VId,
        key: PropertyKeyId,
        value: Option<CanonicalScalar>,
    ) -> &mut Self {
        self.row(PendingRow::SetProperty { vid, key, value })
    }

    fn set_edge_property(
        &mut self,
        eid: EId,
        key: PropertyKeyId,
        value: Option<CanonicalScalar>,
    ) -> &mut Self {
        self.row(PendingRow::SetEdgeProperty { eid, key, value })
    }

    fn compare_and_set(
        &mut self,
        elem: ElementId,
        key: PropertyKeyId,
        expected: Option<CanonicalScalar>,
        value: CanonicalScalar,
        policy: WriteMismatchPolicy,
    ) -> &mut Self {
        self.row(PendingRow::CompareAndSet { elem, key, expected, value, policy })
    }
}

impl Intents for WriteBatch {
    fn row(&mut self, row: PendingRow) -> &mut Self {
        self.rows.push(row);
        self
    }
}

fn open() -> Database {
    Database::open_memory(1, 7)
}

fn free() -> Session<Native> {
    Session::new(Native::new(), Metering::Free)
}

/// Publish what a completion accepted.
fn publish(
    transaction: &mut WriteTxn,
    database: &mut Database,
    step: CompletionStep,
) -> Result<EmbeddedTxnCompletion, WriteTxnError> {
    match step {
        CompletionStep::Closed(completion) => Ok(completion),
        CompletionStep::Publish { prepared, guard } => {
            let seq = database.publish(prepared.template);
            transaction.settle(database, guard, Some(Ok(seq))).unwrap()
        }
    }
}

fn finish(
    transaction: &mut WriteTxn,
    database: &mut Database,
) -> Result<EmbeddedTxnCompletion, WriteTxnError> {
    let step = transaction.complete_controlled(database, false, &mut free())?;
    publish(transaction, database, step)
}

fn committed(completion: EmbeddedTxnCompletion) -> CommitSeq {
    match completion {
        EmbeddedTxnCompletion::WriteCommitted { commit_seq } => commit_seq,
        EmbeddedTxnCompletion::ReadClosed { .. } => panic!("nothing was written"),
    }
}

fn commit(transaction: &mut WriteTxn, database: &mut Database) -> Result<CommitSeq, WriteTxnError> {
    let step = transaction.complete_controlled(database, true, &mut free())?;
    publish(transaction, database, step).map(committed)
}

fn write(
    transaction: &mut WriteTxn,
    database: &Database,
    batches: Vec<WriteBatch>,
) -> Result<(), WriteTxnError> {
    transaction.write_ordered(database, batches, &mut free())
}

/// One whole transaction.
fn seed(database: &mut Database, batch: WriteBatch) -> CommitSeq {
    let mut transaction = WriteTxn::begin(database).unwrap();
    write(&mut transaction, database, vec![batch]).unwrap();
    commit(&mut transaction, database).unwrap()
}

fn vertex(database: &Database, vid: VId) -> Option<VertexRow> {
    database.vertex_at(vid, database.snapshot_frontier()).unwrap()
}

fn edge(database: &Database, eid: EId) -> Option<EdgeRecord> {
    database.edge_at(eid, database.snapshot_frontier()).unwrap()
}

fn number(value: i64) -> CanonicalScalar {
    CanonicalScalar::Int(value)
}

const R: RelationId = RelationId(1);
const S: RelationId = RelationId(2);
const L: LabelId = LabelId(1);
const P: PropertyKeyId = PropertyKeyId(1);
const Q: PropertyKeyId = PropertyKeyId(2);

fn ample() -> QueryPolicy {
    QueryPolicy {
        max_work_units: 100_000,
        max_scratch_entries: 100_000,
        max_snapshot_records: Some(100_000),
        max_result_rows: Some(100_000),
        signed: false,
    }
}

fn used(records: u64, rows: u64) -> QueryStats {
    QueryStats { result_rows: rows, snapshot_records: records, work_units: 3, scratch_entries: 2 }
}

/// Two vertices and one edge of relation `R` between them.
fn pair() -> Database {
    let mut db = open();
    let mut batch = WriteBatch::new(R);
    batch.create_vertex(VId(1), vec![L], vec![(P, number(10))]);
    batch.create_vertex(VId(2), vec![L], vec![(P, number(20))]);
    batch.add_edge(EId(11), VId(1), VId(2), vec![]);
    seed(&mut db, batch);
    db
}

/// A selector with one answer, which read one vertex.
struct Picked {
    selection: Option<Selection>,
    asked: u64,
}

impl PairSelector for Picked {
    fn select(
        &mut self,
        pattern: u64,
        _policy: QueryPolicy,
        _transaction: &WriteTxn,
        _database: &Database,
    ) -> Result<SelectedPairs, Fault> {
        assert_eq!(pattern, 3);
        self.asked += 1;
        let elements = vec![ElementId::Vertex(VId(77))];
        match self.selection.take() {
            Some(selection) => {
                Ok(SelectedPairs { selection, observed: Observations { elements, ..nothing() } })
            }
            None => Err(Fault::InvalidSourceShape),
        }
    }
}

fn chosen(rows: Vec<Vec<SelectedValue>>) -> SelectorRecord<Picked> {
    let stats = used(3, rows.len() as u64);
    SelectorRecord::new(Picked { selection: Some(Selection { rows, stats }), asked: 0 })
}

fn between(a: u128, b: u128) -> Vec<SelectedValue> {
    vec![SelectedValue::Vertex(VId(a)), SelectedValue::Vertex(VId(b))]
}

fn merge_into(relation: RelationId) -> GraphEdgeMerge {
    GraphEdgeMerge {
        pattern: 3,
        reads_edges: true,
        relation,
        width: 2,
        source_column: 0,
        destination_column: 1,
        properties: vec![(P, number(5))],
    }
}

fn merge_policy(max_created_edges: u64) -> GraphEdgeMergePolicy {
    GraphEdgeMergePolicy { query: ample(), max_created_edges }
}

#[test]
fn a_native_edge_merge_matches_creates_or_reports_no_input() {
    let mut db = pair();
    let mut txn = WriteTxn::begin(&db).unwrap();
    let mut session = free();
    let (stats, outcome) = txn
        .execute_graph_edge_merge_governed(
            &db,
            &merge_into(R),
            merge_policy(0),
            &mut chosen(vec![between(1, 2), between(1, 2)]),
            &mut session,
        )
        .unwrap();
    assert_eq!(outcome, GraphEdgeMergeOutcome::Matched(EId(11)));
    assert_eq!((stats.created_edges, stats.overlay_edges), (0, 1));
    assert_eq!(stats.match_selection, used(3, 2));
    let (_, outcome) = txn
        .execute_graph_edge_merge_governed(
            &db,
            &merge_into(S),
            merge_policy(0),
            &mut chosen(vec![]),
            &mut session,
        )
        .unwrap();
    assert_eq!(outcome, GraphEdgeMergeOutcome::NoInput);
    let (stats, outcome) = txn
        .execute_graph_edge_merge_governed(
            &db,
            &merge_into(S),
            merge_policy(1),
            &mut chosen(vec![between(2, 1)]),
            &mut session,
        )
        .unwrap();
    assert_eq!(outcome, GraphEdgeMergeOutcome::Created(EId(1001)));
    assert_eq!(stats.created_edges, 1);
    // The staged edge is the one that the next merge finds.
    let (_, again) = txn
        .execute_graph_edge_merge_governed(
            &db,
            &merge_into(S),
            merge_policy(0),
            &mut chosen(vec![between(2, 1)]),
            &mut session,
        )
        .unwrap();
    assert_eq!(again, GraphEdgeMergeOutcome::Matched(EId(1001)));
    commit(&mut txn, &mut db).unwrap();
    let record = edge(&db, EId(1001)).unwrap();
    assert_eq!((record.entry.src, record.entry.relation, record.entry.dst), (VId(2), S, VId(1)));
    assert_eq!(record.props, vec![(P, number(5))]);
}

#[test]
fn native_edge_merge_refusals_name_their_input() {
    let mut db = pair();
    let mut extra = WriteBatch::new(R);
    extra.add_edge(EId(12), VId(1), VId(2), vec![]);
    seed(&mut db, extra);
    let run = |merge: GraphEdgeMerge, policy: GraphEdgeMergePolicy, rows| {
        let mut txn = WriteTxn::begin(&db).unwrap();
        let done = txn.execute_graph_edge_merge_governed(
            &db,
            &merge,
            policy,
            &mut chosen(rows),
            &mut free(),
        );
        assert!(txn.prepared.is_none() && txn.staged.is_empty());
        done.unwrap_err()
    };
    assert_eq!(
        run(merge_into(S), merge_policy(1), vec![between(1, 2), between(2, 1)]),
        Fault::AmbiguousEndpointPairs { observed: 2 }
    );
    assert_eq!(
        run(merge_into(R), merge_policy(1), vec![between(1, 2)]),
        Fault::AmbiguousRelationships { observed: 2 }
    );
    assert_eq!(
        run(
            merge_into(S),
            merge_policy(1),
            vec![vec![SelectedValue::Vertex(VId(1)), SelectedValue::Null]]
        ),
        Fault::NullEndpoint { row: 0, column: 1 }
    );
    assert_eq!(
        run(
            merge_into(S),
            merge_policy(1),
            vec![between(1, 2), vec![SelectedValue::Other, SelectedValue::Vertex(VId(2))]]
        ),
        Fault::InputSchema { row: 1, column: 0 }
    );
    assert_eq!(
        run(merge_into(S), merge_policy(0), vec![between(1, 2)]),
        Fault::CreationLimit { limit: 0, observed: 1 }
    );
    let strict = GraphEdgeMergePolicy {
        query: QueryPolicy { max_work_units: 0, ..ample() },
        max_created_edges: 1,
    };
    assert!(matches!(
        run(merge_into(S), strict, vec![between(1, 2)]),
        Fault::Evaluator { dimension: GlaLimitDimension::WorkUnits, limit: 0, .. }
    ));
}

fn upsert_into(relation: RelationId) -> GraphEdgeUpsert {
    GraphEdgeUpsert {
        merge: merge_into(relation),
        on_match: vec![(Q, number(7))],
        on_create: vec![(Q, number(8)), (P, number(9))],
    }
}

fn upsert_policy(max_actions: u64) -> GraphEdgeUpsertPolicy {
    GraphEdgeUpsertPolicy { merge: merge_policy(1), max_actions }
}

#[test]
fn an_edge_upsert_runs_the_selected_branch_alone() {
    for (relation, branch, effects, props) in [
        (R, GraphEdgeUpsertBranch::Match, 1, vec![(Q, number(7))]),
        (S, GraphEdgeUpsertBranch::Create, 2, vec![(P, number(9)), (Q, number(8))]),
    ] {
        let mut db = pair();
        let mut txn = WriteTxn::begin(&db).unwrap();
        let (stats, outcome) = txn
            .execute_graph_edge_upsert_governed(
                &db,
                &upsert_into(relation),
                upsert_policy(2),
                &mut chosen(vec![between(1, 2)]),
                &mut free(),
            )
            .unwrap();
        assert_eq!((stats.branch, stats.action_effects), (branch, effects));
        let eid = match outcome {
            GraphEdgeMergeOutcome::Matched(eid) | GraphEdgeMergeOutcome::Created(eid) => eid,
            GraphEdgeMergeOutcome::NoInput => panic!("no input"),
        };
        commit(&mut txn, &mut db).unwrap();
        assert_eq!(edge(&db, eid).unwrap().props, props);
    }
    let db = pair();
    let mut txn = WriteTxn::begin(&db).unwrap();
    let (stats, outcome) = txn
        .execute_graph_edge_upsert_governed(
            &db,
            &upsert_into(S),
            upsert_policy(0),
            &mut chosen(vec![]),
            &mut free(),
        )
        .unwrap();
    assert_eq!(outcome, GraphEdgeMergeOutcome::NoInput);
    assert_eq!((stats.branch, stats.action_effects), (GraphEdgeUpsertBranch::NoInput, 0));
}

#[test]
fn a_refused_upsert_restores_the_staged_prefix() {
    let db = pair();
    let mut txn = WriteTxn::begin(&db).unwrap();
    let mut prefix = WriteBatch::new(R);
    prefix.set_vertex_property(VId(1), P, Some(number(11)));
    write(&mut txn, &db, vec![prefix]).unwrap();
    let staged = txn.staged.len();
    let prepared = format!("{:?}", txn.prepared);
    let fault = txn
        .execute_graph_edge_upsert_governed(
            &db,
            &upsert_into(R),
            upsert_policy(1),
            &mut chosen(vec![between(2, 1)]),
            &mut free(),
        )
        .unwrap_err();
    assert_eq!(fault, Fault::ActionLimit { limit: 1, observed: 2 });
    assert_eq!(txn.staged.len(), staged);
    assert_eq!(format!("{:?}", txn.prepared), prepared);
    assert_eq!(txn.state, EmbeddedTxnState::Active);
}

#[test]
fn autocommitted_edge_statements_publish_read_close_or_abort() {
    let mut db = pair();
    let before = db.frontier().unwrap();
    let ((_, outcome), completion) = db
        .execute_graph_edge_merge_autocommit_governed(
            &merge_into(S),
            merge_policy(1),
            &mut chosen(vec![between(1, 2)]),
            &mut reports(Publication::Durable),
            &mut free(),
        )
        .unwrap_or_else(|fault| panic!("{fault:?}"));
    assert_eq!(outcome, GraphEdgeMergeOutcome::Created(EId(1001)));
    assert_eq!(committed(completion).0, before.0 + 1);
    let ((_, outcome), completion) = db
        .execute_graph_edge_upsert_autocommit_governed(
            &upsert_into(S),
            upsert_policy(2),
            &mut chosen(vec![]),
            &mut reports(Publication::Durable),
            &mut free(),
        )
        .unwrap_or_else(|fault| panic!("{fault:?}"));
    assert_eq!(outcome, GraphEdgeMergeOutcome::NoInput);
    assert!(matches!(completion, EmbeddedTxnCompletion::ReadClosed { .. }));
    let refused = db.execute_graph_edge_merge_autocommit_governed(
        &merge_into(R),
        merge_policy(0),
        &mut chosen(vec![between(2, 1)]),
        &mut reports(Publication::Durable),
        &mut free(),
    );
    assert_eq!(refused.err(), Some(Fault::CreationLimit { limit: 0, observed: 1 }));
    assert_eq!(db.frontier().unwrap().0, before.0 + 1);
    // A publication that leaves nothing behind is the statement's own error.
    let lost = WriteTxnError::Interrupted(9);
    let report = Publication::Failed { error: lost, fence: Fence::Clear };
    let refused = db.execute_graph_edge_merge_autocommit_governed(
        &merge_into(R),
        merge_policy(1),
        &mut chosen(vec![between(2, 1)]),
        &mut reports(report),
        &mut Session::new(Native { issued: 2000, ..Native::new() }, Metering::Free),
    );
    assert_eq!(refused.err(), Some(Fault::Source(lost)));
    assert_eq!(db.frontier().unwrap().0, before.0 + 1);
    db.state = DatabaseState::CommitOutcomeUnknown { published_frontier: before };
    let fenced = db.execute_graph_edge_merge_autocommit_governed(
        &merge_into(R),
        merge_policy(0),
        &mut chosen(vec![]),
        &mut reports(Publication::Durable),
        &mut free(),
    );
    assert_eq!(fenced.err(), Some(Fault::Source(WriteTxnError::Fenced(db.state))));
    // An upsert tells its own errors from those of its MERGE.
    let fenced = db.execute_graph_edge_upsert_autocommit_governed(
        &upsert_into(R),
        upsert_policy(2),
        &mut chosen(vec![]),
        &mut reports(Publication::Durable),
        &mut free(),
    );
    assert_eq!(fenced.err(), Some(Fault::Staging(WriteTxnError::Fenced(db.state))));
}

#[test]
fn a_template_that_creates_an_edge_while_it_is_there_is_malformed() {
    let db = pair();
    let mut txn = WriteTxn::begin(&db).unwrap();
    let fresh = || {
        let mut batch = WriteBatch::new(R);
        batch.add_edge(EId(50), VId(1), VId(2), vec![]);
        vec![batch]
    };
    let mut session = Session::new(Native { repeats: true, ..Native::new() }, Metering::Free);
    let refused = txn.write_ordered(&db, fresh(), &mut session);
    assert_eq!(refused.err(), Some(WriteTxnError::Write(WriteError::MalformedTemplate)));
    assert!(txn.prepared.is_none() && txn.staged.is_empty());
    txn.write_ordered(&db, fresh(), &mut free()).unwrap();
    assert_eq!(txn.neighbours(&db, VId(1), R).unwrap(), vec![VId(2)]);
    assert_eq!(txn.in_neighbours(&db, VId(2), R).unwrap(), vec![VId(1)]);
}

#[test]
fn a_foreign_transaction_is_the_upserts_own_refusal() {
    let db = pair();
    let mut other = pair();
    other.owner = db.owner + 1;
    let mut txn = WriteTxn::begin(&db).unwrap();
    let fault = txn
        .execute_graph_edge_upsert_governed(
            &other,
            &upsert_into(S),
            upsert_policy(2),
            &mut chosen(vec![]),
            &mut free(),
        )
        .unwrap_err();
    assert_eq!(fault, Fault::Staging(WriteTxnError::WrongDatabase));
    let fault = txn
        .execute_graph_edge_merge_governed(
            &other,
            &merge_into(S),
            merge_policy(1),
            &mut chosen(vec![]),
            &mut free(),
        )
        .unwrap_err();
    assert_eq!(fault, Fault::Source(WriteTxnError::WrongDatabase));
}

/// An executor with one answer.
struct Fixed {
    returning: bool,
    rows: Vec<PendingRow>,
    fault: Option<Fault>,
}

impl Executor<u64> for Fixed {
    fn execute(
        &mut self,
        statements: &Vec<Prepared>,
        returning: bool,
        transaction: &WriteTxn,
        database: &Database,
    ) -> Executed<u64> {
        assert_eq!((statements[0].statement.id, returning), (5, self.returning));
        assert_eq!(transaction.basis, database.snapshot_frontier());
        let mut batch = WriteBatch::new(R);
        let count = self.rows.len() as u64;
        for row in self.rows.drain(..) {
            batch.row(row);
        }
        let batches = if count == 0 { vec![] } else { vec![batch] };
        Executed {
            observed: nothing(),
            effects: match self.fault {
                Some(fault) => Err(fault),
                None => Ok((batches, count)),
            },
        }
    }
}

fn nothing() -> Observations {
    Observations {
        elements: vec![],
        expansions: vec![],
        labels: vec![],
        vertices: false,
        edges: false,
    }
}

fn fixed(
    returning: bool,
    rows: Vec<PendingRow>,
    fault: Option<Fault>,
) -> ExecutorRecord<u64, Fixed> {
    ExecutorRecord::new(Fixed { returning, rows, fault })
}

fn prepared_five() -> Statement {
    let policy = QueryPolicy {
        max_work_units: 100,
        max_scratch_entries: 100,
        max_snapshot_records: None,
        max_result_rows: None,
        signed: false,
    };
    Statement { id: 5, reads_edges: false, policy, max_vertices: 1, max_edges: 1 }
}

#[test]
fn autocommitted_statements_conclude_what_their_executor_answers() {
    let mut db = pair();
    let before = db.frontier().unwrap();
    let set = |to: i64| PendingRow::SetProperty { vid: VId(1), key: P, value: Some(number(to)) };
    let form = prepared_five();
    let durable = || reports(Publication::Durable);
    let (count, completion) = db
        .execute_graph_mutation_returning_autocommit_governed(
            form,
            &mut fixed(true, vec![set(4)], None),
            &mut durable(),
            &mut free(),
        )
        .unwrap_or_else(|fault| panic!("{fault:?}"));
    assert_eq!(count, 1);
    assert_eq!(committed(completion).0, before.0 + 1);
    assert_eq!(vertex(&db, VId(1)).unwrap().props, vec![(P, number(4))]);
    let (count, completion) = db
        .execute_graph_mutation_autocommit_governed(
            form,
            &mut fixed(false, vec![set(7)], None),
            &mut durable(),
            &mut free(),
        )
        .unwrap_or_else(|fault| panic!("{fault:?}"));
    assert_eq!((count, committed(completion).0), (1, before.0 + 2));
    let (count, completion) = db
        .execute_graph_insert_returning_autocommit_governed(
            false,
            form,
            &mut fixed(true, vec![set(8)], None),
            &mut durable(),
            &mut free(),
        )
        .unwrap_or_else(|fault| panic!("{fault:?}"));
    assert_eq!((count, committed(completion).0), (1, before.0 + 3));
    let program = vec![Prepared { kind: StatementKind::Mutation, statement: form }];
    let (count, completion) = db
        .execute_graph_write_program_returning_autocommit_governed(
            &program,
            &mut fixed(true, vec![set(9)], None),
            &mut durable(),
            &mut free(),
        )
        .unwrap_or_else(|fault| panic!("{fault:?}"));
    assert_eq!((count, committed(completion).0), (1, before.0 + 4));
    assert_eq!(vertex(&db, VId(1)).unwrap().props, vec![(P, number(9))]);
    // Nothing selected: nothing published.
    let (count, completion) = db
        .execute_graph_delete_autocommit_governed(
            form,
            &mut fixed(false, vec![], None),
            &mut durable(),
            &mut free(),
        )
        .unwrap_or_else(|fault| panic!("{fault:?}"));
    assert_eq!(count, 0);
    assert!(matches!(completion, EmbeddedTxnCompletion::ReadClosed { .. }));
    // A refused execution, and a staging that the evaluator refuses.
    let refused = db.execute_graph_insert_autocommit_governed(
        true,
        form,
        &mut fixed(false, vec![set(5)], Some(Fault::Allocation(3))),
        &mut durable(),
        &mut free(),
    );
    assert_eq!(refused.err(), Some(Fault::Allocation(3)));
    let missing = PendingRow::DeleteVertex { vid: VId(9) };
    let refused = db.execute_graph_delete_returning_autocommit_governed(
        form,
        &mut fixed(true, vec![missing], None),
        &mut durable(),
        &mut free(),
    );
    let error = WriteTxnError::Write(WriteError::Evaluation(4));
    assert_eq!(refused.err(), Some(Fault::Source(error)));
    assert_eq!(db.frontier().unwrap().0, before.0 + 4);
    // An ambiguous publication fences the handle. Begin and completion are a program's
    // preflight and an upsert's staging.
    let lost = WriteTxnError::Interrupted(9);
    let report = Publication::Failed { error: lost, fence: Fence::Unknown };
    let refused = db.execute_graph_vertex_upsert_autocommit_governed(
        form,
        &mut fixed(false, vec![set(6)], None),
        &mut reports(report),
        &mut free(),
    );
    assert_eq!(refused.err(), Some(Fault::Staging(lost)));
    let fenced = WriteTxnError::Fenced(db.state);
    assert!(matches!(db.state, DatabaseState::CommitOutcomeUnknown { .. }));
    let program = vec![Prepared { kind: StatementKind::Mutation, statement: form }];
    let refused = db.execute_graph_write_program_autocommit_governed(
        &program,
        &mut fixed(false, vec![], None),
        &mut durable(),
        &mut free(),
    );
    assert_eq!(refused.err(), Some(Fault::Preflight(fenced)));
    let refused = db.execute_graph_vertex_upsert_autocommit_governed(
        form,
        &mut fixed(false, vec![], None),
        &mut durable(),
        &mut free(),
    );
    assert_eq!(refused.err(), Some(Fault::Staging(fenced)));
    let refused = db.execute_graph_vertex_merge_autocommit_governed(
        form,
        &mut fixed(false, vec![], None),
        &mut durable(),
        &mut free(),
    );
    assert_eq!(refused.err(), Some(Fault::Source(fenced)));
}

#[test]
fn queries_bind_evaluate_and_certify_their_basis() {
    let db = pair();
    let mut txn = WriteTxn::begin(&db).unwrap();
    let mut session = free();
    let source = "MATCH (n:L) RETURN n".to_string();
    assert_eq!(txn.execute_gql(&db, &source, &mut session), Ok(vec![VId(1), VId(2)]));
    let plan = BoundPlan { relation: None, digest: 1 };
    let certificate = GqlPlanCertificate { plan, basis: txn.basis };
    assert_eq!(
        txn.execute_gql_certified(&db, &source, &mut session),
        Ok((vec![VId(1), VId(2)], certificate))
    );
    assert_eq!(
        txn.execute_prepared_gql_certified(&db, &plan, &mut session),
        Ok((vec![VId(1), VId(2)], certificate))
    );
    assert_eq!(
        txn.execute_prepared_gql(&db, &plan, &mut session),
        Ok(vec![VId(1), VId(2)])
    );
    assert_eq!(txn.gql_plan_certificate(&source, &mut session), Ok(certificate));
    assert_eq!(txn.prepared_gql_plan_certificate(&plan), Ok(certificate));
    for (source, error) in [
        ("MATCH (n:Unknown) RETURN n", GqlError::Bind(7)),
        ("MATCH", GqlError::Parse(3)),
    ] {
        let source = source.to_string();
        assert_eq!(
            txn.execute_gql(&db, &source, &mut session),
            Err(WriteTxnError::Gql(error))
        );
        assert_eq!(
            txn.gql_plan_certificate(&source, &mut session),
            Err(WriteTxnError::Gql(error))
        );
    }
}

#[test]
fn a_query_makes_its_transaction_depend_on_what_it_matched() {
    let mut db = pair();
    let mut txn = WriteTxn::begin(&db).unwrap();
    txn.execute_gql(&db, &"MATCH (n:L) RETURN n".to_string(), &mut free()).unwrap();
    let mut concurrent = WriteBatch::new(R);
    concurrent.set_vertex_property(VId(2), P, Some(number(21)));
    let at = seed(&mut db, concurrent);
    let error = finish(&mut txn, &mut db).unwrap_err();
    assert_eq!(
        error,
        WriteTxnError::Write(WriteError::FirstCommitterWins {
            law: Law::Read,
            detail: ConflictDetail::Dependency {
                element: ElementId::Vertex(VId(2)),
                committed_at: at,
                basis: CommitSeq(at.0 - 1),
            },
        })
    );
    assert_eq!(txn.state, EmbeddedTxnState::Aborted);
}

/// An evaluator with given answers.
struct Evaluator {
    admission: Vec<GlaExecutionEvent>,
    summary: Option<Result<QueryExecution, Fault>>,
    set: Option<SetRun>,
    asked: Vec<&'static str>,
}

fn looked(id: u128) -> Observations {
    Observations { elements: vec![ElementId::Vertex(VId(id))], ..nothing() }
}

impl GraphEvaluator for Evaluator {
    fn source(&mut self, _transaction: &WriteTxn, _database: &Database) -> AggregateSource {
        self.asked.push("source");
        AggregateSource { admission: self.admission.clone(), observed: looked(1) }
    }

    fn summarize(
        &mut self,
        transaction: &WriteTxn,
        _database: &Database,
        _policy: QueryPolicy,
        used: QueryStats,
    ) -> Result<QueryExecution, Fault> {
        self.asked.push("summary");
        assert!(transaction.read_set.contains(ElementId::Vertex(VId(1))));
        assert_eq!(used.work_units, self.admission.len() as u64);
        self.summary.take().unwrap()
    }

    fn combine(
        &mut self,
        _transaction: &WriteTxn,
        _database: &Database,
        _policy: QueryPolicy,
    ) -> SetRun {
        self.asked.push("set");
        self.set.take().unwrap()
    }
}

fn evaluating(
    admission: Vec<GlaExecutionEvent>,
    summary: Option<Result<QueryExecution, Fault>>,
    set: Option<SetRun>,
) -> EvaluatorRecord<Evaluator> {
    EvaluatorRecord::new(Evaluator { admission, summary, set, asked: vec![] })
}

#[test]
fn aggregates_and_set_queries_keep_observations_of_failed_evaluations() {
    let db = pair();
    for evaluated in [
        Ok(QueryExecution { rows: vec![1], stats: used(2, 1) }),
        Err(Fault::InvalidSourceShape),
    ] {
        let expected = match &evaluated {
            Ok(execution) => Ok((execution.rows.clone(), execution.stats.work_units + 1)),
            Err(fault) => Err(*fault),
        };
        let mut txn = WriteTxn::begin(&db).unwrap();
        let mut evaluator = evaluating(vec![GlaExecutionEvent::Work], Some(evaluated), None);
        let result = txn
            .execute_graph_aggregate_governed(&db, &mut evaluator, ample(), &mut free())
            .map(|e| (e.rows, e.stats.work_units));
        assert_eq!(result, expected);
        assert_eq!(evaluator.evaluator().asked, vec!["source", "summary"]);
        assert!(txn.read_set.contains(ElementId::Vertex(VId(1))));
    }
    let mut txn = WriteTxn::begin(&db).unwrap();
    let run = SetRun {
        operands: vec![looked(1), looked(2)],
        evaluated: Err(Fault::InvalidSourceStatistics),
    };
    let mut evaluator = evaluating(vec![], None, Some(run));
    assert_eq!(
        txn.execute_graph_set_governed(&db, &mut evaluator, ample()).err(),
        Some(Fault::InvalidSourceStatistics)
    );
    for id in [1, 2] {
        assert!(txn.read_set.contains(ElementId::Vertex(VId(id))));
    }
    let other = Database::open_memory(2, 7);
    let mut unasked = evaluating(vec![], None, None);
    assert_eq!(
        txn.execute_graph_set_governed(&other, &mut unasked, ample()).err(),
        Some(Fault::Source(WriteTxnError::WrongDatabase))
    );
    assert_eq!(
        txn.execute_graph_aggregate_governed(&other, &mut unasked, ample(), &mut free()).err(),
        Some(Fault::Source(WriteTxnError::WrongDatabase))
    );
    assert!(unasked.evaluator().asked.is_empty());
    // An admission beyond the allowance ends before the summary.
    let tight = QueryPolicy { max_work_units: 1, ..ample() };
    let mut dear = evaluating(vec![GlaExecutionEvent::Work, GlaExecutionEvent::Work], None, None);
    let refused = txn.execute_graph_aggregate_governed(&db, &mut dear, tight, &mut free());
    assert!(refused.is_err());
    assert_eq!(dear.evaluator().asked, vec!["source"]);
}

#[test]
fn a_refused_merge_asks_for_no_pairs() {
    let db = pair();
    let other = Database::open_memory(2, 7);
    let mut txn = WriteTxn::begin(&db).unwrap();
    let mut selector = chosen(vec![]);
    let refused = txn.execute_graph_edge_merge_governed(
        &other,
        &merge_into(S),
        merge_policy(1),
        &mut selector,
        &mut free(),
    );
    assert_eq!(refused.err(), Some(Fault::Source(WriteTxnError::WrongDatabase)));
    assert_eq!(selector.selector().asked, 0);
    let (_, outcome) = txn
        .execute_graph_edge_merge_governed(
            &db,
            &merge_into(S),
            merge_policy(1),
            &mut selector,
            &mut free(),
        )
        .unwrap();
    assert_eq!(outcome, GraphEdgeMergeOutcome::NoInput);
    assert_eq!(selector.selector().asked, 1);
    assert!(txn.read_set.contains(ElementId::Vertex(VId(77))));
    let failed = txn.execute_graph_edge_merge_governed(
        &db,
        &merge_into(S),
        merge_policy(1),
        &mut selector,
        &mut free(),
    );
    assert_eq!(failed.err(), Some(Fault::InvalidSourceShape));
}

#[test]
fn identities_stand_above_every_committed_creation() {
    let mut db = pair();
    let mut state = IdentityState { frontier: CommitSeq(0), vertex: 0, edge: 0 };
    let mut issue = |db: &Database, kind| db.allocate_identity(&mut state, kind, &mut free());
    assert_eq!(issue(&db, IdentityKind::Vertex), Ok(ElementId::Vertex(VId(3))));
    assert_eq!(issue(&db, IdentityKind::Edge), Ok(ElementId::Edge(EId(12))));
    let mut batch = WriteBatch::new(R);
    batch.create_vertex(VId(40), vec![], vec![]);
    seed(&mut db, batch);
    let mut batch = WriteBatch::new(R);
    batch.delete_vertex(VId(40));
    seed(&mut db, batch);
    // A deleted identity is not issued again.
    assert_eq!(issue(&db, IdentityKind::Vertex), Ok(ElementId::Vertex(VId(41))));
    let mut spent = IdentityState { frontier: db.snapshot_frontier(), vertex: u128::MAX, edge: 5 };
    assert_eq!(
        db.allocate_identity(&mut spent, IdentityKind::Vertex, &mut free()),
        Err(WriteTxnError::IdentityExhausted)
    );
    assert_eq!(
        db.allocate_identity(&mut spent, IdentityKind::Edge, &mut free()),
        Ok(ElementId::Edge(EId(6)))
    );
    let txn = WriteTxn::begin(&db).unwrap();
    let mut batch = WriteBatch::new(R);
    batch.create_vertex(VId(60), vec![], vec![]);
    let live = seed(&mut db, batch);
    assert_eq!(
        txn.allocate_identity(&db, &mut spent, IdentityKind::Edge, &mut free()),
        Err(WriteTxnError::SnapshotAdvanced { pinned: CommitSeq(live.0 - 1), live })
    );
}

/// A codec that counts what it is asked.
struct Codec {
    rows: Vec<VId>,
    limit: Option<u64>,
    unreproduced: bool,
    asked: Vec<&'static str>,
    authority: Option<String>,
}

/// What an audit answers for.
fn named(authority: Authority<'_>) -> String {
    match authority {
        Authority::Database { database } => format!("database {}", database.owner),
        Authority::View { view } => format!("view {} at {}", view.owner, view.snapshot.0),
        Authority::Overlay { transaction, database } => format!(
            "overlay of {} over {} at {}",
            transaction.staged.len(),
            database.owner,
            transaction.basis.0
        ),
    }
}

impl EvidenceCodec for Codec {
    fn preflight(
        &mut self,
        _staged: bool,
        bytes: &Vec<u8>,
        limits: GqlEvidenceLimits,
    ) -> Result<(), u64> {
        self.asked.push("preflight");
        match limits {
            GqlEvidenceLimits::Custom { max_bytes, .. } if bytes.len() as u64 > max_bytes => Err(1),
            _ => match self.limit {
                Some(code) => Err(code),
                None => Ok(()),
            },
        }
    }

    fn audit(
        &mut self,
        authority: Authority<'_>,
        _query: u64,
        _bytes: &Vec<u8>,
    ) -> Result<Artifact, u64> {
        self.asked.push("audit");
        self.authority = Some(named(authority));
        if self.unreproduced {
            Err(2)
        } else {
            Ok(Artifact { rows: self.rows.clone() })
        }
    }

    fn decode(&mut self, checkpoint: &Vec<u8>) -> Result<GqlEvidencePageToken, u64> {
        self.asked.push("decode");
        match checkpoint.first() {
            Some(offset) => Ok(GqlEvidencePageToken { result: 1, offset: *offset as u64 }),
            None => Err(3),
        }
    }

    fn page(
        &mut self,
        artifact: &Artifact,
        page_size: u64,
        after: Option<&Vec<u8>>,
    ) -> Result<GqlEvidencePage, GqlEvidencePageError> {
        self.asked.push("page");
        let start = after.map_or(0, |token| token[0] as usize);
        if start > artifact.rows.len() {
            return Err(GqlEvidencePageError::Rejected(4));
        }
        let end = artifact.rows.len().min(start + page_size as usize);
        let next = if end < artifact.rows.len() { Some(vec![end as u8]) } else { None };
        Ok(GqlEvidencePage { rows: artifact.rows[start..end].to_vec(), next })
    }

    fn resume(
        &mut self,
        artifact: &Artifact,
        token: GqlEvidencePageToken,
    ) -> Result<u64, GqlEvidencePageError> {
        self.asked.push("resume");
        if token.offset as usize <= artifact.rows.len() {
            Ok(token.offset)
        } else {
            Err(GqlEvidencePageError::Rejected(4))
        }
    }
}

fn codec() -> Codec {
    Codec {
        rows: vec![VId(1), VId(2), VId(3)],
        limit: None,
        unreproduced: false,
        asked: vec![],
        authority: None,
    }
}

fn auditor() -> Auditor<Codec> {
    Auditor::new(codec())
}

#[test]
fn evidence_is_admitted_before_it_is_replayed() {
    let db = pair();
    let bytes: Vec<u8> = vec![0; 8];
    let mut audit = auditor();
    let artifact = db.audit_untrusted_prepared_query_artifact(7, &bytes, &mut audit);
    assert_eq!(artifact.map(|artifact| artifact.rows), Ok(vec![VId(1), VId(2), VId(3)]));
    assert_eq!(audit.codec().asked, vec!["preflight", "audit"]);
    assert_eq!(audit.codec().authority, Some(format!("database {}", db.owner)));
    let limits = GqlEvidenceLimits::Custom { max_bytes: 7, max_rows: 3 };
    let mut audit = auditor();
    let refused = db.audit_prepared_query_artifact_with_limits(7, &bytes, limits, &mut audit);
    assert_eq!(refused.err(), Some(GqlEvidenceLimitedAuditError::Limit(1)));
    assert_eq!(audit.codec().asked, vec!["preflight"]);
    let mut audit = Auditor::new(Codec { unreproduced: true, ..codec() });
    let refused = db.audit_untrusted_prepared_query_artifact(7, &bytes, &mut audit);
    assert_eq!(refused.err(), Some(GqlEvidenceLimitedAuditError::Audit(2)));
}

#[test]
fn staged_evidence_answers_for_its_overlay() {
    let db = pair();
    let mut txn = WriteTxn::begin(&db).unwrap();
    let mut staged = WriteBatch::new(RelationId(1));
    staged.create_vertex(VId(70), vec![], vec![]);
    write(&mut txn, &db, vec![staged]).unwrap();
    let bytes: Vec<u8> = vec![0; 8];
    let overlay = Some(format!("overlay of 1 over {} at {}", db.owner, txn.basis.0));
    let mut audit = auditor();
    let artifact =
        txn.audit_untrusted_prepared_query_overlay_artifact(&db, 7, &bytes, &mut audit);
    assert_eq!(artifact.map(|artifact| artifact.rows), Ok(vec![VId(1), VId(2), VId(3)]));
    assert_eq!(audit.codec().asked, vec!["preflight", "audit"]);
    assert_eq!(audit.codec().authority, overlay);
    let mut audit = auditor();
    let page = txn
        .audit_untrusted_prepared_query_overlay_artifact_page(
            &db,
            7,
            &bytes,
            2,
            Some(&vec![1]),
            &mut audit,
        )
        .unwrap_or_else(|error| panic!("{error:?}"));
    assert_eq!((page.rows, page.next), (vec![VId(2), VId(3)], None));
    assert_eq!(audit.codec().asked, vec!["preflight", "audit", "page"]);
    assert_eq!(audit.codec().authority, overlay);
    let mut audit = auditor();
    let cursor = txn
        .resume_untrusted_prepared_query_overlay_artifact_cursor(
            &db,
            7,
            &bytes,
            &vec![2],
            &mut audit,
        )
        .unwrap_or_else(|error| panic!("{error:?}"));
    assert_eq!((cursor.offset, cursor.artifact.rows.len()), (2, 3));
    assert_eq!(audit.codec().asked, vec!["decode", "preflight", "audit", "resume"]);
    assert_eq!(audit.codec().authority, overlay);
}

#[test]
fn staged_batches_of_one_relation_are_joined_in_order() {
    let batch = |ids: &[u128]| {
        let mut batch = WriteBatch::new(R);
        for vid in ids {
            batch.create_vertex(VId(*vid), vec![], vec![]);
        }
        batch
    };
    assert!(WriteTxn::combined_batch(&vec![]).is_none());
    let joined = WriteTxn::combined_batch(&vec![batch(&[5, 3]), batch(&[]), batch(&[4])]).unwrap();
    assert_eq!(joined.relation, R);
    let created: Vec<VId> = joined
        .rows
        .iter()
        .map(|row| match row {
            PendingRow::Vertex { vid, .. } => *vid,
            _ => panic!("not a creation"),
        })
        .collect();
    assert_eq!(created, vec![VId(5), VId(3), VId(4)]);
}

#[test]
fn evidence_pages_and_cursors_answer_for_their_snapshot() {
    let db = pair();
    let view = EmbeddedReadView { owner: db.owner, snapshot: db.snapshot_frontier() };
    let mut txn = WriteTxn::begin(&db).unwrap();
    let mut staged = WriteBatch::new(RelationId(1));
    staged.create_vertex(VId(70), vec![], vec![]);
    write(&mut txn, &db, vec![staged]).unwrap();
    let bytes: Vec<u8> = vec![0; 8];
    let mut audit = auditor();
    let page = view
        .audit_untrusted_prepared_query_artifact_page(7, &bytes, 2, None, &mut audit)
        .unwrap_or_else(|error| panic!("{error:?}"));
    assert_eq!((page.rows, page.next.clone()), (vec![VId(1), VId(2)], Some(vec![2])));
    assert_eq!(
        audit.codec().authority,
        Some(format!("view {} at {}", db.owner, view.snapshot.0))
    );
    let rest = view
        .audit_untrusted_prepared_query_artifact_page(7, &bytes, 2, page.next.as_ref(), &mut audit)
        .unwrap_or_else(|error| panic!("{error:?}"));
    assert_eq!((rest.rows, rest.next), (vec![VId(3)], None));
    let mut audit = auditor();
    let cursor = txn
        .open_untrusted_prepared_query_overlay_artifact_cursor(&db, 7, &bytes, &mut audit)
        .unwrap_or_else(|error| panic!("{error:?}"));
    assert_eq!((cursor.offset, cursor.artifact.rows.len()), (0, 3));
    assert_eq!(
        audit.codec().authority,
        Some(format!("overlay of 1 over {} at {}", db.owner, txn.basis.0))
    );
    let resumed = db
        .resume_untrusted_prepared_query_artifact_cursor(7, &bytes, &vec![2], &mut audit)
        .unwrap_or_else(|error| panic!("{error:?}"));
    assert_eq!(resumed.offset, 2);
    let rejected =
        db.resume_untrusted_prepared_query_artifact_cursor(7, &bytes, &vec![9], &mut audit);
    assert_eq!(
        rejected.err(),
        Some(GqlEvidencePageAuditError::Page(GqlEvidencePageError::Rejected(4)))
    );
    // A checkpoint that does not decode reaches no artifact.
    let mut audit = auditor();
    let broken = db.resume_untrusted_prepared_query_artifact_cursor(7, &bytes, &vec![], &mut audit);
    assert_eq!(
        broken.err(),
        Some(GqlEvidencePageAuditError::Page(GqlEvidencePageError::TokenDecode(3)))
    );
    assert_eq!(audit.codec().asked, vec!["decode"]);
}

#[test]
fn the_published_law_names_are_fixed() {
    assert_eq!(Law::Read.code(), "FG-LAW-FCW-READ-01");
    assert_eq!(Law::Write.code(), "FG-LAW-FCW-01");
}

#[test]
fn snapshots_outside_the_retained_history_are_refused() {
    let db = pair();
    let tip = db.snapshot_frontier();
    let beyond = CommitSeq(tip.0 + 1);
    assert_eq!(
        db.vertex_at(VId(1), beyond).map(|row| row.is_some()),
        Err(WriteTxnError::History(HistoryError::Unpublished { requested: beyond, frontier: tip }))
    );
    let retained = Database { base_seq: CommitSeq(5), ..Database::open_memory(3, 7) };
    let retained =
        Database { state: DatabaseState::Healthy { published_frontier: CommitSeq(5) }, ..retained };
    assert_eq!(
        retained.edge_at(EId(1), CommitSeq(4)).map(|row| row.is_some()),
        Err(WriteTxnError::History(HistoryError::Retired {
            requested: CommitSeq(4),
            retained: CommitSeq(5),
        }))
    );
}

#[test]
fn a_snapshot_stays_as_it_was_when_more_is_published() {
    let mut db = pair();
    let at = db.snapshot_frontier();
    let before = format!("{:?}", (db.vertex_at(VId(1), at), db.edge_at(EId(11), at)));
    let mut batch = WriteBatch::new(R);
    batch.delete_vertex(VId(1));
    seed(&mut db, batch);
    assert!(vertex(&db, VId(1)).is_none() && edge(&db, EId(11)).is_none());
    assert_eq!(format!("{:?}", (db.vertex_at(VId(1), at), db.edge_at(EId(11), at))), before);
}

#[test]
fn identity_sets_and_maps_stay_sorted_without_duplicates() {
    let mut set = IdSet::new();
    assert!(set.is_empty());
    for (id, fresh) in [(5, true), (1, true), (5, false), (3, true)] {
        assert_eq!(set.insert(id), fresh);
    }
    assert_eq!((0..set.len()).map(|i| set.at(i)).collect::<Vec<_>>(), vec![1, 3, 5]);
    assert!(set.is_wf() && set.contains(3) && !set.contains(4));
    set.clear();
    assert!(set.is_empty());
    let mut map: IdMap<u64> = IdMap::new();
    for (key, value) in [(9, 1), (2, 2), (9, 3)] {
        map.insert(key, value);
    }
    assert_eq!((map.get(9), map.get(2), map.get(5)), (Some(&3), Some(&2), None));
    assert_eq!(map.remove(9), Some(3));
    assert_eq!(map.remove(9), None);
    assert_eq!(map.into_values(), vec![2]);
    let mut elements = ElementSet::new();
    elements.insert(ElementId::Vertex(VId(1)));
    elements.insert(ElementId::Edge(EId(1)));
    elements.insert(ElementId::Vertex(VId(1)));
    assert_eq!(elements.len(), 2);
    assert!(elements.contains(ElementId::Edge(EId(1))));
    assert!(!elements.contains(ElementId::Edge(EId(2))));
    elements.clear();
    assert!(elements.is_empty());
}

#[test]
fn templates_are_canonical_or_refused() {
    let edge = |props| DeltaRow::CreateEdge {
        eid: EId(1),
        src: VId(1),
        relation: R,
        dst: VId(2),
        props,
    };
    let template = |rows| Template {
        coordinates: vec![Coordinate { relation: Some(R), rows }],
    };
    assert!(template(vec![edge(vec![(P, number(1)), (Q, number(2))])]).is_wf());
    assert!(!template(vec![edge(vec![(Q, number(2)), (P, number(1))])]).is_wf());
    let retired = |edges| DeltaRow::DeleteVertex { vid: VId(1), sorted_retired_incident_edges: edges };
    assert!(template(vec![retired(vec![EId(1), EId(2)])]).is_wf());
    assert!(!template(vec![retired(vec![EId(2), EId(1)])]).is_wf());
}

#[test]
fn scopes_admit_what_every_clause_admits() {
    let scope = Predicates {
        label_clauses: vec![vec![L, LabelId(3)], vec![LabelId(2)]],
        relations: Some(vec![R]),
        properties: None,
        denied_properties: vec![Q],
        can_read: true,
    };
    assert!(scope.allows_vertex(&vec![L, LabelId(2)]));
    assert!(!scope.allows_vertex(&vec![L]));
    assert!(!scope.allows_vertex(&vec![LabelId(2)]));
    assert!(scope.allows_relation(R) && !scope.allows_relation(S));
    assert!(scope.allows_property(P) && !scope.allows_property(Q));
    assert!(!scope.sees_all_properties() && !scope.sees_all_incidence());
    let open = Predicates {
        label_clauses: vec![],
        relations: None,
        properties: None,
        denied_properties: vec![],
        can_read: true,
    };
    assert!(open.allows_vertex(&vec![]) && open.allows_relation(S) && open.allows_property(Q));
    assert!(open.sees_all_properties() && open.sees_all_fields() && open.sees_all_incidence());
}

/// A publisher with one report.
struct Reports(Publication);

fn reports(report: Publication) -> PublisherRecord<Reports> {
    PublisherRecord::new(Reports(report))
}

impl Publisher for Reports {
    fn publish(&mut self, prepared: &PreparedWrite, commit_seq: CommitSeq) -> Publication {
        assert!(prepared.template.is_wf());
        assert!(commit_seq.0 > prepared.basis.0);
        self.0
    }
}

fn renamed(db: &Database, to: i64) -> WriteTxn {
    let mut txn = WriteTxn::begin(db).unwrap();
    let mut batch = WriteBatch::new(R);
    batch.set_vertex_property(VId(1), P, Some(number(to)));
    write(&mut txn, db, vec![batch]).unwrap();
    txn
}

#[test]
fn a_durable_publication_commits_and_a_failed_one_is_judged_by_its_fence() {
    let mut db = pair();
    let before = db.frontier().unwrap();
    let seq = CommitSeq(before.0 + 1);
    let mut txn = renamed(&db, 30);
    let durable = &mut PublisherRecord::new(Reports(Publication::Durable));
    assert_eq!(txn.commit(&mut db, durable, &mut free()), Ok(seq));
    assert_eq!(
        txn.state,
        EmbeddedTxnState::Completed(EmbeddedTxnCompletion::WriteCommitted { commit_seq: seq })
    );
    assert!(txn.pin.is_none());
    assert_eq!(vertex(&db, VId(1)).unwrap().props, vec![(P, number(30))]);
    let error = WriteTxnError::Interrupted(9);
    for (fence, outcome, state) in [
        (Fence::Clear, EmbeddedTxnState::Aborted, db.state),
        (
            Fence::Unknown,
            EmbeddedTxnState::CommitOutcomeUnknown { published_frontier: seq },
            DatabaseState::CommitOutcomeUnknown { published_frontier: seq },
        ),
        (
            Fence::Recovery,
            EmbeddedTxnState::CommittedNeedsRecovery { commit_seq: CommitSeq(seq.0 + 1) },
            DatabaseState::NeedsAuthoritativeRecovery { durable_frontier: CommitSeq(seq.0 + 1) },
        ),
    ] {
        db.state = DatabaseState::Healthy { published_frontier: seq };
        let mut txn = renamed(&db, 40);
        let failing = &mut PublisherRecord::new(Reports(Publication::Failed { error, fence }));
        assert_eq!(txn.finish(&mut db, failing, &mut free()), Err(error));
        assert_eq!(txn.state, outcome);
        assert_eq!(db.state, state);
        assert!(txn.pin.is_none() && txn.staged.is_empty());
        assert_eq!(db.snapshot_frontier(), seq);
        assert_eq!(vertex(&db, VId(1)).unwrap().props, vec![(P, number(30))]);
    }
}

#[test]
fn finishing_a_read_reports_how_far_it_validated() {
    let mut db = pair();
    let basis = db.frontier().unwrap();
    let mut txn = WriteTxn::begin(&db).unwrap();
    assert!(txn.edge(&db, EId(11)).unwrap().is_some());
    let mut batch = WriteBatch::new(S);
    batch.create_vertex(VId(3), vec![], vec![]);
    let live = seed(&mut db, batch);
    let unused = &mut PublisherRecord::new(Reports(Publication::Durable));
    assert_eq!(
        txn.finish(&mut db, unused, &mut free()),
        Ok(EmbeddedTxnCompletion::ReadClosed { snapshot_seq: basis, validated_through: live })
    );
    assert_eq!(txn.finish(&mut db, unused, &mut free()), Err(WriteTxnError::Finished));
    let mut empty = WriteTxn::begin(&db).unwrap();
    assert_eq!(empty.commit(&mut db, unused, &mut free()), Err(WriteTxnError::NoPreparedWrite));
    assert_eq!(empty.state, EmbeddedTxnState::Aborted);
    let mut foreign = WriteTxn::begin(&Database::open_memory(9, 7)).unwrap();
    assert_eq!(foreign.commit(&mut db, unused, &mut free()), Err(WriteTxnError::WrongDatabase));
    assert_eq!(foreign.state, EmbeddedTxnState::Active);
}

#[test]
fn a_commit_after_independent_ones_shows_what_the_transaction_saw() {
    let mut db = pair();
    let mut txn = renamed(&db, 30);
    let mut batch = WriteBatch::new(R);
    batch.set_vertex_property(VId(2), P, Some(number(99)));
    seed(&mut db, batch);
    let durable = &mut PublisherRecord::new(Reports(Publication::Durable));
    let seq = txn.commit(&mut db, durable, &mut free()).unwrap();
    assert_eq!(db.vertex_at(VId(1), seq).unwrap().unwrap().props, vec![(P, number(30))]);
    assert_eq!(db.vertex_at(VId(2), seq).unwrap().unwrap().props, vec![(P, number(99))]);
}

#[test]
fn an_append_commits_on_a_later_frontier() {
    let mut db = pair();
    let mut txn = WriteTxn::begin(&db).unwrap();
    let mut append = WriteBatch::new(R);
    append.create_vertex(VId(5), vec![L], vec![]);
    append.add_edge(EId(15), VId(1), VId(5), vec![]);
    write(&mut txn, &db, vec![append]).unwrap();
    let mut batch = WriteBatch::new(R);
    batch.create_vertex(VId(6), vec![], vec![]);
    let live = seed(&mut db, batch);
    let durable = &mut PublisherRecord::new(Reports(Publication::Durable));
    assert_eq!(
        txn.commit_append_only_rebased(&mut db, 100, durable, &mut free()),
        Ok(CommitSeq(live.0 + 1))
    );
    assert!(vertex(&db, VId(5)).is_some() && edge(&db, EId(15)).is_some());
    let mut update = renamed(&db, 7);
    assert_eq!(
        update.commit_append_only_rebased(&mut db, 100, durable, &mut free()),
        Err(WriteTxnError::AppendRebaseIneligible)
    );
    assert_eq!(update.state, EmbeddedTxnState::Aborted);
}

#[test]
fn a_selection_reads_the_overlay_only_where_something_is_staged() {
    let db = pair();
    let mut txn = WriteTxn::begin(&db).unwrap();
    let mut session = Session::new(Native::new(), Metering::SignedQuery);
    assert!(matches!(
        txn.select_overlay(&db, true, &mut session),
        Ok(SelectionSource::Committed)
    ));
    assert!(!txn.scanned_vertices && !txn.scanned_edges);
    let mut batch = WriteBatch::new(R);
    batch.create_vertex(VId(3), vec![], vec![]);
    write(&mut txn, &db, vec![batch]).unwrap();
    for reads_edges in [false, true] {
        match txn.select_overlay(&db, reads_edges, &mut session) {
            Ok(SelectionSource::Overlay { vertices, edges }) => {
                assert_eq!(vertices.iter().map(|row| row.vid.0).collect::<Vec<_>>(), vec![1, 2, 3]);
                assert_eq!(edges.len(), if reads_edges { 1 } else { 0 });
            }
            _ => panic!("the overlay was not read"),
        }
        assert_eq!((txn.scanned_vertices, txn.scanned_edges), (true, reads_edges));
    }
    let other = Database::open_memory(2, 7);
    assert!(matches!(
        txn.select_overlay(&other, false, &mut session),
        Err(Fault::Source(WriteTxnError::WrongDatabase))
    ));
}

#[test]
fn controls_report_authorization_and_cancellation_and_nothing_else() {
    let denial = Denial::Expired;
    assert_eq!(
        query_control(WriteTxnError::Authorization(denial)),
        ControlError::Authorization(denial)
    );
    assert_eq!(query_control(WriteTxnError::Interrupted(4)), ControlError::Interrupted(4));
    assert_eq!(
        query_control(WriteTxnError::Finished),
        ControlError::Authorization(Denial::ScopeDenied)
    );
    for (error, fault) in [
        (SelectionError::Native(Fault::IdentityKind), Fault::IdentityKind),
        (
            SelectionError::Control(ControlError::Authorization(denial)),
            Fault::Interrupted(WriteTxnError::Authorization(denial)),
        ),
        (
            SelectionError::Control(ControlError::Interrupted(4)),
            Fault::Interrupted(WriteTxnError::Interrupted(4)),
        ),
        (SelectionError::Other, Fault::Source(WriteTxnError::AuthorizedMutationRefused)),
    ] {
        assert_eq!(selection_error(error), fault);
    }
    let mut session = Session::new(Native::new(), Metering::SignedQuery);
    session.host().budget.borrow_mut().nodes = 1;
    assert_eq!(pay_node(&mut session), Ok(()));
    assert_eq!(
        pay_node(&mut session),
        Err(WriteTxnError::Authorization(Denial::LimitExceeded(LimitDimension::Nodes)))
    );
}

#[test]
fn native_merge_keeps_negative_match_conflict_witnesses_after_collector_extraction() {
    let mut db = open();
    let mut transaction = WriteTxn::begin(&db).unwrap();
    // The unmatched MERGE scanned the label, and created the vertex that it missed.
    transaction.retain(&Observations { labels: vec![L], ..nothing() });
    let mut creation = WriteBatch::new(R);
    creation.create_vertex(VId(1), vec![L], vec![(P, number(7))]);
    write(&mut transaction, &db, vec![creation]).unwrap();
    let mut competing = WriteBatch::new(R);
    competing.create_vertex(VId(2), vec![L], vec![(P, number(7))]);
    seed(&mut db, competing);
    let frontier = db.frontier().unwrap();
    assert!(matches!(
        commit(&mut transaction, &mut db),
        Err(WriteTxnError::Write(WriteError::FirstCommitterWins { law: Law::Read, .. }))
    ));
    assert_eq!(db.frontier().unwrap(), frontier);
    assert!(vertex(&db, VId(1)).is_none());
    assert!(vertex(&db, VId(2)).is_some());
    assert!(transaction.pin.is_none());
}
