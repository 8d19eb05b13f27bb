//! Transactions over their pinned snapshots: reads, staging, completion, rebase and
//! search.

use fgdb::adjacency::Anchor;
use fgdb::batch::{PendingRow, WriteBatch, WriteMismatchPolicy};
use fgdb::beacon::{BeaconError, ReadError, SearchLimits};
use fgdb::beacon_corpus::Corpus;
use fgdb::beacon_entry::SearchOptions;
use fgdb::beacon_overlay::Overlay;
use fgdb::database::Database;
use fgdb::engine::{EngineRecord, Expansion, Hit, SearchEngine, Worked};
use fgdb::errors::{DatabaseState, Denial, Law, LimitDimension, WriteError, WriteTxnError};
use fgdb::finish::{CompletionStep, TxnCompletionGuard};
use fgdb::graph::{AdjacencyEntry, DeltaRow, EdgeRecord, VertexRow};
use fgdb::ids::{
    CanonicalScalar, CommitSeq, EId, ElementId, LabelId, PropertyKeyId, RelationId, VId,
};
use fgdb::idset::{ElementSet, IdSet};
use fgdb::queries::{BindError, BoundPlan, Observations, QueryAnswer};
use fgdb::session::{EdgeImage, Fields, Host, IdentityKind, Metering, Session};
use fgdb::template::{Coordinate, Template};
use fgdb::txn::{EmbeddedTxnCompletion, EmbeddedTxnState, PreparedWrite, Savepoint, WriteTxn};
use std::cell::RefCell;
use std::collections::{BTreeMap, BTreeSet};
use std::rc::Rc;

/// What a capability has left, and whether it is still live.
struct Budget {
    seen: u64,
    stop: Option<u64>,
    refusal: WriteTxnError,
    work: u64,
    nodes: u64,
    rows: u64,
}

impl Budget {
    fn poll(&mut self) -> Result<(), WriteTxnError> {
        self.seen += 1;
        match self.stop {
            Some(stop) if self.seen >= stop => Err(self.refusal),
            _ => Ok(()),
        }
    }

    fn charge(&mut self, dimension: LimitDimension, amount: u64) -> Result<(), Denial> {
        let left = match dimension {
            LimitDimension::Work => &mut self.work,
            LimitDimension::Nodes => &mut self.nodes,
            LimitDimension::Rows => &mut self.rows,
        };
        if *left < amount {
            return Err(Denial::LimitExceeded(dimension));
        }
        *left -= amount;
        Ok(())
    }
}

/// The process around a transaction: cancellation, allowances, a scope, the native
/// evaluator and an allocator.
struct Native {
    budget: Rc<RefCell<Budget>>,
    labels: Option<Vec<LabelId>>,
    relations: Option<Vec<RelationId>>,
    properties: Option<Vec<PropertyKeyId>>,
    issued: u128,
    repeats: bool,
}

impl Native {
    fn new() -> Native {
        Native {
            budget: Rc::new(RefCell::new(Budget {
                seen: 0,
                stop: None,
                refusal: WriteTxnError::NoPreparedWrite,
                work: u64::MAX,
                nodes: u64::MAX,
                rows: u64::MAX,
            })),
            labels: None,
            relations: None,
            properties: None,
            issued: 1000,
            repeats: false,
        }
    }

    fn sees(&self, row: &VertexRow) -> bool {
        match &self.labels {
            None => true,
            Some(labels) => row.labels.iter().any(|label| labels.contains(label)),
        }
    }

    fn reaches(&self, image: &EdgeImage) -> bool {
        let relation = match &self.relations {
            None => true,
            Some(relations) => relations.contains(&image.edge.entry.relation),
        };
        relation && self.sees(&image.src) && self.sees(&image.dst)
    }

    fn writes(&self, properties: &IdSet) -> bool {
        match &self.properties {
            None => true,
            Some(keys) => {
                (0..properties.len()).all(|i| keys.iter().any(|key| key.0 as u128 == properties.at(i)))
            }
        }
    }
}

/// Evaluate all intents in order, and keep their canonical net effects.
fn evaluate(database: &Database, staged: &[WriteBatch]) -> Result<PreparedWrite, WriteError> {
    let basis = database.snapshot_frontier();
    let vertex_map = database.vertex_map_at(basis).unwrap();
    let edge_map = database.edge_map_at(basis).unwrap();
    let mut vertices: BTreeMap<u128, VertexRow> = BTreeMap::new();
    for i in 0..vertex_map.len() {
        vertices.insert(vertex_map.key_at(i), vertex_map.value_at(i).copy());
    }
    let mut edges: BTreeMap<u128, EdgeRecord> = BTreeMap::new();
    for i in 0..edge_map.len() {
        edges.insert(edge_map.key_at(i), edge_map.value_at(i).copy());
    }
    let mut cascaded: BTreeMap<u128, BTreeSet<u128>> = BTreeMap::new();
    let mut ordinal: u64 = 0;
    for batch in staged {
        for row in &batch.rows {
            ordinal += 1;
            match row {
                PendingRow::Vertex { vid, labels, props, ensure } => {
                    if vertices.contains_key(&vid.0) {
                        if !ensure {
                            return Err(WriteError::Evaluation(1));
                        }
                    } else {
                        let mut labels = labels.clone();
                        labels.sort_by_key(|label| label.0);
                        let mut props = props.clone();
                        props.sort_by_key(|prop| prop.0 .0);
                        vertices.insert(
                            vid.0,
                            VertexRow { vid: *vid, birth_ordinal: ordinal, labels, props },
                        );
                    }
                }
                PendingRow::Edge { eid, src, dst, props, ensure } => {
                    if !vertices.contains_key(&src.0) || !vertices.contains_key(&dst.0) {
                        return Err(WriteError::Evaluation(2));
                    }
                    let present = edges.values().any(|edge| {
                        edge.entry.src == *src
                            && edge.entry.dst == *dst
                            && edge.entry.relation == batch.relation
                    });
                    if *ensure && present {
                        continue;
                    }
                    if edges.contains_key(&eid.0) {
                        return Err(WriteError::Evaluation(3));
                    }
                    let mut props = props.clone();
                    props.sort_by_key(|prop| prop.0 .0);
                    edges.insert(
                        eid.0,
                        EdgeRecord {
                            entry: AdjacencyEntry {
                                src: *src,
                                relation: batch.relation,
                                dst: *dst,
                                eid: *eid,
                                created_at: basis,
                                retired_at: None,
                            },
                            props,
                        },
                    );
                }
                PendingRow::DeleteVertex { vid } => {
                    if vertices.remove(&vid.0).is_none() {
                        return Err(WriteError::Evaluation(4));
                    }
                    let incident: Vec<u128> = edges
                        .values()
                        .filter(|edge| edge.entry.src == *vid || edge.entry.dst == *vid)
                        .map(|edge| edge.entry.eid.0)
                        .collect();
                    for eid in incident {
                        edges.remove(&eid);
                        cascaded.entry(vid.0).or_default().insert(eid);
                    }
                }
                PendingRow::DeleteEdge { eid, if_present } => {
                    if edges.remove(&eid.0).is_none() && !if_present {
                        return Err(WriteError::Evaluation(5));
                    }
                }
                PendingRow::SetLabel { vid, label, present } => match vertices.get_mut(&vid.0) {
                    None => return Err(WriteError::Evaluation(6)),
                    Some(row) => {
                        row.labels.retain(|held| held != label);
                        if *present {
                            row.labels.push(*label);
                        }
                        row.labels.sort_by_key(|label| label.0);
                    }
                },
                PendingRow::SetProperty { vid, key, value } => match vertices.get_mut(&vid.0) {
                    None => return Err(WriteError::Evaluation(7)),
                    Some(row) => assign(&mut row.props, *key, *value),
                },
                PendingRow::SetEdgeProperty { eid, key, value } => match edges.get_mut(&eid.0) {
                    None => return Err(WriteError::Evaluation(8)),
                    Some(row) => assign(&mut row.props, *key, *value),
                },
                PendingRow::CompareAndSet { elem, key, expected, value, policy } => {
                    let props = match elem {
                        ElementId::Vertex(vid) => vertices.get_mut(&vid.0).map(|row| &mut row.props),
                        ElementId::Edge(eid) => edges.get_mut(&eid.0).map(|row| &mut row.props),
                    };
                    match props {
                        None => return Err(WriteError::Evaluation(9)),
                        Some(props) => {
                            let held = props.iter().find(|prop| prop.0 == *key).map(|prop| prop.1);
                            if held == *expected {
                                assign(props, *key, Some(*value));
                            } else if *policy == WriteMismatchPolicy::AbortWrite {
                                return Err(WriteError::Evaluation(10));
                            }
                        }
                    }
                }
            }
        }
    }
    let mut shared: Vec<DeltaRow> = Vec::new();
    let mut slices: BTreeMap<u64, Vec<DeltaRow>> = BTreeMap::new();
    for i in 0..vertex_map.len() {
        let before = vertex_map.value_at(i);
        match vertices.get(&before.vid.0) {
            None => {
                let retired = (0..edge_map.len())
                    .map(|e| edge_map.key_at(e))
                    .filter(|eid| cascaded.get(&before.vid.0).is_some_and(|set| set.contains(eid)))
                    .map(EId)
                    .collect();
                shared.push(DeltaRow::DeleteVertex {
                    vid: before.vid,
                    sorted_retired_incident_edges: retired,
                });
            }
            Some(after) => {
                for label in before.labels.iter().filter(|label| !after.labels.contains(label)) {
                    shared.push(DeltaRow::LabelMembership {
                        vid: before.vid,
                        label: *label,
                        after: false,
                    });
                }
                for label in after.labels.iter().filter(|label| !before.labels.contains(label)) {
                    shared.push(DeltaRow::LabelMembership {
                        vid: before.vid,
                        label: *label,
                        after: true,
                    });
                }
                let elem = ElementId::Vertex(before.vid);
                shared.extend(changed_properties(elem, &before.props, &after.props));
            }
        }
    }
    for (key, after) in &vertices {
        if vertex_map.get(*key).is_none() {
            shared.push(DeltaRow::CreateVertex {
                vid: after.vid,
                birth_ordinal: after.birth_ordinal,
                labels: after.labels.clone(),
                props: after.props.clone(),
            });
        }
    }
    for i in 0..edge_map.len() {
        let before = edge_map.value_at(i);
        let slice = slices.entry(before.entry.relation.0).or_default();
        match edges.get(&before.entry.eid.0) {
            None => {
                if !cascaded.values().any(|set| set.contains(&before.entry.eid.0)) {
                    slice.push(DeltaRow::DeleteEdge { eid: before.entry.eid });
                }
            }
            Some(after) => {
                let elem = ElementId::Edge(before.entry.eid);
                slice.extend(changed_properties(elem, &before.props, &after.props));
            }
        }
    }
    for (key, after) in &edges {
        if edge_map.get(*key).is_none() {
            slices.entry(after.entry.relation.0).or_default().push(DeltaRow::CreateEdge {
                eid: after.entry.eid,
                src: after.entry.src,
                relation: after.entry.relation,
                dst: after.entry.dst,
                props: after.props.clone(),
            });
        }
    }
    let mut coordinates = vec![Coordinate { relation: None, rows: shared }];
    for (relation, rows) in slices {
        coordinates.push(Coordinate { relation: Some(RelationId(relation)), rows });
    }
    coordinates.retain(|coordinate| !coordinate.rows.is_empty());
    Ok(PreparedWrite { template: Template { coordinates }, basis, owner: database.owner })
}

fn assign(
    props: &mut Vec<(PropertyKeyId, CanonicalScalar)>,
    key: PropertyKeyId,
    value: Option<CanonicalScalar>,
) {
    props.retain(|prop| prop.0 != key);
    if let Some(value) = value {
        props.push((key, value));
    }
    props.sort_by_key(|prop| prop.0 .0);
}

fn changed_properties(
    elem: ElementId,
    before: &[(PropertyKeyId, CanonicalScalar)],
    after: &[(PropertyKeyId, CanonicalScalar)],
) -> Vec<DeltaRow> {
    let mut rows = Vec::new();
    for (key, _) in before {
        if !after.iter().any(|prop| prop.0 == *key) {
            rows.push(DeltaRow::Property { elem, property: *key, after: None });
        }
    }
    for prop in after {
        if !before.contains(prop) {
            rows.push(DeltaRow::Property { elem, property: prop.0, after: Some(prop.1) });
        }
    }
    rows
}

impl Host for Native {
    fn poll(&mut self) -> Result<(), WriteTxnError> {
        self.budget.borrow_mut().poll()
    }

    fn poll_query(&mut self) -> Result<(), WriteTxnError> {
        self.poll()
    }

    fn charge(&mut self, dimension: LimitDimension, amount: u64) -> Result<(), Denial> {
        self.budget.borrow_mut().charge(dimension, amount)
    }

    fn check_vertex(
        &mut self,
        before: Option<&VertexRow>,
        after: Option<&VertexRow>,
        fields: &Fields,
    ) -> Result<(), Denial> {
        self.charge(LimitDimension::Nodes, 1)?;
        let admitted = before.map_or(true, |row| self.sees(row))
            && after.map_or(true, |row| self.sees(row))
            && self.writes(&fields.properties);
        if admitted {
            Ok(())
        } else {
            Err(Denial::ScopeDenied)
        }
    }

    fn check_edge(
        &mut self,
        before: Option<&EdgeImage>,
        after: Option<&EdgeImage>,
        properties: &IdSet,
    ) -> Result<(), Denial> {
        self.charge(LimitDimension::Nodes, 1)?;
        let admitted = before.map_or(true, |image| self.reaches(image))
            && after.map_or(true, |image| self.reaches(image))
            && self.writes(properties);
        if admitted {
            Ok(())
        } else {
            Err(Denial::ScopeDenied)
        }
    }

    fn prepare(
        &mut self,
        database: &Database,
        staged: &Vec<WriteBatch>,
    ) -> Result<PreparedWrite, WriteTxnError> {
        let mut write = crate::evaluate(database, staged).map_err(WriteTxnError::Write)?;
        if self.repeats {
            let again = write.template.copy();
            write.template.coordinates.extend(again.coordinates);
        }
        Ok(write)
    }

    fn allocate(&mut self, kind: IdentityKind, _ordinal: u64) -> Result<ElementId, WriteTxnError> {
        self.issued += 1;
        Ok(match kind {
            IdentityKind::Vertex => ElementId::Vertex(VId(self.issued)),
            IdentityKind::Edge => ElementId::Edge(EId(self.issued)),
        })
    }

    fn bind(&mut self, source: &String) -> Result<BoundPlan, BindError> {
        match source.as_str() {
            "MATCH (n:L) RETURN n" => Ok(BoundPlan { relation: None, digest: 1 }),
            "MATCH (n:Unknown) RETURN n" => Err(BindError::Unbound(7)),
            _ => Err(BindError::Parse(3)),
        }
    }

    fn evaluate(
        &mut self,
        transaction: &WriteTxn,
        database: &Database,
        _plan: &BoundPlan,
    ) -> QueryAnswer {
        let map = database.vertex_map_at(transaction.basis).unwrap();
        let rows: Vec<VId> = (0..map.len())
            .filter(|i| map.value_at(*i).labels.contains(&LabelId(1)))
            .map(|i| VId(map.key_at(i)))
            .collect();
        QueryAnswer {
            observed: Observations {
                elements: rows.iter().map(|vid| ElementId::Vertex(*vid)).collect(),
                expansions: vec![],
                labels: vec![LabelId(1)],
                vertices: false,
                edges: false,
            },
            rows: Ok(rows),
        }
    }
}

/// Intents, by name.
trait Intents {
    fn row(&mut self, row: PendingRow) -> &mut Self;

    fn create_vertex(
        &mut self,
        vid: VId,
        labels: Vec<LabelId>,
        props: Vec<(PropertyKeyId, CanonicalScalar)>,
    ) -> &mut Self {
        self.row(PendingRow::Vertex { vid, labels, props, ensure: false })
    }

    fn ensure_vertex(
        &mut self,
        vid: VId,
        labels: Vec<LabelId>,
        props: Vec<(PropertyKeyId, CanonicalScalar)>,
    ) -> &mut Self {
        self.row(PendingRow::Vertex { vid, labels, props, ensure: true })
    }

    fn add_edge(
        &mut self,
        eid: EId,
        src: VId,
        dst: VId,
        props: Vec<(PropertyKeyId, CanonicalScalar)>,
    ) -> &mut Self {
        self.row(PendingRow::Edge { eid, src, dst, props, ensure: false })
    }

    fn ensure_edge_by_triple(
        &mut self,
        eid: EId,
        src: VId,
        dst: VId,
        props: Vec<(PropertyKeyId, CanonicalScalar)>,
    ) -> &mut Self {
        self.row(PendingRow::Edge { eid, src, dst, props, ensure: true })
    }

    fn delete_vertex(&mut self, vid: VId) -> &mut Self {
        self.row(PendingRow::DeleteVertex { vid })
    }

    fn delete_edge(&mut self, eid: EId) -> &mut Self {
        self.row(PendingRow::DeleteEdge { eid, if_present: false })
    }

    fn delete_edge_if_present(&mut self, eid: EId) -> &mut Self {
        self.row(PendingRow::DeleteEdge { eid, if_present: true })
    }

    fn set_vertex_label(&mut self, vid: VId, label: LabelId, present: bool) -> &mut Self {
        self.row(PendingRow::SetLabel { vid, label, present })
    }

    fn set_vertex_property(
        &mut self,
        vid: VId,
        key: PropertyKeyId,
        value: Option<CanonicalScalar>,
    ) -> &mut Self {
        self.row(PendingRow::SetProperty { vid, key, value })
    }

    fn set_edge_property(
        &mut self,
        eid: EId,
        key: PropertyKeyId,
        value: Option<CanonicalScalar>,
    ) -> &mut Self {
        self.row(PendingRow::SetEdgeProperty { eid, key, value })
    }

    fn compare_and_set(
        &mut self,
        elem: ElementId,
        key: PropertyKeyId,
        expected: Option<CanonicalScalar>,
        value: CanonicalScalar,
        policy: WriteMismatchPolicy,
    ) -> &mut Self {
        self.row(PendingRow::CompareAndSet { elem, key, expected, value, policy })
    }
}

impl Intents for WriteBatch {
    fn row(&mut self, row: PendingRow) -> &mut Self {
        self.rows.push(row);
        self
    }
}

fn open() -> Database {
    Database::open_memory(1, 7)
}

fn free() -> Session<Native> {
    Session::new(Native::new(), Metering::Free)
}

/// Publish what a completion accepted.
fn publish(
    transaction: &mut WriteTxn,
    database: &mut Database,
    step: CompletionStep,
) -> Result<EmbeddedTxnCompletion, WriteTxnError> {
    match step {
        CompletionStep::Closed(completion) => Ok(completion),
        CompletionStep::Publish { prepared, guard } => {
            let seq = database.publish(prepared.template);
            transaction.settle(database, guard, Some(Ok(seq))).unwrap()
        }
    }
}

fn finish(
    transaction: &mut WriteTxn,
    database: &mut Database,
) -> Result<EmbeddedTxnCompletion, WriteTxnError> {
    let step = transaction.complete_controlled(database, false, &mut free())?;
    publish(transaction, database, step)
}

fn committed(completion: EmbeddedTxnCompletion) -> CommitSeq {
    match completion {
        EmbeddedTxnCompletion::WriteCommitted { commit_seq } => commit_seq,
        EmbeddedTxnCompletion::ReadClosed { .. } => panic!("nothing was written"),
    }
}

fn commit(transaction: &mut WriteTxn, database: &mut Database) -> Result<CommitSeq, WriteTxnError> {
    let step = transaction.complete_controlled(database, true, &mut free())?;
    publish(transaction, database, step).map(committed)
}

fn write(
    transaction: &mut WriteTxn,
    database: &Database,
    batches: Vec<WriteBatch>,
) -> Result<(), WriteTxnError> {
    transaction.write_ordered(database, batches, &mut free())
}

/// One whole transaction.
fn seed(database: &mut Database, batch: WriteBatch) -> CommitSeq {
    let mut transaction = WriteTxn::begin(database).unwrap();
    write(&mut transaction, database, vec![batch]).unwrap();
    commit(&mut transaction, database).unwrap()
}

fn vertex(database: &Database, vid: VId) -> Option<VertexRow> {
    database.vertex_at(vid, database.snapshot_frontier()).unwrap()
}

fn edge(database: &Database, eid: EId) -> Option<EdgeRecord> {
    database.edge_at(eid, database.snapshot_frontier()).unwrap()
}

fn number(value: i64) -> CanonicalScalar {
    CanonicalScalar::Int(value)
}

fn savepoint(transaction: &mut WriteTxn, name: &str) {
    let staged = transaction.staged.len();
    transaction.savepoints.push(Savepoint { name: String::from(name), staged });
}

fn rollback(transaction: &mut WriteTxn, database: &Database, name: &str) {
    let at = transaction.savepoints.iter().position(|mark| mark.name == name).unwrap();
    transaction.staged.truncate(transaction.savepoints[at].staged);
    transaction.savepoints.truncate(at + 1);
    transaction.prepared = if transaction.staged.is_empty() {
        None
    } else {
        Some(crate::evaluate(database, &transaction.staged).unwrap())
    };
}

fn members(set: &ElementSet) -> Vec<ElementId> {
    let mut found = Vec::new();
    for i in 0..set.vertices.len() {
        found.push(ElementId::Vertex(VId(set.vertices.at(i))));
    }
    for i in 0..set.edges.len() {
        found.push(ElementId::Edge(EId(set.edges.at(i))));
    }
    found
}

fn neighbours(database: &Database, src: VId, relation: RelationId) -> Vec<VId> {
    WriteTxn::begin(database).unwrap().neighbours(database, src, relation).unwrap()
}

fn in_neighbours(database: &Database, dst: VId, relation: RelationId) -> Vec<VId> {
    WriteTxn::begin(database).unwrap().in_neighbours(database, dst, relation).unwrap()
}

fn is_read_conflict<T>(result: &Result<T, WriteTxnError>) -> bool {
    matches!(
        result,
        Err(WriteTxnError::Write(WriteError::FirstCommitterWins { law: Law::Read, .. }))
    )
}

fn is_write_conflict<T>(result: &Result<T, WriteTxnError>) -> bool {
    matches!(
        result,
        Err(WriteTxnError::Write(WriteError::FirstCommitterWins { law: Law::Write, .. }))
    )
}

fn stopping(stop: u64) -> Session<Native> {
    let session = free();
    session.host().budget.borrow_mut().stop = Some(stop);
    session
}

#[test]
fn both_directions_match_committed_net_effects_and_relation_scope() {
    let mut db = open();
    let mut first = WriteBatch::new(RelationId(1));
    for vid in 1..=4 {
        first.create_vertex(VId(vid), vec![], vec![]);
    }
    for (eid, src, dst) in [(10, 1, 2), (11, 1, 2), (12, 2, 1), (13, 1, 1), (14, 3, 1), (15, 1, 3)] {
        first.add_edge(EId(eid), VId(src), VId(dst), vec![]);
    }
    seed(&mut db, first);
    let mut other_relation = WriteBatch::new(RelationId(2));
    other_relation.add_edge(EId(90), VId(1), VId(4), vec![]);
    seed(&mut db, other_relation);
    let mut txn = WriteTxn::begin(&db).unwrap();
    let mut changes = WriteBatch::new(RelationId(1));
    changes.ensure_edge_by_triple(EId(100), VId(1), VId(2), vec![]);
    changes.delete_edge(EId(10));
    changes.delete_edge(EId(11));
    changes.ensure_edge_by_triple(EId(101), VId(1), VId(2), vec![]);
    changes.add_edge(EId(102), VId(1), VId(4), vec![]);
    changes.delete_edge(EId(102));
    changes.delete_vertex(VId(3));
    changes.add_edge(EId(103), VId(4), VId(1), vec![]);
    changes.delete_edge_if_present(EId(999));
    write(&mut txn, &db, vec![changes]).unwrap();
    assert!(txn.edge(&db, EId(100)).unwrap().is_none());
    assert!(txn.edge(&db, EId(102)).unwrap().is_none());
    assert!(txn.edge(&db, EId(101)).unwrap().is_some());
    let outgoing = txn.neighbours(&db, VId(1), RelationId(1)).unwrap();
    let incoming = txn.in_neighbours(&db, VId(1), RelationId(1)).unwrap();
    assert_eq!(outgoing, vec![VId(1), VId(2)]);
    assert_eq!(incoming, vec![VId(1), VId(2), VId(4)]);
    assert_eq!(txn.neighbours(&db, VId(1), RelationId(2)).unwrap(), vec![VId(4)]);
    assert_eq!(txn.in_neighbours(&db, VId(4), RelationId(2)).unwrap(), vec![VId(1)]);
    commit(&mut txn, &mut db).unwrap();
    assert_eq!(neighbours(&db, VId(1), RelationId(1)), outgoing);
    assert_eq!(in_neighbours(&db, VId(1), RelationId(1)), incoming);
}

#[test]
fn parallel_edges_survive_partial_deletion_and_savepoint_rollback() {
    let mut db = open();
    let mut first = WriteBatch::new(RelationId(1));
    first.create_vertex(VId(1), vec![], vec![]);
    first.create_vertex(VId(2), vec![], vec![]);
    for eid in 10..266 {
        first.add_edge(EId(eid), VId(1), VId(2), vec![]);
    }
    seed(&mut db, first);
    let mut txn = WriteTxn::begin(&db).unwrap();
    let mut partial = WriteBatch::new(RelationId(1));
    for eid in 10..265 {
        partial.delete_edge(EId(eid));
    }
    write(&mut txn, &db, vec![partial]).unwrap();
    savepoint(&mut txn, "last-edge");
    assert_eq!(txn.neighbours(&db, VId(1), RelationId(1)).unwrap(), vec![VId(2)]);
    assert_eq!(txn.in_neighbours(&db, VId(2), RelationId(1)).unwrap(), vec![VId(1)]);
    let mut last = WriteBatch::new(RelationId(1));
    last.delete_edge(EId(265));
    write(&mut txn, &db, vec![last]).unwrap();
    assert!(txn.neighbours(&db, VId(1), RelationId(1)).unwrap().is_empty());
    assert!(txn.in_neighbours(&db, VId(2), RelationId(1)).unwrap().is_empty());
    rollback(&mut txn, &db, "last-edge");
    assert_eq!(txn.neighbours(&db, VId(1), RelationId(1)).unwrap(), vec![VId(2)]);
    assert_eq!(txn.in_neighbours(&db, VId(2), RelationId(1)).unwrap(), vec![VId(1)]);
    commit(&mut txn, &mut db).unwrap();
    assert_eq!(neighbours(&db, VId(1), RelationId(1)), vec![VId(2)]);
}

#[test]
fn empty_adjacency_reads_detect_phantoms_without_global_scan_witnesses() {
    for incoming in [false, true] {
        for touches_anchor in [false, true] {
            let mut db = open();
            let mut first = WriteBatch::new(RelationId(1));
            for vid in 1..=4 {
                first.create_vertex(VId(vid), vec![], vec![]);
            }
            seed(&mut db, first);
            let mut txn = WriteTxn::begin(&db).unwrap();
            let anchor = Anchor { vertex: VId(1), relation: RelationId(1), incoming };
            assert!(txn.adjacency_neighbours(&db, anchor).unwrap().is_empty());
            assert!(!txn.scanned_edges);
            assert_eq!(members(&txn.read_set), vec![ElementId::Vertex(VId(1))]);
            let (src, dst) = if touches_anchor {
                if incoming {
                    (2, 1)
                } else {
                    (1, 2)
                }
            } else {
                (3, 4)
            };
            let mut winner = WriteBatch::new(RelationId(1));
            winner.add_edge(EId(20), VId(src), VId(dst), vec![]);
            seed(&mut db, winner);
            // Reads still answer the pinned basis, not the winner.
            assert!(txn.adjacency_neighbours(&db, anchor).unwrap().is_empty());
            let completion = finish(&mut txn, &mut db);
            if touches_anchor {
                assert!(is_read_conflict(&completion));
            } else {
                assert!(matches!(completion, Ok(EmbeddedTxnCompletion::ReadClosed { .. })));
            }
        }
    }
}

fn assert_contents(actual: &EdgeRecord, expected: &EdgeRecord) {
    assert_eq!(actual.entry.eid, expected.entry.eid);
    assert_eq!(actual.entry.src, expected.entry.src);
    assert_eq!(actual.entry.dst, expected.entry.dst);
    assert_eq!(actual.entry.relation, expected.entry.relation);
    assert_eq!(actual.entry.retired_at, expected.entry.retired_at);
    assert_eq!(actual.props, expected.props);
}

#[test]
fn bulk_edge_overlay_matches_point_reads_and_committed_contents() {
    let mut db = open();
    let mut first = WriteBatch::new(RelationId(1));
    for vid in 1..=4 {
        first.create_vertex(VId(vid), vec![], vec![]);
    }
    for eid in (10..138).rev() {
        first.add_edge(EId(eid), VId(1), VId(2), vec![(PropertyKeyId(1), number(10))]);
    }
    first.add_edge(EId(500), VId(3), VId(4), vec![]);
    first.add_edge(EId(501), VId(4), VId(3), vec![]);
    first.add_edge(EId(502), VId(3), VId(3), vec![]);
    seed(&mut db, first);
    let mut other = WriteBatch::new(RelationId(2));
    other.add_edge(EId(900), VId(1), VId(4), vec![]);
    seed(&mut db, other);
    let mut txn = WriteTxn::begin(&db).unwrap();
    let mut changes = WriteBatch::new(RelationId(1));
    changes.ensure_edge_by_triple(EId(600), VId(1), VId(2), vec![]);
    for eid in 10..138 {
        match eid % 4 {
            0 => {
                changes.delete_edge(EId(eid));
            }
            1 => {
                changes.set_edge_property(EId(eid), PropertyKeyId(1), Some(number(20)));
                changes.set_edge_property(EId(eid), PropertyKeyId(2), Some(number(30)));
            }
            2 => {
                changes.set_edge_property(EId(eid), PropertyKeyId(1), None);
            }
            _ => {}
        }
    }
    for eid in (200..232).rev() {
        changes.add_edge(EId(eid), VId(2), VId(1), vec![]);
    }
    changes.add_edge(EId(700), VId(1), VId(4), vec![]);
    changes.delete_edge(EId(700));
    changes.delete_edge(EId(500));
    changes.delete_vertex(VId(3));
    changes.delete_edge_if_present(EId(999));
    write(&mut txn, &db, vec![changes]).unwrap();
    let rows = txn.edges(&db).unwrap();
    let expected_ids: Vec<EId> =
        (10..138).filter(|eid| eid % 4 != 0).chain(200..232).chain([900]).map(EId).collect();
    assert_eq!(rows.iter().map(|row| row.entry.eid).collect::<Vec<_>>(), expected_ids);
    for row in &rows {
        let point = txn.edge(&db, row.entry.eid).unwrap().unwrap();
        assert_contents(&point, row);
        assert_eq!(point.entry.created_at, row.entry.created_at);
        if row.entry.eid.0 < 138 {
            assert_eq!(row.entry.src, VId(1));
            assert_eq!(row.entry.dst, VId(2));
            assert_eq!(row.entry.relation, RelationId(1));
            match row.entry.eid.0 % 4 {
                1 => assert_eq!(
                    row.props,
                    vec![(PropertyKeyId(1), number(20)), (PropertyKeyId(2), number(30))]
                ),
                2 => assert!(row.props.is_empty()),
                3 => assert_eq!(row.props, vec![(PropertyKeyId(1), number(10))]),
                _ => panic!("deleted edge was materialized"),
            }
        } else if row.entry.eid != EId(900) {
            assert_eq!(row.entry.src, VId(2));
            assert_eq!(row.entry.dst, VId(1));
            assert_eq!(row.entry.created_at, txn.basis);
        }
    }
    for eid in [500, 501, 502, 600, 700, 999] {
        assert!(txn.read_set.contains(ElementId::Edge(EId(eid))));
        assert!(txn.edge(&db, EId(eid)).unwrap().is_none());
    }
    let committed_at = commit(&mut txn, &mut db).unwrap();
    let committed = db.edge_map_at(committed_at).unwrap();
    assert_eq!(committed.len(), rows.len());
    for row in rows {
        assert_contents(committed.get(row.entry.eid.0).unwrap(), &row);
    }
}

#[test]
fn bulk_edge_scan_retains_exact_point_dependencies_for_cascades_and_absences() {
    let mut db = open();
    let mut first = WriteBatch::new(RelationId(1));
    for vid in 1..=3 {
        first.create_vertex(VId(vid), vec![], vec![]);
    }
    first.add_edge(EId(10), VId(1), VId(2), vec![]);
    first.add_edge(EId(11), VId(3), VId(2), vec![]);
    seed(&mut db, first);
    let mut bulk = WriteTxn::begin(&db).unwrap();
    let mut points = WriteTxn::begin(&db).unwrap();
    savepoint(&mut bulk, "before");
    let mut changes = WriteBatch::new(RelationId(1));
    changes.delete_edge(EId(10));
    changes.delete_vertex(VId(2));
    changes.delete_edge_if_present(EId(999));
    write(&mut bulk, &db, vec![changes.copy()]).unwrap();
    write(&mut points, &db, vec![changes]).unwrap();
    assert!(bulk.read_set.is_empty());
    assert!(points.read_set.is_empty());
    assert!(bulk.edges(&db).unwrap().is_empty());
    for eid in [10, 11, 999] {
        assert!(points.edge(&db, EId(eid)).unwrap().is_none());
    }
    let expected = vec![
        ElementId::Vertex(VId(1)),
        ElementId::Vertex(VId(2)),
        ElementId::Vertex(VId(3)),
        ElementId::Edge(EId(10)),
        ElementId::Edge(EId(11)),
        ElementId::Edge(EId(999)),
    ];
    assert_eq!(members(&bulk.read_set), expected);
    assert_eq!(members(&points.read_set), expected);
    assert!(bulk.scanned_edges);
    assert!(!points.scanned_edges);
    points.abort();
    rollback(&mut bulk, &db, "before");
    assert_eq!(members(&bulk.read_set), expected);
    let mut winner = WriteBatch::new(RelationId(1));
    // No edge insertion: only the cascade target's retained point witness can
    // explain this read conflict after effects rewind.
    winner.set_vertex_property(VId(2), PropertyKeyId(1), Some(number(42)));
    seed(&mut db, winner);
    assert!(is_read_conflict(&finish(&mut bulk, &mut db)));
}

#[test]
fn bulk_edge_overlay_applies_every_atomic_relation_coordinate() {
    let mut db = open();
    let mut first = WriteBatch::new(RelationId(1));
    for vid in 1..=4 {
        first.create_vertex(VId(vid), vec![], vec![]);
    }
    first.add_edge(EId(10), VId(1), VId(2), vec![]);
    seed(&mut db, first);
    let mut second = WriteBatch::new(RelationId(2));
    second.add_edge(EId(20), VId(3), VId(4), vec![]);
    seed(&mut db, second);
    let mut txn = WriteTxn::begin(&db).unwrap();
    let mut first = WriteBatch::new(RelationId(1));
    first.delete_edge(EId(10));
    first.add_edge(EId(11), VId(2), VId(1), vec![(PropertyKeyId(1), number(1))]);
    let mut second = WriteBatch::new(RelationId(2));
    second.delete_edge(EId(20));
    second.add_edge(EId(21), VId(4), VId(3), vec![(PropertyKeyId(1), number(2))]);
    write(&mut txn, &db, vec![second, first]).unwrap();
    let rows = txn.edges(&db).unwrap();
    assert_eq!(
        rows.iter().map(|row| (row.entry.eid, row.entry.relation)).collect::<Vec<_>>(),
        vec![(EId(11), RelationId(1)), (EId(21), RelationId(2))]
    );
    for row in &rows {
        assert_contents(&txn.edge(&db, row.entry.eid).unwrap().unwrap(), row);
        assert_eq!(row.entry.created_at, txn.basis);
    }
    let seq = commit(&mut txn, &mut db).unwrap();
    for row in rows {
        let committed = db.edge_at(row.entry.eid, seq).unwrap().unwrap();
        assert_contents(&committed, &row);
    }
    assert!(db.edge_at(EId(10), seq).unwrap().is_none());
    assert!(db.edge_at(EId(20), seq).unwrap().is_none());
}

const P: PropertyKeyId = PropertyKeyId(1);

fn seeded(owner: u64) -> Database {
    let mut db = Database::open_memory(owner, 7);
    let mut first = WriteBatch::new(RelationId(1));
    for id in 1..=2 {
        first.create_vertex(VId(id), vec![], vec![(P, number(0))]);
    }
    first.add_edge(EId(10), VId(1), VId(2), vec![]);
    seed(&mut db, first);
    db
}

fn prefix() -> WriteBatch {
    let mut batch = WriteBatch::new(RelationId(9));
    batch.create_vertex(VId(5), vec![], vec![]);
    batch.add_edge(EId(50), VId(1), VId(5), vec![]);
    batch
}

fn suffix() -> WriteBatch {
    let mut batch = WriteBatch::new(RelationId(2));
    batch.set_vertex_property(VId(5), P, Some(number(7)));
    batch.add_edge(EId(60), VId(5), VId(2), vec![]);
    batch
}

fn write_bounded(
    txn: &mut WriteTxn,
    db: &Database,
    batches: Vec<WriteBatch>,
    limit: u64,
) -> Result<(), WriteTxnError> {
    txn.write_ordered_bounded(db, batches, limit, &mut free())
}

#[test]
fn complete_prefix_is_admitted_and_refusal_preserves_savepoint_and_births() {
    let mut db = seeded(1);
    let basis = db.frontier().unwrap();
    let mut txn = WriteTxn::begin(&db).unwrap();
    write_bounded(&mut txn, &db, vec![prefix()], 2).unwrap();
    savepoint(&mut txn, "prefix");
    let retained = txn.prepared.as_ref().unwrap().template.copy();
    let birth = txn.vertex(&db, VId(5)).unwrap().unwrap().birth_ordinal;
    for (limit, required) in [(2, 4), (4, 6), (5, 6)] {
        assert_eq!(
            write_bounded(&mut txn, &db, vec![suffix()], limit),
            Err(WriteTxnError::OrderedWriteBudgetExceeded { limit, required })
        );
        assert_eq!(txn.staged.len(), 1);
        assert!(txn.prepared.as_ref().unwrap().template.matches_template(&retained));
        assert_eq!(txn.savepoints.len(), 1);
        assert!(txn.pin.is_some());
        assert!(txn.vertex(&db, VId(5)).unwrap().unwrap().props.is_empty());
        assert_eq!(db.frontier().unwrap(), basis);
        assert!(vertex(&db, VId(5)).is_none());
    }
    write_bounded(&mut txn, &db, vec![suffix()], 6).unwrap();
    assert_eq!(txn.vertex(&db, VId(5)).unwrap().unwrap().birth_ordinal, birth);
    rollback(&mut txn, &db, "prefix");
    assert!(txn.prepared.as_ref().unwrap().template.matches_template(&retained));
    assert_eq!(txn.staged.len(), 1);
    write_bounded(&mut txn, &db, vec![suffix()], 6).unwrap();
    let seq = commit(&mut txn, &mut db).unwrap();
    assert_eq!(seq, CommitSeq(basis.0 + 1));
    assert_eq!(db.log.len() - db.delta_since(basis).unwrap(), 1);
    assert_eq!(vertex(&db, VId(5)).unwrap().props, vec![(P, number(7))]);
    assert_eq!(vertex(&db, VId(5)).unwrap().birth_ordinal, birth);
    assert!(edge(&db, EId(60)).is_some());
}

#[test]
fn refused_routing_observation_still_conflicts_after_savepoint_rollback() {
    let mut db = seeded(1);
    let mut txn = WriteTxn::begin(&db).unwrap();
    write_bounded(&mut txn, &db, vec![prefix()], 2).unwrap();
    savepoint(&mut txn, "prefix");
    let mut attempted = WriteBatch::new(RelationId(2));
    attempted.set_edge_property(EId(10), P, Some(number(9)));
    assert_eq!(
        write_bounded(&mut txn, &db, vec![attempted], 4),
        Err(WriteTxnError::OrderedWriteBudgetExceeded { limit: 4, required: 5 })
    );
    assert!(txn.read_set.contains(ElementId::Edge(EId(10))));
    rollback(&mut txn, &db, "prefix");
    let mut concurrent = WriteBatch::new(RelationId(1));
    concurrent.set_edge_property(EId(10), P, Some(number(6)));
    seed(&mut db, concurrent);
    assert!(is_read_conflict(&commit(&mut txn, &mut db)));
    assert!(vertex(&db, VId(5)).is_none());
    assert!(txn.pin.is_none());
}

#[test]
fn admitted_guard_failure_does_not_accept_the_suffix() {
    let mut db = seeded(1);
    let mut txn = WriteTxn::begin(&db).unwrap();
    write_bounded(&mut txn, &db, vec![prefix()], 2).unwrap();
    let retained = txn.prepared.as_ref().unwrap().template.copy();
    let mut bad = WriteBatch::new(RelationId(2));
    bad.compare_and_set(
        ElementId::Vertex(VId(1)),
        P,
        Some(number(999)),
        number(8),
        WriteMismatchPolicy::AbortWrite,
    );
    // Two vertex instructions replicated twice, plus one edge row.
    assert!(matches!(
        write_bounded(&mut txn, &db, vec![bad], 5),
        Err(WriteTxnError::Write(_))
    ));
    assert_eq!(txn.staged.len(), 1);
    assert!(txn.prepared.as_ref().unwrap().template.matches_template(&retained));
    assert!(txn.read_set.contains(ElementId::Vertex(VId(1))));
    commit(&mut txn, &mut db).unwrap();
    assert!(vertex(&db, VId(5)).is_some());
    assert_eq!(vertex(&db, VId(1)).unwrap().props, vec![(P, number(0))]);
}

#[test]
fn owner_and_terminal_state_precede_budget_and_input_admission() {
    let mut db = seeded(1);
    let foreign = seeded(2);
    let mut txn = WriteTxn::begin(&db).unwrap();
    assert_eq!(
        write_bounded(&mut txn, &foreign, vec![], 0),
        Err(WriteTxnError::WrongDatabase)
    );
    assert!(txn.pin.is_some());
    assert!(txn.read_set.is_empty());
    assert_eq!(
        write_bounded(&mut txn, &db, vec![], 0),
        Err(WriteTxnError::Write(WriteError::EmptyBatch))
    );
    finish(&mut txn, &mut db).unwrap();
    assert_eq!(
        write_bounded(&mut txn, &db, vec![prefix()], 0),
        Err(WriteTxnError::Finished)
    );
    assert!(txn.pin.is_none());
    assert!(txn.staged.is_empty());
}

const R: RelationId = RelationId(1);

fn three_vertices(database: &mut Database) {
    let mut batch = WriteBatch::new(R);
    for id in 1..=3 {
        batch.create_vertex(VId(id), vec![LabelId(1)], vec![(P, number(0))]);
    }
    seed(database, batch);
}

fn append(id: u128, target: u128) -> WriteBatch {
    let mut batch = WriteBatch::new(R);
    batch.add_edge(EId(id), VId(1), VId(target), vec![(P, number(7))]);
    batch
}

fn drifted() -> (Database, WriteTxn) {
    let mut database = open();
    three_vertices(&mut database);
    let mut transaction = WriteTxn::begin(&database).unwrap();
    write(&mut transaction, &database, vec![append(50, 2)]).unwrap();
    seed(&mut database, append(10, 3));
    (database, transaction)
}

fn commit_rebased(
    transaction: &mut WriteTxn,
    database: &mut Database,
    limit: u64,
    session: &mut Session<Native>,
) -> Result<CommitSeq, WriteTxnError> {
    let step = transaction.complete_rebased_controlled(database, limit, session)?;
    publish(transaction, database, step).map(committed)
}

#[test]
fn independent_shared_endpoint_appends_commit_once_and_reopen() {
    let mut database = open();
    three_vertices(&mut database);
    let pinned = database.frontier().unwrap();
    let mut left = WriteTxn::begin(&database).unwrap();
    let mut right = WriteTxn::begin(&database).unwrap();
    let mut ordinary = WriteTxn::begin(&database).unwrap();
    write(&mut left, &database, vec![append(10, 2)]).unwrap();
    write(&mut right, &database, vec![append(20, 3)]).unwrap();
    write(&mut ordinary, &database, vec![append(30, 3)]).unwrap();
    let first = commit(&mut left, &mut database).unwrap();
    assert!(matches!(
        commit(&mut ordinary, &mut database),
        Err(WriteTxnError::Write(WriteError::FirstCommitterWins { .. }))
    ));
    let second = commit_rebased(&mut right, &mut database, 1, &mut free()).unwrap();
    assert_eq!(second, CommitSeq(first.0 + 1));
    assert_eq!(database.log.len() - database.delta_since(first).unwrap(), 1);
    assert_eq!(
        right.state,
        EmbeddedTxnState::Completed(EmbeddedTxnCompletion::WriteCommitted { commit_seq: second })
    );
    assert!(right.pin.is_none());
    assert!(database.edge_at(EId(10), pinned).unwrap().is_none());
    assert!(database.edge_at(EId(20), pinned).unwrap().is_none());
    assert_eq!(database.edge_map_at(second).unwrap().len(), 2);
    assert!(edge(&database, EId(30)).is_none());
    assert_eq!(database.frontier().unwrap(), second);
    assert_eq!(edge(&database, EId(20)).unwrap().entry.created_at, second);
}

#[test]
fn dependent_multi_relation_creations_preserve_births_and_exact_row_admission() {
    for limit in [5, 6, 7] {
        let mut database = open();
        three_vertices(&mut database);
        let mut transaction = WriteTxn::begin(&database).unwrap();
        let mut a = WriteBatch::new(RelationId(9));
        a.create_vertex(VId(5), vec![], vec![(P, number(5))]);
        a.add_edge(EId(50), VId(1), VId(5), vec![]);
        let mut b = WriteBatch::new(RelationId(2));
        b.create_vertex(VId(6), vec![], vec![]);
        b.add_edge(EId(60), VId(5), VId(6), vec![]);
        write(&mut transaction, &database, vec![a, b]).unwrap();
        let mut concurrent = append(10, 3);
        concurrent.set_vertex_property(VId(1), P, Some(number(100)));
        seed(&mut database, concurrent);
        let frontier = database.frontier().unwrap();
        let result = commit_rebased(&mut transaction, &mut database, limit, &mut free());
        if limit == 5 {
            assert_eq!(
                result,
                Err(WriteTxnError::OrderedWriteBudgetExceeded { limit: 5, required: 6 })
            );
            assert_eq!(database.frontier().unwrap(), frontier);
            assert!(vertex(&database, VId(5)).is_none());
            assert_eq!(transaction.state, EmbeddedTxnState::Aborted);
        } else {
            assert_eq!(result.unwrap(), CommitSeq(frontier.0 + 1));
            assert_eq!(vertex(&database, VId(5)).unwrap().birth_ordinal, 1);
            assert_eq!(vertex(&database, VId(6)).unwrap().birth_ordinal, 3);
            assert_eq!(edge(&database, EId(50)).unwrap().entry.relation, RelationId(9));
            assert_eq!(edge(&database, EId(60)).unwrap().entry.relation, RelationId(2));
            assert_eq!(database.log.len() - database.delta_since(frontier).unwrap(), 1);
        }
        assert_eq!(vertex(&database, VId(1)).unwrap().props, vec![(P, number(100))]);
        assert!(transaction.pin.is_none());
    }
}

#[test]
fn raw_conditionals_updates_and_deletes_never_become_blind_appends() {
    for case in 0..6 {
        let mut database = open();
        three_vertices(&mut database);
        let frontier = database.frontier().unwrap();
        let mut transaction = WriteTxn::begin(&database).unwrap();
        let mut batch = append(50, 2);
        match case {
            0 => {
                batch.ensure_vertex(VId(1), vec![], vec![]);
            }
            1 => {
                batch.ensure_edge_by_triple(EId(51), VId(1), VId(2), vec![]);
            }
            2 => {
                batch.set_vertex_property(VId(1), P, Some(number(0)));
            }
            3 => {
                batch.compare_and_set(
                    ElementId::Vertex(VId(1)),
                    P,
                    Some(number(999)),
                    number(0),
                    WriteMismatchPolicy::NoOp,
                );
            }
            4 => {
                batch.delete_edge_if_present(EId(99));
            }
            _ => {
                batch.create_vertex(VId(5), vec![], vec![]);
                batch.delete_vertex(VId(5));
            }
        }
        write(&mut transaction, &database, vec![batch]).unwrap();
        assert_eq!(
            commit_rebased(&mut transaction, &mut database, 100, &mut free()),
            Err(WriteTxnError::AppendRebaseIneligible)
        );
        assert_eq!(transaction.state, EmbeddedTxnState::Aborted);
        assert_eq!(database.frontier().unwrap(), frontier);
        assert_eq!(database.edge_map_at(frontier).unwrap().len(), 0);
        assert!(transaction.pin.is_none());
    }
}

#[test]
fn point_negative_scan_and_savepoint_observations_refuse_rebase() {
    for case in 0..6 {
        let (mut database, mut transaction) = drifted();
        let frontier = database.frontier().unwrap();
        match case {
            0 => {
                transaction.vertex(&database, VId(1)).unwrap();
            }
            1 => {
                assert!(transaction.vertex(&database, VId(99)).unwrap().is_none());
            }
            2 => {
                transaction.vertices(&database).unwrap();
            }
            3 => {
                transaction.edges(&database).unwrap();
            }
            4 => {
                let source = String::from("MATCH (n:L) RETURN n");
                transaction.execute_gql(&database, &source, &mut free()).unwrap();
            }
            _ => savepoint(&mut transaction, "keep"),
        }
        assert_eq!(
            commit_rebased(&mut transaction, &mut database, 10, &mut free()),
            Err(WriteTxnError::AppendRebaseIneligible)
        );
        assert_eq!(transaction.state, EmbeddedTxnState::Aborted);
        assert_eq!(database.frontier().unwrap(), frontier);
        assert!(edge(&database, EId(50)).is_none());
        assert!(transaction.pin.is_none());
    }
}

#[test]
fn identity_write_delete_races_and_retired_endpoints_still_conflict() {
    for case in 0..3 {
        let mut database = open();
        three_vertices(&mut database);
        let mut transaction = WriteTxn::begin(&database).unwrap();
        let mut staged = append(50, 2);
        staged.create_vertex(VId(5), vec![], vec![]);
        write(&mut transaction, &database, vec![staged]).unwrap();
        let mut other = WriteBatch::new(R);
        match case {
            0 => {
                seed(&mut database, append(50, 3));
                other.delete_edge(EId(50));
            }
            1 => {
                let mut creation = WriteBatch::new(R);
                creation.create_vertex(VId(5), vec![], vec![]);
                seed(&mut database, creation);
                other.delete_vertex(VId(5));
            }
            _ => {
                other.delete_vertex(VId(2));
            }
        }
        seed(&mut database, other);
        let frontier = database.frontier().unwrap();
        let result = commit_rebased(&mut transaction, &mut database, 10, &mut free());
        assert!(is_write_conflict(&result));
        assert_eq!(transaction.state, EmbeddedTxnState::Aborted);
        assert_eq!(database.frontier().unwrap(), frontier);
        assert!(edge(&database, EId(50)).is_none());
        assert!(vertex(&database, VId(5)).is_none());
        assert!(transaction.pin.is_none());
    }
}

#[test]
fn wrong_owner_and_unpolled_future_preserve_the_real_owner_workspace() {
    let (mut database, mut transaction) = drifted();
    let old = transaction.prepared.as_ref().unwrap().template.copy();
    let basis = transaction.basis;
    let mut foreign = Database::open_memory(2, 7);
    assert_eq!(
        commit_rebased(&mut transaction, &mut foreign, 1, &mut free()),
        Err(WriteTxnError::WrongDatabase)
    );
    assert_eq!(transaction.state, EmbeddedTxnState::Active);
    assert_eq!(transaction.basis, basis);
    assert!(transaction.prepared.as_ref().unwrap().template.matches_template(&old));
    assert!(transaction.pin.is_some());
    commit_rebased(&mut transaction, &mut database, 1, &mut free()).unwrap();
    assert_eq!(
        commit_rebased(&mut transaction, &mut database, 1, &mut free()),
        Err(WriteTxnError::Finished)
    );
    assert!(transaction.pin.is_none());
}

#[test]
fn every_prepublication_checkpoint_refusal_aborts_without_a_new_marker() {
    let (mut database, mut transaction) = drifted();
    let mut session = free();
    commit_rebased(&mut transaction, &mut database, 1, &mut session).unwrap();
    let checkpoints = session.host().budget.borrow().seen;
    assert!(checkpoints > 10);
    for stop in 1..=checkpoints {
        let (mut database, mut transaction) = drifted();
        let frontier = database.frontier().unwrap();
        let mut session = stopping(stop);
        let result = commit_rebased(&mut transaction, &mut database, 1, &mut session);
        assert_eq!(result, Err(WriteTxnError::NoPreparedWrite), "stop {stop}");
        assert_eq!(session.host().budget.borrow().seen, stop);
        assert_eq!(transaction.state, EmbeddedTxnState::Aborted);
        assert!(transaction.pin.is_none());
        assert!(transaction.prepared.is_none());
        assert!(transaction.staged.is_empty());
        assert_eq!(database.frontier().unwrap(), frontier);
        assert!(edge(&database, EId(50)).is_none());
    }
}

#[test]
fn rebased_completion_keeps_the_existing_unknown_outcome_fence() {
    for after_marker in [false, true] {
        let (mut database, mut transaction) = drifted();
        let frontier = database.frontier().unwrap();
        let step = transaction.complete_rebased_controlled(&database, 1, &mut free()).unwrap();
        let guard = match step {
            CompletionStep::Publish { guard, .. } => guard,
            CompletionStep::Closed(_) => panic!("an append is published"),
        };
        let fence = DatabaseState::CommitOutcomeUnknown { published_frontier: frontier };
        if after_marker {
            database.state = fence;
        }
        let result = transaction.settle(&database, guard, Some(Err(WriteTxnError::Fenced(fence))));
        assert!(result.unwrap().is_err());
        let expected = if after_marker {
            EmbeddedTxnState::CommitOutcomeUnknown { published_frontier: frontier }
        } else {
            EmbeddedTxnState::Aborted
        };
        assert_eq!(transaction.state, expected);
        assert!(transaction.prepared.is_none());
        assert!(transaction.pin.is_none());
    }
}

fn fixture(staged: bool) -> (Database, WriteTxn) {
    let mut database = open();
    let mut first = WriteBatch::new(RelationId(1));
    for id in 1..=3 {
        first.create_vertex(VId(id), vec![], vec![(PropertyKeyId(1), number(10))]);
    }
    first.add_edge(EId(13), VId(1), VId(3), vec![]);
    first.add_edge(EId(23), VId(2), VId(3), vec![]);
    seed(&mut database, first);
    let mut transaction = WriteTxn::begin(&database).unwrap();
    transaction.vertex(&database, VId(1)).unwrap();
    if staged {
        let mut batch = WriteBatch::new(RelationId(1));
        batch.create_vertex(VId(99), vec![], vec![]);
        write(&mut transaction, &database, vec![batch]).unwrap();
    }
    let mut unrelated = WriteBatch::new(RelationId(1));
    unrelated.create_vertex(VId(4), (1..=5).map(LabelId).collect(), vec![]);
    seed(&mut database, unrelated);
    let mut cascade = WriteBatch::new(RelationId(1));
    cascade.delete_vertex(VId(3));
    seed(&mut database, cascade);
    (database, transaction)
}

#[test]
fn every_validation_checkpoint_refuses_before_acceptance_and_releases_pin() {
    for staged in [false, true] {
        let (mut database, mut transaction) = fixture(staged);
        let mut session = free();
        let step = transaction.complete_controlled(&database, false, &mut session).unwrap();
        let completed = publish(&mut transaction, &mut database, step).unwrap();
        assert_eq!(matches!(completed, EmbeddedTxnCompletion::WriteCommitted { .. }), staged);
        let checkpoints = session.host().budget.borrow().seen;
        assert!(checkpoints > 10, "exercise history, labels, cascades and final acceptance");
        assert!(transaction.pin.is_none());
        for stop in 1..=checkpoints {
            let (database, mut transaction) = fixture(staged);
            let frontier = database.frontier().unwrap();
            let mut session = stopping(stop);
            let result = transaction.complete_controlled(&database, false, &mut session);
            assert!(matches!(result, Err(WriteTxnError::NoPreparedWrite)), "stop {stop}");
            assert_eq!(session.host().budget.borrow().seen, stop);
            assert_eq!(transaction.state, EmbeddedTxnState::Aborted);
            assert!(transaction.pin.is_none());
            assert!(transaction.prepared.is_none());
            assert!(transaction.staged.is_empty());
            assert!(transaction.read_set.is_empty());
            assert_eq!(database.frontier().unwrap(), frontier);
            assert!(vertex(&database, VId(99)).is_none());
        }
    }
}

#[test]
fn dropped_guard_classifies_real_durability_fences_and_never_recovers_from_drop() {
    for phase in 0..4 {
        let mut database = open();
        let basis = database.frontier().unwrap();
        let mut transaction = WriteTxn::begin(&database).unwrap();
        let mut batch = WriteBatch::new(RelationId(1));
        batch.create_vertex(VId(1), vec![], vec![]);
        write(&mut transaction, &database, vec![batch]).unwrap();
        let prepared = transaction.prepared.take().unwrap();
        let mut guard = TxnCompletionGuard::new(&database);
        guard.entered_commit = true;
        match phase {
            0 => {}
            1 => {
                database.state =
                    DatabaseState::CommitOutcomeUnknown { published_frontier: basis };
            }
            2 => {
                let seq = database.publish(prepared.template);
                database.state =
                    DatabaseState::NeedsAuthoritativeRecovery { durable_frontier: seq };
            }
            _ => {
                database.publish(prepared.template);
            }
        }
        guard.release(&mut transaction, &database);
        let expected = match phase {
            0 => EmbeddedTxnState::Aborted,
            1 => EmbeddedTxnState::CommitOutcomeUnknown { published_frontier: basis },
            2 => EmbeddedTxnState::CommittedNeedsRecovery { commit_seq: CommitSeq(basis.0 + 1) },
            _ => EmbeddedTxnState::Completed(EmbeddedTxnCompletion::WriteCommitted {
                commit_seq: CommitSeq(basis.0 + 1),
            }),
        };
        assert_eq!(transaction.state, expected);
        assert!(transaction.pin.is_none());
        assert!(transaction.staged.is_empty());
        guard.release(&mut transaction, &open());
        assert_eq!(transaction.state, expected, "a recorded outcome is never rewritten");
    }
}

const LABEL: LabelId = LabelId(1);
const TEXT: PropertyKeyId = PropertyKeyId(1);
const X: PropertyKeyId = PropertyKeyId(2);
const Y: PropertyKeyId = PropertyKeyId(3);

const OLD: u64 = 1;
const NO_MATCH: u64 = 2;
const ERASED: u64 = 3;
const RUST: u64 = 10;
const RUST_REMOVED: u64 = 11;
const RUST_GRAPH: u64 = 12;
const RUST_FILTERED: u64 = 13;
const RUST_SYSTEMS: u64 = 14;
const RUST_DATABASE: u64 = 15;
const RUST_RUST: u64 = 16;

#[derive(Clone, Copy)]
enum Lane {
    Text,
    Vector,
    Hybrid,
    Graph,
}

/// A small exact index over the documents that a corpus shows.
struct Exact {
    lane: Lane,
    k: usize,
    hops: BTreeMap<u128, u64>,
    validation: Vec<u64>,
    fault: Option<BeaconError>,
    projected: u64,
}

impl Exact {
    fn new(lane: Lane, k: usize) -> Exact {
        Exact { lane, k, hops: BTreeMap::new(), validation: vec![], fault: None, projected: 0 }
    }
}

impl SearchEngine for Exact {
    fn validate(&mut self) -> Worked<u64> {
        Worked { charges: self.validation.clone(), outcome: Ok(1000) }
    }

    fn project(&mut self, _document: VId, _row: &Overlay) -> Worked<()> {
        self.projected += 1;
        match self.fault {
            Some(error) => Worked { charges: vec![], outcome: Err(error) },
            None => Worked { charges: vec![1], outcome: Ok(()) },
        }
    }

    fn evaluate(
        &mut self,
        corpus: &Corpus,
        documents: &Vec<VId>,
        lane: Option<&Expansion>,
    ) -> Worked<Vec<Hit>> {
        let property = |vid: &VId, key: PropertyKeyId| corpus.rows.get(vid.0).unwrap().property(key);
        let matched = |vid: &VId| {
            matches!(property(vid, TEXT), Some(CanonicalScalar::Text(id)) if id >= RUST)
        };
        let coordinate = |vid: &VId, key: PropertyKeyId| match property(vid, key) {
            Some(CanonicalScalar::Int(value)) => value,
            _ => 1_000,
        };
        let distance = |vid: &VId| {
            let (x, y) = (coordinate(vid, X) - 1, coordinate(vid, Y));
            x * x + y * y
        };
        let mut hits: Vec<VId> = documents.clone();
        match self.lane {
            Lane::Text => hits.retain(|vid| matched(vid)),
            Lane::Vector => hits.sort_by_key(|vid| (distance(vid), vid.0)),
            Lane::Hybrid => hits.sort_by_key(|vid| (!matched(vid), distance(vid), vid.0)),
            Lane::Graph if lane.is_none() => {}
            Lane::Graph => {
                let graph = lane.unwrap();
                let mut reached: BTreeMap<u128, u64> =
                    graph.seeds.iter().map(|vid| (vid.0, 0)).collect();
                for hop in 1..=graph.max_hops {
                    for (_, incidence) in &corpus.emitted {
                        if reached.get(&incidence.src.0) == Some(&(hop - 1)) {
                            reached.entry(incidence.dst.0).or_insert(hop);
                        }
                    }
                }
                for seed in &graph.seeds {
                    reached.remove(&seed.0);
                }
                hits.sort_by_key(|vid| (reached.get(&vid.0).copied().unwrap_or(100), vid.0));
                self.hops = reached;
            }
        }
        hits.truncate(self.k);
        let scored = |vid: VId| Hit {
            vertex: vid,
            score_bits: (distance(&vid) as f64).to_bits(),
            hops: self.hops.get(&vid.0).copied(),
        };
        Worked {
            charges: vec![documents.len() as u64],
            outcome: Ok(hits.into_iter().map(scored).collect()),
        }
    }
}

fn options() -> SearchOptions {
    SearchOptions {
        as_of: None,
        vertex_label: Some(LABEL),
        max_work_units: 100_000,
        limits: SearchLimits { max_source_scratch: 10_000, max_expansion_scratch: 10_000 },
        max_staging_rows: 10_000,
    }
}

fn props(text: u64, x: i64, y: i64) -> Vec<(PropertyKeyId, CanonicalScalar)> {
    vec![(TEXT, CanonicalScalar::Text(text)), (X, number(x)), (Y, number(y))]
}

fn search(
    txn: &mut WriteTxn,
    db: &Database,
    opts: SearchOptions,
    lane: Lane,
    k: usize,
) -> Result<Vec<Hit>, ReadError> {
    txn.beacon_search(db, opts, &mut EngineRecord::new(Exact::new(lane, k)), &mut free())
}

#[test]
fn staged_text_vectors_and_hybrid_match_the_committed_corpus() {
    let mut db = open();
    let mut first = WriteBatch::new(RelationId(1));
    first.create_vertex(VId(1), vec![LABEL], props(OLD, 0, 1));
    first.create_vertex(VId(2), vec![LABEL], props(RUST_REMOVED, 0, 1));
    first.create_vertex(VId(3), vec![], props(RUST_GRAPH, 1, 1));
    first.create_vertex(VId(4), vec![LABEL], props(RUST_FILTERED, 1, 0));
    seed(&mut db, first);
    let basis = db.frontier().unwrap();
    let mut txn = WriteTxn::begin(&db).unwrap();
    savepoint(&mut txn, "before-search");
    let mut changes = WriteBatch::new(RelationId(1));
    changes.set_vertex_property(VId(1), TEXT, Some(CanonicalScalar::Text(RUST_SYSTEMS)));
    changes.set_vertex_property(VId(1), X, Some(number(1)));
    changes.set_vertex_property(VId(1), Y, Some(number(0)));
    changes.delete_vertex(VId(2));
    changes.set_vertex_label(VId(3), LABEL, true);
    changes.set_vertex_label(VId(4), LABEL, false);
    changes.create_vertex(VId(5), vec![LABEL], props(RUST_DATABASE, 2, 1));
    changes.create_vertex(VId(6), vec![LABEL], props(ERASED, 1, 0));
    changes.delete_vertex(VId(6));
    write(&mut txn, &db, vec![changes]).unwrap();
    let lanes = [Lane::Text, Lane::Vector, Lane::Hybrid];
    let staged: Vec<Vec<Hit>> =
        lanes.iter().map(|lane| search(&mut txn, &db, options(), *lane, 10).unwrap()).collect();
    assert_eq!(staged[0].len(), 3);
    assert_eq!(db.frontier().unwrap(), basis, "search must not publish");
    assert!(!txn.scanned_vertices);
    assert!(txn.read_set.contains(ElementId::Vertex(VId(6))));
    commit(&mut txn, &mut db).unwrap();
    for (lane, expected) in lanes.into_iter().zip(staged) {
        let mut reader = WriteTxn::begin(&db).unwrap();
        assert_eq!(search(&mut reader, &db, options(), lane, 10).unwrap(), expected);
    }
}

#[test]
fn searches_keep_the_pinned_basis_and_retain_non_hit_read_conflicts() {
    let mut db = open();
    let mut first = WriteBatch::new(RelationId(1));
    first.create_vertex(VId(1), vec![LABEL], props(RUST, 1, 0));
    first.create_vertex(VId(2), vec![LABEL], props(NO_MATCH, 0, 1));
    seed(&mut db, first);
    let mut txn = WriteTxn::begin(&db).unwrap();
    let before = search(&mut txn, &db, options(), Lane::Text, 1).unwrap();
    assert_eq!(before.len(), 1);
    assert!(txn.read_set.contains(ElementId::Vertex(VId(2))));
    let mut winner = WriteBatch::new(RelationId(1));
    winner.set_vertex_property(VId(2), TEXT, Some(CanonicalScalar::Text(RUST_RUST)));
    seed(&mut db, winner);
    assert_eq!(search(&mut txn, &db, options(), Lane::Text, 1).unwrap(), before);
    assert!(is_read_conflict(&finish(&mut txn, &mut db)));
}

#[test]
fn empty_searches_keep_label_phantoms_and_normalized_negative_observations() {
    for case in 0..3 {
        let mut db = open();
        let mut txn = WriteTxn::begin(&db).unwrap();
        savepoint(&mut txn, "clean");
        if case == 2 {
            let mut erased = WriteBatch::new(RelationId(1));
            erased.create_vertex(VId(9), vec![], vec![]);
            erased.delete_vertex(VId(9));
            write(&mut txn, &db, vec![erased]).unwrap();
        }
        assert!(search(&mut txn, &db, options(), Lane::Text, 0).unwrap().is_empty());
        rollback(&mut txn, &db, "clean");
        let mut winner = WriteBatch::new(RelationId(1));
        let labels = if case == 1 { vec![LABEL] } else { vec![] };
        winner.create_vertex(VId(9), labels, props(RUST, 1, 0));
        seed(&mut db, winner);
        let result = finish(&mut txn, &mut db);
        if case == 0 {
            assert!(result.is_ok(), "unrelated-label insertion is not a phantom: {result:?}");
        } else {
            assert!(is_read_conflict(&result));
        }
    }
}

#[test]
fn limits_and_wrong_contexts_refuse_without_finishing_or_publishing() {
    let db = open();
    let other = Database::open_memory(2, 7);
    let mut txn = WriteTxn::begin(&db).unwrap();
    let mut staged = WriteBatch::new(RelationId(1));
    staged.create_vertex(VId(1), vec![LABEL], props(RUST, 1, 0));
    write(&mut txn, &db, vec![staged]).unwrap();
    for case in 0..3 {
        let mut opts = options();
        match case {
            0 => opts.max_work_units = 0,
            1 => opts.limits.max_source_scratch = 0,
            _ => opts.max_staging_rows = 0,
        }
        let result = search(&mut txn, &db, opts, Lane::Text, 1);
        if case == 0 {
            assert_eq!(result, Err(ReadError::Index(BeaconError::WorkBudgetExceeded)));
        } else {
            assert!(matches!(result, Err(ReadError::Index(BeaconError::ResourceLimit { .. }))));
        }
    }
    let mut historical = options();
    historical.as_of = Some(CommitSeq(txn.basis.0 + 1));
    assert!(matches!(
        search(&mut txn, &db, historical, Lane::Text, 1),
        Err(ReadError::Index(BeaconError::InvalidQuery(_)))
    ));
    assert_eq!(
        search(&mut txn, &other, options(), Lane::Text, 1),
        Err(ReadError::Read(WriteTxnError::WrongDatabase))
    );
    assert_eq!(db.frontier().unwrap(), txn.basis);
    assert_eq!(search(&mut txn, &db, options(), Lane::Text, 1).unwrap().len(), 1);
    let mut ended = txn.abort();
    assert_eq!(
        search(&mut ended, &db, options(), Lane::Text, 1),
        Err(ReadError::Read(WriteTxnError::Finished))
    );
}

#[test]
fn prepared_incidence_and_selected_corpus_match_committed_three_lane_search() {
    let mut db = open();
    let label = LabelId(1);
    let mut first = WriteBatch::new(RelationId(1));
    for id in 1..=5 {
        first.create_vertex(
            VId(id),
            vec![label],
            vec![(TEXT, CanonicalScalar::Text(RUST)), (X, number(id as i64))],
        );
    }
    first.create_vertex(VId(6), vec![label], vec![]);
    for (eid, src, dst) in [(10, 1, 2), (11, 1, 2), (12, 2, 3), (13, 3, 4), (14, 4, 1), (15, 1, 6)] {
        first.add_edge(EId(eid), VId(src), VId(dst), vec![]);
    }
    seed(&mut db, first);
    let basis = db.frontier().unwrap();
    let mut txn = WriteTxn::begin(&db).unwrap();
    let mut changes = WriteBatch::new(RelationId(1));
    changes.ensure_edge_by_triple(EId(100), VId(1), VId(2), vec![]);
    changes.delete_edge(EId(10));
    changes.delete_vertex(VId(3));
    changes.add_edge(EId(20), VId(2), VId(5), vec![]);
    changes.add_edge(EId(21), VId(5), VId(4), vec![]);
    changes.set_vertex_label(VId(4), label, false);
    changes.set_vertex_property(VId(5), X, Some(number(0)));
    changes.create_vertex(VId(7), vec![label], vec![]);
    changes.add_edge(EId(22), VId(6), VId(7), vec![]);
    changes.add_edge(EId(23), VId(7), VId(5), vec![]);
    changes.add_edge(EId(30), VId(1), VId(5), vec![]);
    changes.delete_edge(EId(30));
    write(&mut txn, &db, vec![changes]).unwrap();
    let expansion = Expansion {
        relation: Some(RelationId(1)),
        seeds: vec![VId(1)],
        max_hops: 4,
        max_seed_ids: 100,
    };
    let engine = || EngineRecord::new(Exact::new(Lane::Graph, 8));
    let mut staged = engine();
    let actual =
        txn.beacon_search_graph(&db, options(), Some(&expansion), &mut staged, &mut free()).unwrap();
    assert_eq!(db.frontier().unwrap(), basis);
    assert!(txn.scanned_edges);
    assert!(txn.read_set.contains(ElementId::Edge(EId(100))));
    assert!(txn.read_set.contains(ElementId::Edge(EId(30))));
    for (id, hops) in [(2, 1), (6, 1), (7, 2), (5, 2)] {
        assert_eq!(actual.iter().find(|hit| hit.vertex == VId(id)).unwrap().hops, Some(hops));
    }
    assert!(actual.iter().all(|hit| hit.vertex != VId(3) && hit.vertex != VId(4)));
    commit(&mut txn, &mut db).unwrap();
    let mut reader = WriteTxn::begin(&db).unwrap();
    let mut published = engine();
    assert_eq!(
        reader
            .beacon_search_graph(&db, options(), Some(&expansion), &mut published, &mut free())
            .unwrap(),
        actual
    );
    assert_eq!(published.engine().hops, staged.engine().hops);
    assert_eq!(
        txn.beacon_search_graph(&db, options(), Some(&expansion), &mut engine(), &mut free()),
        Err(ReadError::Read(WriteTxnError::Finished))
    );
}

#[test]
fn a_disabled_graph_lane_counts_no_seed_and_keeps_no_edge_witness() {
    let mut db = open();
    let mut first = WriteBatch::new(RelationId(1));
    first.create_vertex(VId(1), vec![LABEL], props(RUST, 1, 0));
    first.create_vertex(VId(2), vec![LABEL], props(RUST, 2, 0));
    first.add_edge(EId(1), VId(1), VId(2), vec![]);
    seed(&mut db, first);
    let lane = |max_hops: u64, seeds: Vec<VId>, max_seed_ids: u64| Expansion {
        relation: None,
        seeds,
        max_hops,
        max_seed_ids,
    };
    let mut txn = WriteTxn::begin(&db).unwrap();
    let mut engine = EngineRecord::new(Exact::new(Lane::Graph, 8));
    txn.beacon_search_graph(&db, options(), None, &mut engine, &mut free()).unwrap();
    assert!(!txn.scanned_edges);
    for idle in [lane(0, vec![VId(1)], 1), lane(3, vec![], 1)] {
        txn.beacon_search_graph(&db, options(), Some(&idle), &mut engine, &mut free()).unwrap();
        assert!(!txn.scanned_edges);
    }
    let crowded = lane(3, vec![VId(1), VId(2)], 1);
    let refused = txn.beacon_search_graph(&db, options(), Some(&crowded), &mut engine, &mut free());
    assert!(matches!(refused, Err(ReadError::Index(_))));
    assert!(!txn.scanned_edges);
    let open_lane = lane(3, vec![VId(1)], 1);
    let hits =
        txn.beacon_search_graph(&db, options(), Some(&open_lane), &mut engine, &mut free()).unwrap();
    assert!(txn.scanned_edges);
    assert_eq!(hits.iter().find(|hit| hit.vertex == VId(2)).unwrap().hops, Some(1));
}

/// Three documents, and one search over them that an allowance bounds.
fn bounded_search(engine: Exact, work: u64, staging: u64, stop: Option<u64>) -> (
    Result<Vec<Hit>, ReadError>,
    u64,
) {
    let mut db = open();
    let mut first = WriteBatch::new(RelationId(1));
    for id in 1..=3 {
        first.create_vertex(VId(id), vec![LABEL], props(RUST, id as i64, 0));
    }
    seed(&mut db, first);
    let mut txn = WriteTxn::begin(&db).unwrap();
    let opts = SearchOptions { max_work_units: work, max_staging_rows: staging, ..options() };
    let mut record = EngineRecord::new(engine);
    let mut session = match stop {
        Some(stop) => stopping(stop),
        None => free(),
    };
    let done = txn.beacon_search(&db, opts, &mut record, &mut session);
    (done, record.engine().projected)
}

#[test]
fn validation_is_paid_before_the_corpus_is_read() {
    let engine = |validation: Vec<u64>| Exact { validation, ..Exact::new(Lane::Vector, 3) };
    let (free_of_charge, _) = bounded_search(engine(vec![]), 1_000, 100, None);
    assert_eq!(free_of_charge.unwrap().len(), 3);
    let least = (1..1_000)
        .find(|work| bounded_search(engine(vec![]), *work, 100, None).0.is_ok())
        .unwrap();
    // What validation charges is gone from what the rest can use.
    assert_eq!(
        bounded_search(engine(vec![2, 3]), least + 4, 100, None).0,
        Err(ReadError::Index(BeaconError::WorkBudgetExceeded))
    );
    assert!(bounded_search(engine(vec![2, 3]), least + 5, 100, None).0.is_ok());
    // A validation that is too dear projects nothing.
    let (refused, projected) = bounded_search(engine(vec![least]), least, 100, None);
    assert_eq!(refused, Err(ReadError::Index(BeaconError::WorkBudgetExceeded)));
    assert_eq!(projected, 0);
}

#[test]
fn a_document_is_projected_before_the_next_is_staged() {
    let fault = Some(BeaconError::WorkBudgetExceeded);
    let broken = Exact { fault, ..Exact::new(Lane::Vector, 3) };
    let (refused, projected) = bounded_search(broken, 1_000, 1, None);
    assert_eq!(refused, Err(ReadError::Index(BeaconError::WorkBudgetExceeded)));
    assert_eq!(projected, 1);
    let (limited, projected) = bounded_search(Exact::new(Lane::Vector, 3), 1_000, 1, None);
    assert!(matches!(limited, Err(ReadError::Index(_))));
    assert_eq!(projected, 1);
}

#[test]
fn an_interruption_inside_the_engines_is_reported_as_one() {
    let stops = |validation: Vec<u64>| {
        let mut stop = 1;
        loop {
            let engine = Exact { validation: validation.clone(), ..Exact::new(Lane::Vector, 3) };
            match bounded_search(engine, 1_000, 100, Some(stop)).0 {
                Ok(_) => return stop - 1,
                Err(error) => assert!(matches!(error, ReadError::Interrupted(_)), "{error:?}"),
            }
            stop += 1;
        }
    };
    // Every charge of an engine is a place to be interrupted at.
    assert_eq!(stops(vec![1, 1]), stops(vec![]) + 2);
}
